//! What the filesystem is, and what each request makes of it.

use vstd::prelude::*;
use vstd::utf8::encode_utf8;
use crate::attr::{FileAttr, FileType, Owner, DEFAULT_FILE_MODE, ROOT};
use crate::attr::{directory_attr, entry_attr, file_attr};
use crate::contents::{assembled, fits, position, resized, window, written};
use crate::directory::{holder, listing, BlobRefView, Entries, EntryView, MetadataView};
use crate::errno::{errno_of, EEXIST, EINVAL, ENOENT, ENOTDIR};
use crate::names::blob_name_of;
use crate::store::{blob_dir_of, blob_path_of, blob_steps, blobs_dir_of, metadata_steps, FileOpView};

verus! {

/// How an open file is to be used: its handle and the flags for the kernel.
#[derive(Clone, Copy, Debug, PartialEq, Eq, Structural)]
pub struct Opened {
    pub fh: u64,
    pub flags: u32,
}

/// Reads and writes go straight to the filesystem, past the cache of the kernel.
pub const FOPEN_DIRECT_IO: u32 = 1;

/// What a request that changes the store is answered.
#[derive(Clone, Copy, Debug, PartialEq, Eq, Structural)]
pub enum Reply {
    Empty,
    Created { attr: FileAttr, opened: Opened },
}

/// What is left of a request once the steps in hand are done.
#[verifier::ext_equal]
pub enum TaskView {
    Bootstrap { blob: Seq<char> },
    Install { ino: u64, blob: Seq<char>, len: u64 },
    Create { attr: FileAttr },
    Finish,
}

/// How far a request has come: it is answered, or waits for steps on the store.
#[verifier::ext_equal]
pub enum StepView {
    Done(Result<Reply, i32>),
    Perform { ops: Seq<FileOpView>, then: TaskView },
}

/// A line of the directory: what stands there, and where the next line is found.
#[verifier::ext_equal]
pub struct DirEntryView {
    pub ino: u64,
    pub offset: i64,
    pub kind: FileType,
    pub name: Seq<char>,
}

/// The state of the filesystem.
#[verifier::ext_equal]
pub struct FsView {
    pub store_dir: Seq<char>,
    pub next_inode: u64,
    pub next_blob: u64,
    pub entries: Entries,
    pub staged: Map<u64, Seq<u8>>,
}

/// What reading the blobs of a file came to: their contents, or the system's error number.
pub type FetchedView = Result<Seq<Seq<u8>>, Option<i32>>;

/// The text in the file that a new store starts with.
pub open spec fn hello_text() -> Seq<u8> {
    encode_utf8("Hello from a tiny FUSE filesystem.\n"@)
}

/// An open file is used past the cache of the kernel, and has no handle of its own.
pub open spec fn direct_io() -> Opened {
    Opened { fh: 0, flags: FOPEN_DIRECT_IO }
}

/// One blob that holds a whole file.
pub open spec fn whole(blob: Seq<char>, len: u64) -> Seq<BlobRefView> {
    seq![BlobRefView { blob, offset: 0, len }]
}

/// Line number `i` of the directory with the entries `rows`.
pub open spec fn line(rows: Seq<(Seq<char>, EntryView)>, i: int) -> DirEntryView {
    if i == 0 {
        DirEntryView { ino: ROOT, offset: 1, kind: FileType::Directory, name: "."@ }
    } else if i == 1 {
        DirEntryView { ino: ROOT, offset: 2, kind: FileType::Directory, name: ".."@ }
    } else {
        DirEntryView {
            ino: rows[i - 2].1.ino,
            offset: (i + 1) as i64,
            kind: FileType::RegularFile,
            name: rows[i - 2].0,
        }
    }
}

/// The lines of the directory: itself, its parent, then its entries in the order of their names.
pub open spec fn lines(entries: Entries) -> Seq<DirEntryView> {
    Seq::new(listing(entries).len() + 2, |i: int| line(listing(entries), i))
}

/// The lines from number `offset` on; a negative number is past the end.
pub open spec fn page(entries: Entries, offset: i64) -> Seq<DirEntryView> {
    if 0 <= offset <= lines(entries).len() {
        lines(entries).skip(offset as int)
    } else {
        Seq::empty()
    }
}

impl FsView {
    /// A store that holds nothing yet.
    pub open spec fn fresh(store_dir: Seq<char>) -> FsView {
        FsView {
            store_dir,
            next_inode: 2,
            next_blob: 1,
            entries: Map::empty(),
            staged: Map::empty(),
        }
    }

    /// A store that holds the metadata `meta`, with nothing staged.
    pub open spec fn holding(store_dir: Seq<char>, meta: MetadataView) -> FsView {
        FsView {
            store_dir,
            next_inode: meta.next_inode,
            next_blob: meta.next_blob,
            entries: meta.entries,
            staged: Map::empty(),
        }
    }

    /// A store that holds metadata is taken as it is; one that holds none gets its first files.
    pub open spec fn open(store_dir: Seq<char>, stored: Option<MetadataView>) -> (FsView, StepView) {
        match stored {
            Some(meta) => (
                FsView::holding(store_dir, meta),
                StepView::Done(Ok(Reply::Empty)),
            ),
            None => FsView::fresh(store_dir).bootstrap(),
        }
    }

    /// What is kept of the files beside their bytes.
    pub open spec fn metadata(self) -> MetadataView {
        MetadataView {
            next_inode: self.next_inode,
            next_blob: self.next_blob,
            entries: self.entries,
        }
    }

    /// The file of a blob.
    pub open spec fn blob_path(self, blob: Seq<char>) -> Seq<char> {
        blob_path_of(self.store_dir, blob)
    }

    /// The entry with inode `ino`.
    pub open spec fn entry_of(self, ino: u64) -> Option<EntryView> {
        match holder(self.entries, ino) {
            Some(name) => Some(self.entries[name]),
            None => None,
        }
    }

    /// The same filesystem with `data` staged for `ino`.
    pub open spec fn with_staged(self, ino: u64, data: Seq<u8>) -> FsView {
        FsView { staged: self.staged.insert(ino, data), ..self }
    }

    /// The same filesystem with nothing staged for `ino`.
    pub open spec fn without_staged(self, ino: u64) -> FsView {
        FsView { staged: self.staged.remove(ino), ..self }
    }

    /// The same filesystem with other entries.
    pub open spec fn with_entries(self, entries: Entries) -> FsView {
        FsView { entries, ..self }
    }

    /// The files that have to be read before the bytes of `ino` are known: none where they are
    /// staged or there is no such inode.
    pub open spec fn blobs_to_read(self, ino: u64) -> Seq<Seq<char>> {
        match self.entry_of(ino) {
            Some(entry) if !self.staged.contains_key(ino) => entry.blobs.map_values(
                |b: BlobRefView| self.blob_path(b.blob),
            ),
            _ => Seq::empty(),
        }
    }

    /// What was read of the blobs of `ino` is enough to put its bytes together.
    pub open spec fn readable(self, ino: u64, fetched: FetchedView) -> bool {
        match (self.entry_of(ino), fetched) {
            (Some(entry), Ok(blobs)) => self.staged.contains_key(ino) || fits(entry, blobs),
            _ => true,
        }
    }

    /// The bytes of `ino`: those that are staged, else those that were committed.
    pub open spec fn contents(self, ino: u64, fetched: FetchedView) -> Result<Seq<u8>, i32> {
        if self.staged.contains_key(ino) {
            Ok(self.staged[ino])
        } else {
            match (self.entry_of(ino), fetched) {
                (None, _) => Err(ENOENT),
                (Some(entry), Ok(blobs)) => Ok(assembled(entry.size as nat, entry.blobs, blobs)),
                (Some(_), Err(raw)) => Err(errno_of(raw)),
            }
        }
    }

    /// A new blob for `data`: the filesystem after it, its name, and the steps that keep it.
    pub open spec fn put_blob(self, data: Seq<u8>) -> (FsView, Seq<char>, Seq<FileOpView>) {
        let blob = blob_name_of(self.next_blob as nat);
        (
            FsView { next_blob: (self.next_blob + 1) as u64, ..self },
            blob,
            blob_steps(
                blobs_dir_of(self.store_dir),
                blob_dir_of(self.store_dir, blob),
                self.blob_path(blob),
                data,
            ),
        )
    }

    /// Replacing the metadata, after which `then` is left to do.
    pub open spec fn commit_metadata(self, then: TaskView) -> (FsView, StepView) {
        (self, StepView::Perform { ops: metadata_steps(self.store_dir), then })
    }

    /// The first blob of a new store is kept before anything refers to it.
    pub open spec fn bootstrap(self) -> (FsView, StepView) {
        let (next, blob, ops) = self.put_blob(hello_text());
        (next, StepView::Perform { ops, then: TaskView::Bootstrap { blob } })
    }

    /// The entries that a new store starts with.
    pub open spec fn bootstrapped(self, blob: Seq<char>) -> FsView {
        FsView {
            next_inode: (self.next_inode + 2) as u64,
            entries: self.entries.insert(
                "hello.txt"@,
                EntryView {
                    ino: self.next_inode,
                    mode: DEFAULT_FILE_MODE,
                    size: hello_text().len() as u64,
                    blobs: whole(blob, hello_text().len() as u64),
                },
            ).insert(
                "notes.txt"@,
                EntryView {
                    ino: (self.next_inode + 1) as u64,
                    mode: DEFAULT_FILE_MODE,
                    size: 0,
                    blobs: Seq::empty(),
                },
            ),
            ..self
        }
    }

    /// The entry with inode `ino` now refers to `blobs`, which hold `len` bytes.
    pub open spec fn install(self, ino: u64, blobs: Seq<BlobRefView>, len: u64) -> (FsView, StepView) {
        match holder(self.entries, ino) {
            Some(name) => self.with_entries(
                self.entries.insert(name, EntryView { size: len, blobs, ..self.entries[name] }),
            ).commit_metadata(TaskView::Finish),
            None => (self, StepView::Done(Err(ENOENT))),
        }
    }

    /// What is staged for `ino` is taken away and kept: in a new blob, where there is anything.
    pub open spec fn commit_inode(self, ino: u64) -> (FsView, StepView) {
        if !self.staged.contains_key(ino) {
            (self, StepView::Done(Ok(Reply::Empty)))
        } else {
            let data = self.staged[ino];
            let taken = self.without_staged(ino);
            if data.len() == 0 {
                taken.install(ino, Seq::empty(), 0)
            } else {
                let (next, blob, ops) = taken.put_blob(data);
                (
                    next,
                    StepView::Perform {
                        ops,
                        then: TaskView::Install { ino, blob, len: data.len() as u64 },
                    },
                )
            }
        }
    }

    /// A flush commits what is staged for the file.
    pub open spec fn flush(self, ino: u64) -> (FsView, StepView) {
        self.commit_inode(ino)
    }

    /// An fsync commits what is staged for the file, whether or not its metadata was asked for.
    pub open spec fn fsync(self, ino: u64, datasync: bool) -> (FsView, StepView) {
        self.commit_inode(ino)
    }

    /// A request goes on after its steps have ended: well, or with the system's error number.
    pub open spec fn resume(self, task: TaskView, outcome: Result<(), Option<i32>>) -> (
        FsView,
        StepView,
    ) {
        match (outcome, task) {
            (Err(raw), _) => (self, StepView::Done(Err(errno_of(raw)))),
            (Ok(()), TaskView::Bootstrap { blob }) => self.bootstrapped(blob).commit_metadata(
                TaskView::Finish,
            ),
            (Ok(()), TaskView::Install { ino, blob, len }) => self.install(
                ino,
                whole(blob, len),
                len,
            ),
            (Ok(()), TaskView::Create { attr }) => (
                self,
                StepView::Done(Ok(Reply::Created { attr, opened: direct_io() })),
            ),
            (Ok(()), TaskView::Finish) => (self, StepView::Done(Ok(Reply::Empty))),
        }
    }

    /// A file is found by its name in the one directory; anything else is not there.
    pub open spec fn lookup(self, parent: u64, name: Option<Seq<char>>, owner: Owner) -> Result<
        FileAttr,
        i32,
    > {
        match name {
            Some(name) if parent == ROOT && self.entries.contains_key(name) => Ok(
                entry_attr(self.entries[name], owner),
            ),
            _ => Err(ENOENT),
        }
    }

    /// The attributes of an inode are those of the directory, or of the file as it was last
    /// committed.
    pub open spec fn getattr(self, ino: u64, owner: Owner) -> Result<FileAttr, i32> {
        if ino == ROOT {
            Ok(directory_attr(owner))
        } else {
            match self.entry_of(ino) {
                Some(entry) => Ok(entry_attr(entry, owner)),
                None => Err(ENOENT),
            }
        }
    }

    /// A file can be opened; the directory cannot.
    pub open spec fn open_file(self, ino: u64) -> Result<Opened, i32> {
        if ino != ROOT && self.entry_of(ino) is Some {
            Ok(direct_io())
        } else {
            Err(ENOENT)
        }
    }

    /// A read gives part of the bytes of a file.
    pub open spec fn read(self, ino: u64, offset: i64, size: u32, fetched: FetchedView) -> Result<
        Seq<u8>,
        i32,
    > {
        match self.contents(ino, fetched) {
            Ok(data) => Ok(window(data, offset, size)),
            Err(code) => Err(code),
        }
    }

    /// A write stages the bytes of a file with those of the request over them.
    pub open spec fn write(self, ino: u64, offset: i64, data: Seq<u8>, fetched: FetchedView) -> (
        FsView,
        Result<u32, i32>,
    ) {
        match self.contents(ino, fetched) {
            Ok(before) => (
                self.with_staged(ino, written(before, position(offset), data)),
                Ok(data.len() as u32),
            ),
            Err(code) => (self, Err(code)),
        }
    }

    /// The attributes of `ino` with the size that is staged, where one is.
    pub open spec fn staged_attr(self, ino: u64, owner: Owner) -> Result<FileAttr, i32> {
        match self.entry_of(ino) {
            Some(entry) => Ok(
                file_attr(
                    entry.ino,
                    entry.mode,
                    if self.staged.contains_key(ino) {
                        self.staged[ino].len() as u64
                    } else {
                        entry.size
                    },
                    owner,
                ),
            ),
            None => Err(ENOENT),
        }
    }

    /// A new size is staged, and the attributes are reported with it.
    pub open spec fn setattr(self, ino: u64, size: Option<u64>, fetched: FetchedView, owner: Owner) -> (
        FsView,
        Result<FileAttr, i32>,
    ) {
        match (size, self.contents(ino, fetched)) {
            (None, _) => (self, self.staged_attr(ino, owner)),
            (Some(size), Ok(before)) => {
                let next = self.with_staged(ino, resized(before, size as nat));
                (next, next.staged_attr(ino, owner))
            },
            (Some(_), Err(code)) => (self, Err(code)),
        }
    }

    /// The directory is read from a line on; a file has no lines.
    pub open spec fn readdir(self, ino: u64, offset: i64) -> Result<Seq<DirEntryView>, i32> {
        if ino == ROOT {
            Ok(page(self.entries, offset))
        } else {
            Err(ENOTDIR)
        }
    }

    /// A request to create `name` in `parent` is granted.
    pub open spec fn creates(self, parent: u64, name: Option<Seq<char>>) -> bool {
        parent == ROOT && name is Some && !self.entries.contains_key(name->0)
    }

    /// A new file is empty and gets a new inode. Its permissions are the low nine bits of `mode`.
    pub open spec fn create(self, parent: u64, name: Option<Seq<char>>, mode: u32, owner: Owner) -> (
        FsView,
        StepView,
    ) {
        if parent != ROOT {
            (self, StepView::Done(Err(ENOENT)))
        } else {
            match name {
                None => (self, StepView::Done(Err(EINVAL))),
                Some(name) => if self.entries.contains_key(name) {
                    (self, StepView::Done(Err(EEXIST)))
                } else {
                    let entry = EntryView {
                        ino: self.next_inode,
                        mode: (mode & 0o777) as u16,
                        size: 0,
                        blobs: Seq::empty(),
                    };
                    FsView {
                        next_inode: (self.next_inode + 1) as u64,
                        entries: self.entries.insert(name, entry),
                        ..self
                    }.commit_metadata(TaskView::Create { attr: entry_attr(entry, owner) })
                },
            }
        }
    }

    /// A file is taken from its name and put under another.
    pub open spec fn rename(
        self,
        parent: u64,
        name: Option<Seq<char>>,
        newparent: u64,
        newname: Option<Seq<char>>,
        flags: u32,
    ) -> (FsView, StepView) {
        if parent != ROOT || newparent != ROOT || flags != 0 {
            (self, StepView::Done(Err(EINVAL)))
        } else {
            match (name, newname) {
                (Some(name), Some(newname)) => if self.entries.contains_key(name) {
                    self.with_entries(
                        self.entries.remove(name).insert(newname, self.entries[name]),
                    ).commit_metadata(TaskView::Finish)
                } else {
                    (self, StepView::Done(Err(ENOENT)))
                },
                _ => (self, StepView::Done(Err(EINVAL))),
            }
        }
    }

    /// A file is taken from its name, and what is staged for it is dropped.
    pub open spec fn unlink(self, parent: u64, name: Option<Seq<char>>) -> (FsView, StepView) {
        if parent != ROOT {
            (self, StepView::Done(Err(ENOENT)))
        } else {
            match name {
                None => (self, StepView::Done(Err(EINVAL))),
                Some(name) => if self.entries.contains_key(name) {
                    FsView {
                        entries: self.entries.remove(name),
                        staged: self.staged.remove(self.entries[name].ino),
                        ..self
                    }.commit_metadata(TaskView::Finish)
                } else {
                    (self, StepView::Done(Err(ENOENT)))
                },
            }
        }
    }
}

} // verus!
