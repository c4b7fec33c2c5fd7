//! The filesystem: its state, and what it does on each request.

use std::collections::HashMap;
use vstd::prelude::*;
use vstd::string::*;
use crate::attr::{blocks, FileAttr, FileType, Owner, DEFAULT_FILE_MODE, ROOT};
use crate::contents::{blobs_fit, read_window, set_len, write_at};
use crate::contents::{bytes_of, position};
use crate::directory::{holder, is_listing, listing};
use crate::directory::{BlobRef, Directory, Entry, Metadata};
use crate::errno::{eexist, einval, enoent, enotdir, errno};
use crate::model::{line, lines, page, whole};
use crate::model::{DirEntryView, FetchedView, FsView, StepView, TaskView};
use crate::model::{Opened, Reply, FOPEN_DIRECT_IO};
use crate::names::{blob_name, join_path};
use crate::names::blob_name_of;
use crate::store::{blob_plan, blobs_dir, metadata_path, metadata_plan, FileOp};
use crate::store::{blob_dir_of, blobs_dir_of, metadata_path_of, steps_of};

verus! {

broadcast use vstd::std_specs::hash::group_hash_axioms;

/// What reading the blobs of a file came to: their contents in order, or the system's error
/// number of the first read that failed.
pub type Fetched = Result<Vec<Vec<u8>>, Option<i32>>;

/// What a [`Fetched`] says.
pub open spec fn fetched_view(fetched: Fetched) -> FetchedView {
    match fetched {
        Ok(blobs) => Ok(bytes_of(blobs@)),
        Err(raw) => Err(raw),
    }
}

/// What a name in a request says; it is `None` where the name is not valid Unicode.
pub open spec fn name_view(name: Option<&str>) -> Option<Seq<char>> {
    match name {
        Some(name) => Some(name@),
        None => None,
    }
}

/// What is left of a request once the steps in hand are done.
#[derive(Debug)]
pub enum Task {
    /// Put the first entries into a new store.
    Bootstrap { blob: String },
    /// Let a file refer to the blob that was just kept for it.
    Install { ino: u64, blob: String, len: u64 },
    /// Answer with the file that was just created.
    Create { attr: FileAttr },
    /// Answer that all is well.
    Finish,
}

impl View for Task {
    type V = TaskView;

    open spec fn view(&self) -> TaskView {
        match self {
            Task::Bootstrap { blob } => TaskView::Bootstrap { blob: blob@ },
            Task::Install { ino, blob, len } => TaskView::Install { ino: *ino, blob: blob@, len: *len },
            Task::Create { attr } => TaskView::Create { attr: *attr },
            Task::Finish => TaskView::Finish,
        }
    }
}

/// How far a request has come.
#[derive(Debug)]
pub enum Step {
    /// The request is answered, or refused with an error number.
    Done(Result<Reply, i32>),
    /// These steps have to be taken on the store, one after the other up to the first that
    /// fails; then [`MagicFS::resume`] goes on.
    Perform { ops: Vec<FileOp>, then: Task },
}

impl View for Step {
    type V = StepView;

    open spec fn view(&self) -> StepView {
        match self {
            Step::Done(answer) => StepView::Done(*answer),
            Step::Perform { ops, then } => StepView::Perform { ops: steps_of(ops@), then: then@ },
        }
    }
}

/// A line of the directory.
#[derive(Debug)]
pub struct DirEntry {
    pub ino: u64,
    /// Where the next line is found.
    pub offset: i64,
    pub kind: FileType,
    pub name: String,
}

impl View for DirEntry {
    type V = DirEntryView;

    open spec fn view(&self) -> DirEntryView {
        DirEntryView { ino: self.ino, offset: self.offset, kind: self.kind, name: self.name@ }
    }
}

/// What a list of lines says.
pub open spec fn lines_view(list: Seq<DirEntry>) -> Seq<DirEntryView> {
    list.map_values(|e: DirEntry| e@)
}

/// `fuser::consts::FOPEN_DIRECT_IO`, which is the lowest bit of the flags.
#[verifier::external_body]
fn fopen_direct_io() -> (r: u32)
    ensures
        r == FOPEN_DIRECT_IO,
{
    fuser::consts::FOPEN_DIRECT_IO
}

/// The filesystem: the metadata of its files, and the bytes that were written but not yet
/// committed.
#[derive(Debug)]
pub struct MagicFS {
    store_dir: String,
    blobs_dir: String,
    metadata_path: String,
    meta: Metadata,
    staged: HashMap<u64, Vec<u8>>,
}

impl View for MagicFS {
    type V = FsView;

    closed spec fn view(&self) -> FsView {
        FsView {
            store_dir: self.store_dir@,
            next_inode: self.meta.next_inode,
            next_blob: self.meta.next_blob,
            entries: self.meta.entries@,
            staged: self.staged@.map_values(|data: Vec<u8>| data@),
        }
    }
}

impl MagicFS {
    /// The paths belong to one store, and the directory is in order.
    pub closed spec fn wf(self) -> bool {
        &&& self.blobs_dir@ == blobs_dir_of(self.store_dir@)
        &&& self.metadata_path@ == metadata_path_of(self.store_dir@)
        &&& self.meta.entries.wf()
    }

    /// Every file has an inode by which it is found, and the directory has a listing.
    pub proof fn lemma_wf(self)
        requires
            self.wf(),
        ensures
            is_listing(listing(self@.entries), self@.entries),
            forall|name: Seq<char>| #[trigger]
                self@.entries.contains_key(name) ==> holder(
                    self@.entries,
                    self@.entries[name].ino,
                ) is Some,
    {
        self.meta.entries.lemma_listed();
        assert forall|name: Seq<char>| #[trigger] self@.entries.contains_key(name) implies holder(
            self@.entries,
            self@.entries[name].ino,
        ) is Some by {
            self.meta.entries.lemma_holder_exists(name);
        }
    }

    fn with_metadata(store_dir: String, meta: Metadata) -> (r: MagicFS)
        requires
            meta.entries.wf(),
        ensures
            r.wf(),
            r@ == FsView::holding(store_dir@, meta@),
    {
        let fs = MagicFS {
            blobs_dir: blobs_dir(store_dir.as_str()),
            metadata_path: metadata_path(store_dir.as_str()),
            store_dir,
            meta,
            staged: HashMap::new(),
        };
        assert(fs@.staged =~= Map::empty());
        fs
    }

    /// Opens the store in `store_dir` with the metadata that it holds. Where it holds none, it is
    /// a new store, and gets its first files.
    pub fn open(store_dir: String, stored: Option<Metadata>) -> (r: (MagicFS, Step))
        requires
            stored is Some ==> (stored->0).entries.wf(),
        ensures
            r.0.wf(),
            (r.0@, r.1@) == FsView::open(
                store_dir@,
                match stored {
                    Some(meta) => Some(meta@),
                    None => None,
                },
            ),
    {
        match stored {
            Some(meta) => (MagicFS::with_metadata(store_dir, meta), Step::Done(Ok(Reply::Empty))),
            None => {
                let meta = Metadata { next_inode: 2, next_blob: 1, entries: Directory::new() };
                let mut fs = MagicFS::with_metadata(store_dir, meta);
                assert(fs@ =~= FsView::fresh(store_dir@));
                let step = fs.bootstrap();
                (fs, step)
            },
        }
    }

    /// What is kept of the files beside their bytes.
    pub fn meta(&self) -> (r: &Metadata)
        requires
            self.wf(),
        ensures
            r.entries.wf(),
            r@ == self@.metadata(),
    {
        &self.meta
    }

    /// Starts to fill a new store: the text of its first file goes into a blob.
    pub fn bootstrap(&mut self) -> (r: Step)
        requires
            old(self).wf(),
            old(self)@.next_blob < u64::MAX,
        ensures
            final(self).wf(),
            (final(self)@, r@) == old(self)@.bootstrap(),
    {
        let text = "Hello from a tiny FUSE filesystem.\n";
        let (blob, ops) = self.put_blob(text.as_bytes());
        Step::Perform { ops, then: Task::Bootstrap { blob } }
    }

    /// Puts the first entries into a new store, whose first blob is kept.
    fn finish_bootstrap(&mut self, blob: String) -> (r: Step)
        requires
            old(self).wf(),
            old(self)@.next_inode <= u64::MAX - 2,
        ensures
            final(self).wf(),
            (final(self)@, r@) == old(self)@.bootstrapped(blob@).commit_metadata(TaskView::Finish),
    {
        let size: u64 = "Hello from a tiny FUSE filesystem.\n".as_bytes().len() as u64;
        let ino: u64 = self.allocate_inode();
        let blobs: Vec<BlobRef> = vec![BlobRef { blob, offset: 0, len: size }];
        let hello = Entry { ino, mode: DEFAULT_FILE_MODE, size, blobs };
        assert(hello@.blobs =~= whole(blob@, size));
        self.meta.entries.insert(String::from_str("hello.txt"), hello);

        let ino: u64 = self.allocate_inode();
        let notes = Entry { ino, mode: DEFAULT_FILE_MODE, size: 0, blobs: Vec::new() };
        assert(notes@.blobs =~= Seq::empty());
        self.meta.entries.insert(String::from_str("notes.txt"), notes);
        assert(self@ =~= old(self)@.bootstrapped(blob@));
        self.commit_metadata(Task::Finish)
    }

    /// A new inode: none that was handed out before.
    pub fn allocate_inode(&mut self) -> (r: u64)
        requires
            old(self).wf(),
            old(self)@.next_inode < u64::MAX,
        ensures
            final(self).wf(),
            r == old(self)@.next_inode,
            final(self)@ == (FsView { next_inode: (r + 1) as u64, ..old(self)@ }),
    {
        let ino: u64 = self.meta.next_inode;
        self.meta.next_inode = ino + 1;
        ino
    }

    /// The name of a new blob: none that was handed out before.
    pub fn allocate_blob(&mut self) -> (r: String)
        requires
            old(self).wf(),
            old(self)@.next_blob < u64::MAX,
        ensures
            final(self).wf(),
            r@ == blob_name_of(old(self)@.next_blob as nat),
            final(self)@ == (FsView { next_blob: (old(self)@.next_blob + 1) as u64, ..old(self)@ }),
    {
        let id = blob_name(self.meta.next_blob);
        self.meta.next_blob = self.meta.next_blob + 1;
        id
    }

    /// The name of inode `ino`.
    pub fn name_for_inode(&self, ino: u64) -> (r: Option<&str>)
        requires
            self.wf(),
        ensures
            name_view(r) == (if ino == ROOT { Some("."@) } else { holder(self@.entries, ino) }),
    {
        if ino == ROOT {
            return Some(".");
        }
        match self.meta.entries.find(ino) {
            Some((name, _)) => Some(name),
            None => None,
        }
    }

    /// The entry with inode `ino`, with its name.
    pub fn entry_for_inode(&self, ino: u64) -> (r: Option<(&str, &Entry)>)
        requires
            self.wf(),
        ensures
            r is Some <==> holder(self@.entries, ino) is Some,
            r is Some ==> holder(self@.entries, ino) == Some((r->0).0@),
            r is Some ==> self@.entry_of(ino) == Some((r->0).1@),
            r is None ==> forall|name: Seq<char>| #[trigger]
                self@.entries.contains_key(name) ==> self@.entries[name].ino != ino,
    {
        self.meta.entries.find(ino)
    }

    /// The entry with inode `ino`, with its name, to be changed in place.
    pub fn entry_for_inode_mut(&mut self, ino: u64) -> (r: Option<(&str, &mut Entry)>)
        requires
            old(self).wf(),
        ensures
            final(self).wf(),
            r is Some <==> holder(old(self)@.entries, ino) is Some,
            r is Some ==> holder(old(self)@.entries, ino) == Some((r->0).0@),
            r is Some ==> (*(r->0).1)@ == old(self)@.entries[(r->0).0@],
            r is Some ==> final(self)@ == old(self)@.with_entries(
                old(self)@.entries.insert((r->0).0@, (*final((r->0).1))@),
            ),
            r is None ==> final(self)@ == old(self)@,
            r is None ==> forall|name: Seq<char>| #[trigger]
                old(self)@.entries.contains_key(name) ==> old(self)@.entries[name].ino != ino,
    {
        self.meta.entries.find_mut(ino)
    }

    /// The file of a blob.
    pub fn blob_path(&self, blob: &str) -> (r: String)
        requires
            self.wf(),
        ensures
            r@ == self@.blob_path(blob@),
    {
        let dir = self.blob_dir(blob);
        join_path(dir.as_str(), blob)
    }

    /// The directory of a blob's file.
    pub fn blob_dir(&self, blob: &str) -> (r: String)
        requires
            self.wf(),
        ensures
            r@ == blob_dir_of(self@.store_dir, blob@),
    {
        if blob.unicode_len() >= 2 {
            let shard = blob.substring_char(0, 2);
            assert(shard@ =~= blob@.take(2));
            join_path(self.blobs_dir.as_str(), shard)
        } else {
            self.blobs_dir.clone()
        }
    }

    /// Allocates a blob for `data`: its name, and the steps that keep it.
    pub fn put_blob(&mut self, data: &[u8]) -> (r: (String, Vec<FileOp>))
        requires
            old(self).wf(),
            old(self)@.next_blob < u64::MAX,
        ensures
            final(self).wf(),
            (final(self)@, r.0@, steps_of(r.1@)) == old(self)@.put_blob(data@),
    {
        let blob = self.allocate_blob();
        let path = self.blob_path(blob.as_str());
        let dir = self.blob_dir(blob.as_str());
        let ops = blob_plan(self.blobs_dir.as_str(), dir.as_str(), path.as_str(), data);
        (blob, ops)
    }

    /// The bytes that are staged for `ino`.
    pub fn staged(&self, ino: u64) -> (r: Option<&Vec<u8>>)
        requires
            self.wf(),
        ensures
            r is Some <==> self@.staged.contains_key(ino),
            r is Some ==> (r->0)@ == self@.staged[ino],
    {
        self.staged.get(&ino)
    }

    /// The files that have to be read, in order, before the bytes of `ino` are known.
    pub fn blobs_to_read(&self, ino: u64) -> (r: Vec<String>)
        requires
            self.wf(),
        ensures
            r@.map_values(|path: String| path@) == self@.blobs_to_read(ino),
    {
        let mut paths: Vec<String> = Vec::new();
        if !self.staged.contains_key(&ino) {
            if let Some((_, entry)) = self.entry_for_inode(ino) {
                let mut i: usize = 0;
                while i < entry.blobs.len()
                    invariant
                        self.wf(),
                        i <= entry.blobs@.len(),
                        paths@.len() == i,
                        forall|j: int|
                            0 <= j < i ==> #[trigger] paths@[j]@ == self@.blob_path(
                                entry@.blobs[j].blob,
                            ),
                    decreases entry.blobs@.len() - i,
                {
                    paths.push(self.blob_path(entry.blobs[i].blob.as_str()));
                    i += 1;
                }
            }
        }
        assert(paths@.map_values(|path: String| path@) =~= self@.blobs_to_read(ino));
        paths
    }

    /// Whether what was read of the blobs of `ino` is enough to put its bytes together.
    pub fn readable(&self, ino: u64, fetched: &Fetched) -> (r: bool)
        requires
            self.wf(),
        ensures
            r == self@.readable(ino, fetched_view(*fetched)),
    {
        if self.staged.contains_key(&ino) {
            return true;
        }
        match self.entry_for_inode(ino) {
            Some((_, entry)) => match fetched {
                Ok(blobs) => blobs_fit(entry, blobs),
                Err(_) => true,
            },
            None => true,
        }
    }

    /// The bytes of `ino`: those that are staged, else those that were committed.
    pub fn read_inode(&self, ino: u64, fetched: &Fetched) -> (r: Result<Vec<u8>, i32>)
        requires
            self.wf(),
            self@.readable(ino, fetched_view(*fetched)),
        ensures
            match (r, self@.contents(ino, fetched_view(*fetched))) {
                (Ok(data), Ok(expected)) => data@ == expected,
                (Err(code), Err(expected)) => code == expected,
                _ => false,
            },
    {
        if let Some(data) = self.staged.get(&ino) {
            return Ok(data.clone());
        }
        match self.entry_for_inode(ino) {
            None => Err(enoent()),
            Some((_, entry)) => match fetched {
                Ok(blobs) => Ok(self.read_committed(entry, blobs)),
                Err(raw) => Err(errno(*raw)),
            },
        }
    }

    /// The bytes of `ino`, staged, to be changed in place.
    pub fn stage_inode(&mut self, ino: u64, fetched: &Fetched) -> (r: Result<&mut Vec<u8>, i32>)
        requires
            old(self).wf(),
            old(self)@.readable(ino, fetched_view(*fetched)),
        ensures
            final(self).wf(),
            r is Ok <==> old(self)@.contents(ino, fetched_view(*fetched)) is Ok,
            r is Ok ==> old(self)@.contents(ino, fetched_view(*fetched)) == Ok::<Seq<u8>, i32>(
                (r->Ok_0)@,
            ),
            r is Ok ==> final(self)@ == old(self)@.with_staged(ino, (*final(r->Ok_0))@),
            r is Err ==> old(self)@.contents(ino, fetched_view(*fetched)) == Err::<Seq<u8>, i32>(
                r->Err_0,
            ),
            r is Err ==> final(self)@ == old(self)@,
    {
        if !self.staged.contains_key(&ino) {
            match self.read_inode(ino, fetched) {
                Ok(data) => {
                    self.staged.insert(ino, data);
                },
                Err(code) => {
                    return Err(code);
                },
            }
        }
        let data = self.staged.entry(ino).or_insert(Vec::new());
        Ok(data)
    }

    /// Asks for the metadata to be replaced, after which `then` is left to do.
    pub fn commit_metadata(&self, then: Task) -> (r: Step)
        requires
            self.wf(),
        ensures
            (self@, r@) == self@.commit_metadata(then@),
    {
        Step::Perform {
            ops: metadata_plan(self.store_dir.as_str(), self.metadata_path.as_str()),
            then,
        }
    }

    /// Lets the file with inode `ino` refer to `blobs`, which hold `len` bytes.
    fn install(&mut self, ino: u64, blobs: Vec<BlobRef>, len: u64) -> (r: Step)
        requires
            old(self).wf(),
        ensures
            final(self).wf(),
            (final(self)@, r@) == old(self)@.install(
                ino,
                blobs@.map_values(|b: BlobRef| b@),
                len,
            ),
    {
        match self.entry_for_inode_mut(ino) {
            Some((_, entry)) => {
                entry.size = len;
                entry.blobs = blobs;
            },
            None => {
                return Step::Done(Err(enoent()));
            },
        }
        self.commit_metadata(Task::Finish)
    }

    /// Starts to commit what is staged for `ino`.
    pub fn commit_inode(&mut self, ino: u64) -> (r: Step)
        requires
            old(self).wf(),
            old(self)@.staged.contains_key(ino) && old(self)@.staged[ino].len() > 0 ==> old(
                self,
            )@.next_blob < u64::MAX,
        ensures
            final(self).wf(),
            (final(self)@, r@) == old(self)@.commit_inode(ino),
    {
        let data = match self.staged.remove(&ino) {
            Some(data) => data,
            None => {
                return Step::Done(Ok(Reply::Empty));
            },
        };
        assert(self@.staged =~= old(self)@.staged.remove(ino));
        if data.is_empty() {
            let none: Vec<BlobRef> = Vec::new();
            assert(none@.map_values(|b: BlobRef| b@) =~= Seq::empty());
            self.install(ino, none, 0)
        } else {
            let (blob, ops) = self.put_blob(data.as_slice());
            Step::Perform { ops, then: Task::Install { ino, blob, len: data.len() as u64 } }
        }
    }

    /// Goes on with a request whose steps have ended: well, or with the system's error number.
    pub fn resume(&mut self, task: Task, outcome: Result<(), Option<i32>>) -> (r: Step)
        requires
            old(self).wf(),
            task is Bootstrap && outcome is Ok ==> old(self)@.next_inode <= u64::MAX - 2,
        ensures
            final(self).wf(),
            (final(self)@, r@) == old(self)@.resume(task@, outcome),
    {
        if let Err(raw) = outcome {
            return Step::Done(Err(errno(raw)));
        }
        match task {
            Task::Bootstrap { blob } => self.finish_bootstrap(blob),
            Task::Install { ino, blob, len } => {
                let blobs: Vec<BlobRef> = vec![BlobRef { blob, offset: 0, len }];
                assert(blobs@.map_values(|b: BlobRef| b@) =~= whole(blob@, len));
                self.install(ino, blobs, len)
            },
            Task::Create { attr } => Step::Done(
                Ok(Reply::Created { attr, opened: Opened { fh: 0, flags: fopen_direct_io() } }),
            ),
            Task::Finish => Step::Done(Ok(Reply::Empty)),
        }
    }

    /// Finds the file `name` in the directory `parent`.
    pub fn lookup(&self, parent: u64, name: Option<&str>, owner: Owner) -> (r: Result<FileAttr, i32>)
        requires
            self.wf(),
        ensures
            r == self@.lookup(parent, name_view(name), owner),
    {
        if parent != ROOT {
            return Err(enoent());
        }
        match name {
            None => Err(enoent()),
            Some(name) => match self.meta.entries.get(name) {
                Some(entry) => Ok(self.attr_for_entry(entry, owner)),
                None => Err(enoent()),
            },
        }
    }

    /// The attributes of `ino`, as it was last committed.
    pub fn getattr(&self, ino: u64, owner: Owner) -> (r: Result<FileAttr, i32>)
        requires
            self.wf(),
        ensures
            r == self@.getattr(ino, owner),
    {
        if ino == ROOT {
            return Ok(MagicFS::root_attr(owner));
        }
        match self.entry_for_inode(ino) {
            Some((_, entry)) => Ok(self.attr_for_entry(entry, owner)),
            None => Err(enoent()),
        }
    }

    /// Opens the file `ino`.
    pub fn open_file(&self, ino: u64) -> (r: Result<Opened, i32>)
        requires
            self.wf(),
        ensures
            r == self@.open_file(ino),
    {
        if ino == ROOT || self.entry_for_inode(ino).is_none() {
            return Err(enoent());
        }
        Ok(Opened { fh: 0, flags: fopen_direct_io() })
    }

    /// Reads at most `size` bytes of `ino` from `offset` on.
    pub fn read(&self, ino: u64, offset: i64, size: u32, fetched: &Fetched) -> (r: Result<Vec<u8>, i32>)
        requires
            self.wf(),
            self@.readable(ino, fetched_view(*fetched)),
        ensures
            match (r, self@.read(ino, offset, size, fetched_view(*fetched))) {
                (Ok(data), Ok(expected)) => data@ == expected,
                (Err(code), Err(expected)) => code == expected,
                _ => false,
            },
    {
        match self.read_inode(ino, fetched) {
            Ok(data) => Ok(read_window(&data, offset, size)),
            Err(code) => Err(code),
        }
    }

    /// Writes `data` to `ino` at `offset`. What was written is staged until it is committed.
    pub fn write(&mut self, ino: u64, offset: i64, data: &[u8], fetched: &Fetched) -> (r: Result<u32, i32>)
        requires
            old(self).wf(),
            old(self)@.readable(ino, fetched_view(*fetched)),
            old(self)@.contents(ino, fetched_view(*fetched)) is Ok ==> position(offset) + data@.len()
                <= isize::MAX,
        ensures
            final(self).wf(),
            (final(self)@, r) == old(self)@.write(ino, offset, data@, fetched_view(*fetched)),
    {
        match self.stage_inode(ino, fetched) {
            Ok(staged) => {
                let at: usize = if offset < 0 { 0 } else { offset as usize };
                write_at(staged, at, data);
                Ok(data.len() as u32)
            },
            Err(code) => Err(code),
        }
    }

    /// Commits what is staged for `ino`, because a file handle is being closed.
    pub fn flush(&mut self, ino: u64) -> (r: Step)
        requires
            old(self).wf(),
            old(self)@.staged.contains_key(ino) && old(self)@.staged[ino].len() > 0 ==> old(
                self,
            )@.next_blob < u64::MAX,
        ensures
            final(self).wf(),
            (final(self)@, r@) == old(self)@.flush(ino),
    {
        self.commit_inode(ino)
    }

    /// Commits what is staged for `ino`, because that was asked for. Bytes and metadata are committed
    /// together, whether or not only the bytes were asked for.
    pub fn fsync(&mut self, ino: u64, _datasync: bool) -> (r: Step)
        requires
            old(self).wf(),
            old(self)@.staged.contains_key(ino) && old(self)@.staged[ino].len() > 0 ==> old(
                self,
            )@.next_blob < u64::MAX,
        ensures
            final(self).wf(),
            (final(self)@, r@) == old(self)@.fsync(ino, _datasync),
    {
        self.commit_inode(ino)
    }

    /// Cuts or extends `ino` to `size` bytes, where a size is given, and reports its attributes.
    /// The new size is staged until it is committed.
    pub fn setattr(&mut self, ino: u64, size: Option<u64>, fetched: &Fetched, owner: Owner) -> (r: Result<
        FileAttr,
        i32,
    >)
        requires
            old(self).wf(),
            size is Some ==> old(self)@.readable(ino, fetched_view(*fetched)),
            size is Some && old(self)@.contents(ino, fetched_view(*fetched)) is Ok ==> size->0
                <= isize::MAX,
        ensures
            final(self).wf(),
            (final(self)@, r) == old(self)@.setattr(ino, size, fetched_view(*fetched), owner),
    {
        if let Some(size) = size {
            match self.stage_inode(ino, fetched) {
                Ok(staged) => set_len(staged, size as usize),
                Err(code) => {
                    return Err(code);
                },
            }
        }
        match self.entry_for_inode(ino) {
            Some((_, entry)) => {
                let mut attr = self.attr_for_entry(entry, owner);
                if let Some(staged) = self.staged.get(&ino) {
                    attr.size = staged.len() as u64;
                    attr.blocks = blocks(attr.size);
                }
                Ok(attr)
            },
            None => Err(enoent()),
        }
    }

    /// The lines of the directory from number `offset` on.
    pub fn readdir(&self, ino: u64, offset: i64) -> (r: Result<Vec<DirEntry>, i32>)
        requires
            self.wf(),
        ensures
            match (r, self@.readdir(ino, offset)) {
                (Ok(list), Ok(expected)) => lines_view(list@) == expected,
                (Err(code), Err(expected)) => code == expected,
                _ => false,
            },
            is_listing(listing(self@.entries), self@.entries),
    {
        proof { self.lemma_wf(); }
        if ino != ROOT {
            return Err(enotdir());
        }
        let mut list: Vec<DirEntry> = Vec::new();
        if offset < 0 {
            assert(lines_view(list@) =~= page(self@.entries, offset));
            return Ok(list);
        }
        let ghost rows = listing(self@.entries);
        let ghost all = lines(self@.entries);
        if offset == 0 {
            list.push(
                DirEntry {
                    ino: ROOT,
                    offset: 1,
                    kind: FileType::Directory,
                    name: String::from_str("."),
                },
            );
        }
        if offset <= 1 {
            list.push(
                DirEntry {
                    ino: ROOT,
                    offset: 2,
                    kind: FileType::Directory,
                    name: String::from_str(".."),
                },
            );
        }
        let mut i: usize = 0;
        while i < self.meta.entries.len()
            invariant
                self.wf(),
                rows == listing(self@.entries),
                all == lines(self@.entries),
                i <= rows.len(),
                0 <= offset,
                lines_view(list@) == (if offset <= i + 2 {
                    all.subrange(offset as int, i + 2)
                } else {
                    Seq::empty()
                }),
            decreases rows.len() - i,
        {
            if offset as u128 <= i as u128 + 2 {
                let (name, entry) = self.meta.entries.row(i);
                let ghost before = list@;
                list.push(
                    DirEntry {
                        ino: entry.ino,
                        offset: (i as u128 + 3) as i64,
                        kind: FileType::RegularFile,
                        name: String::from_str(name),
                    },
                );
                assert(list@.last()@ == line(rows, i + 2));
                assert(lines_view(list@) =~= lines_view(before).push(list@.last()@));
                assert(all.subrange(offset as int, i + 3) =~= all.subrange(
                    offset as int,
                    i + 2,
                ).push(all[i + 2]));
            }
            i += 1;
        }
        assert(lines_view(list@) =~= page(self@.entries, offset));
        Ok(list)
    }

    /// Starts to create the file `name` in the directory `parent`.
    pub fn create(&mut self, parent: u64, name: Option<&str>, mode: u32, owner: Owner) -> (r: Step)
        requires
            old(self).wf(),
            old(self)@.creates(parent, name_view(name)) ==> old(self)@.next_inode < u64::MAX,
        ensures
            final(self).wf(),
            (final(self)@, r@) == old(self)@.create(parent, name_view(name), mode, owner),
    {
        if parent != ROOT {
            return Step::Done(Err(enoent()));
        }
        let name = match name {
            Some(name) => name,
            None => {
                return Step::Done(Err(einval()));
            },
        };
        if self.meta.entries.contains_key(name) {
            return Step::Done(Err(eexist()));
        }
        let ino: u64 = self.allocate_inode();
        let entry = Entry { ino, mode: (mode & 0o777) as u16, size: 0, blobs: Vec::new() };
        assert(entry@.blobs =~= Seq::empty());
        let attr = self.attr_for_entry(&entry, owner);
        self.meta.entries.insert(String::from_str(name), entry);
        self.commit_metadata(Task::Create { attr })
    }

    /// Starts to give the file `name` the name `newname`, in place of what had that name.
    pub fn rename(
        &mut self,
        parent: u64,
        name: Option<&str>,
        newparent: u64,
        newname: Option<&str>,
        flags: u32,
    ) -> (r: Step)
        requires
            old(self).wf(),
        ensures
            final(self).wf(),
            (final(self)@, r@) == old(self)@.rename(
                parent,
                name_view(name),
                newparent,
                name_view(newname),
                flags,
            ),
    {
        if parent != ROOT || newparent != ROOT || flags != 0 {
            return Step::Done(Err(einval()));
        }
        match (name, newname) {
            (Some(name), Some(newname)) => match self.meta.entries.remove(name) {
                Some(entry) => {
                    self.meta.entries.insert(String::from_str(newname), entry);
                    self.commit_metadata(Task::Finish)
                },
                None => {
                    assert(self@.entries =~= old(self)@.entries);
                    Step::Done(Err(enoent()))
                },
            },
            _ => Step::Done(Err(einval())),
        }
    }

    /// Starts to remove the file `name` from the directory `parent`.
    pub fn unlink(&mut self, parent: u64, name: Option<&str>) -> (r: Step)
        requires
            old(self).wf(),
        ensures
            final(self).wf(),
            (final(self)@, r@) == old(self)@.unlink(parent, name_view(name)),
    {
        if parent != ROOT {
            return Step::Done(Err(enoent()));
        }
        let name = match name {
            Some(name) => name,
            None => {
                return Step::Done(Err(einval()));
            },
        };
        match self.meta.entries.remove(name) {
            Some(entry) => {
                let _ = self.staged.remove(&entry.ino);
                assert(self@.staged =~= old(self)@.staged.remove(entry.ino));
                self.commit_metadata(Task::Finish)
            },
            None => {
                assert(self@.entries =~= old(self)@.entries);
                Step::Done(Err(enoent()))
            },
        }
    }
}

} // verus!
