//! What holds of the filesystem at all times, and that every request keeps it.

use vstd::prelude::*;
use crate::attr::{Owner, ROOT};
use crate::directory::{holder, is_holder, holder_is_unique, BlobRefView, EntryView};
use crate::model::{hello_text, whole, FetchedView, FsView, StepView, TaskView};
use crate::names::{blob_name_of, blob_names_are_distinct};

verus! {

/// A file is empty, or all its bytes are in one blob.
pub open spec fn keeps_one_blob(entry: EntryView) -> bool {
    if entry.size == 0 {
        entry.blobs.len() == 0
    } else {
        entry.blobs == whole(entry.blobs[0].blob, entry.size)
    }
}

/// `blob` is the name of a blob that was handed out before the one with number `next`.
pub open spec fn is_allocated(blob: Seq<char>, next: u64) -> bool {
    exists|n: nat| 1 <= n < next && blob == #[trigger] blob_name_of(n)
}

/// `blob` is one that the file refers to.
pub open spec fn refers_to(entry: EntryView, blob: Seq<char>) -> bool {
    entry.blobs.len() > 0 && entry.blobs[0].blob == blob
}

impl FsView {
    /// What holds of one file.
    pub open spec fn entry_is_consistent(self, entry: EntryView) -> bool {
        &&& ROOT < entry.ino < self.next_inode
        &&& entry.mode <= 0o777
        &&& keeps_one_blob(entry)
        &&& entry.size > 0 ==> is_allocated(entry.blobs[0].blob, self.next_blob)
    }

    /// Every file has an inode of its own, which was handed out and is not that of the directory;
    /// every file that is not empty has a blob of its own, which was handed out and holds all
    /// its bytes; and what is staged belongs to an inode that was handed out.
    pub open spec fn consistent(self) -> bool {
        &&& ROOT < self.next_inode
        &&& 1 <= self.next_blob
        &&& forall|name: Seq<char>| #[trigger]
            self.entries.contains_key(name) ==> self.entry_is_consistent(self.entries[name])
        &&& forall|a: Seq<char>, b: Seq<char>| #[trigger]
            self.entries.contains_key(a) && #[trigger] self.entries.contains_key(b) && a != b ==> {
                &&& self.entries[a].ino != self.entries[b].ino
                &&& self.entries[a].size > 0 ==> !refers_to(
                    self.entries[b],
                    self.entries[a].blobs[0].blob,
                )
            }
        &&& forall|ino: u64| #[trigger]
            self.staged.contains_key(ino) ==> ROOT < ino < self.next_inode
    }

    /// `blob` was handed out, and no file refers to it.
    pub open spec fn is_unused(self, blob: Seq<char>) -> bool {
        &&& is_allocated(blob, self.next_blob)
        &&& forall|name: Seq<char>| #[trigger]
            self.entries.contains_key(name) ==> !refers_to(self.entries[name], blob)
    }

    /// What is left of a request fits the filesystem that it goes on with.
    pub open spec fn task_is_consistent(self, task: TaskView) -> bool {
        match task {
            TaskView::Bootstrap { blob } => self.is_unused(blob),
            TaskView::Install { ino, blob, len } => len > 0 && self.is_unused(blob),
            _ => true,
        }
    }

    /// How far a request has come fits the filesystem that it goes on with.
    pub open spec fn step_is_consistent(self, step: StepView) -> bool {
        match step {
            StepView::Done(_) => true,
            StepView::Perform { ops, then } => self.task_is_consistent(then),
        }
    }
}

/// In a consistent filesystem the name of an inode is the one name under which it stands.
pub proof fn holder_of_consistent(fs: FsView, name: Seq<char>)
    requires
        fs.consistent(),
        fs.entries.contains_key(name),
    ensures
        holder(fs.entries, fs.entries[name].ino) == Some(name),
        fs.entry_of(fs.entries[name].ino) == Some(fs.entries[name]),
{
    let ino = fs.entries[name].ino;
    assert(is_holder(fs.entries, ino, name));
    holder_is_unique(fs.entries, ino, name);
}

/// An inode under which no file stands has no name.
pub proof fn holder_of_nothing(fs: FsView, ino: u64)
    requires
        forall|name: Seq<char>| #[trigger]
            fs.entries.contains_key(name) ==> fs.entries[name].ino != ino,
    ensures
        holder(fs.entries, ino) is None,
        fs.entry_of(ino) is None,
{
    if exists|name: Seq<char>| is_holder(fs.entries, ino, name) {
        let name = choose|name: Seq<char>| is_holder(fs.entries, ino, name);
        assert(fs.entries.contains_key(name));
    }
}

/// The holder of an inode is a name under which that inode stands.
pub proof fn holder_holds(fs: FsView, ino: u64)
    requires
        holder(fs.entries, ino) is Some,
    ensures
        is_holder(fs.entries, ino, holder(fs.entries, ino)->0),
        fs.entries.contains_key(holder(fs.entries, ino)->0),
        fs.entries[holder(fs.entries, ino)->0].ino == ino,
{
}

proof fn lemma_allocated_grows(blob: Seq<char>, next: u64, later: u64)
    requires
        is_allocated(blob, next),
        next <= later,
    ensures
        is_allocated(blob, later),
{
    let n = choose|n: nat| 1 <= n < next && blob == #[trigger] blob_name_of(n);
    assert(1 <= n < later && blob == blob_name_of(n));
}

proof fn lemma_next_is_not_allocated(next: u64)
    ensures
        !is_allocated(blob_name_of(next as nat), next),
{
    if is_allocated(blob_name_of(next as nat), next) {
        let n = choose|n: nat| 1 <= n < next && blob_name_of(next as nat) == #[trigger] blob_name_of(n);
        blob_names_are_distinct(n, next as nat);
    }
}

/// A new blob is one that no file refers to.
pub proof fn new_blob_is_unused(fs: FsView, data: Seq<u8>)
    requires
        fs.consistent(),
        fs.next_blob < u64::MAX,
    ensures
        fs.put_blob(data).0.consistent(),
        fs.put_blob(data).0.is_unused(fs.put_blob(data).1),
{
    let next = fs.put_blob(data).0;
    let blob = fs.put_blob(data).1;
    assert(1 <= fs.next_blob < next.next_blob && blob == blob_name_of(fs.next_blob as nat));
    lemma_next_is_not_allocated(fs.next_blob);
    assert forall|name: Seq<char>| #[trigger] next.entries.contains_key(name) implies !refers_to(
        next.entries[name],
        blob,
    ) && next.entry_is_consistent(next.entries[name]) by {
        let entry = fs.entries[name];
        assert(fs.entries.contains_key(name));
        assert(fs.entry_is_consistent(entry));
        if entry.size > 0 {
            lemma_allocated_grows(entry.blobs[0].blob, fs.next_blob, next.next_blob);
        }
    }
}

/// A new inode is none that a file has, nor one for which anything is staged.
pub proof fn new_inode_is_unused(fs: FsView)
    requires
        fs.consistent(),
    ensures
        fs.next_inode != ROOT,
        fs.entry_of(fs.next_inode) is None,
        !fs.staged.contains_key(fs.next_inode),
        forall|name: Seq<char>| #[trigger]
            fs.entries.contains_key(name) ==> fs.entries[name].ino != fs.next_inode,
{
    assert forall|name: Seq<char>| #[trigger] fs.entries.contains_key(name) implies fs.entries[name].ino
        != fs.next_inode by {
        assert(fs.entry_is_consistent(fs.entries[name]));
    }
    holder_of_nothing(fs, fs.next_inode);
}

/// Letting a file refer to an unused blob, or to none, keeps the filesystem consistent.
pub proof fn install_keeps_consistency(fs: FsView, ino: u64, blobs: Seq<BlobRefView>, len: u64)
    requires
        fs.consistent(),
        if len == 0 {
            blobs.len() == 0
        } else {
            blobs == whole(blobs[0].blob, len) && fs.is_unused(blobs[0].blob)
        },
    ensures
        fs.install(ino, blobs, len).0.consistent(),
        fs.install(ino, blobs, len).0.step_is_consistent(fs.install(ino, blobs, len).1),
{
    let next = fs.install(ino, blobs, len).0;
    if let Some(held) = holder(fs.entries, ino) {
        holder_holds(fs, ino);
        assert(fs.entry_is_consistent(fs.entries[held]));
        assert forall|name: Seq<char>| #[trigger] next.entries.contains_key(name) implies next.entry_is_consistent(
            next.entries[name],
        ) by {
            assert(fs.entries.contains_key(name));
            assert(fs.entry_is_consistent(fs.entries[name]));
        }
        assert forall|a: Seq<char>, b: Seq<char>| #[trigger]
            next.entries.contains_key(a) && #[trigger] next.entries.contains_key(b) && a != b implies {
            &&& next.entries[a].ino != next.entries[b].ino
            &&& next.entries[a].size > 0 ==> !refers_to(
                next.entries[b],
                next.entries[a].blobs[0].blob,
            )
        } by {
            assert(fs.entries.contains_key(a));
            assert(fs.entries.contains_key(b));
            assert(fs.entry_is_consistent(fs.entries[a]));
            assert(fs.entry_is_consistent(fs.entries[b]));
        }
    }
}

/// A store that holds nothing yet is consistent.
pub proof fn fresh_is_consistent(store_dir: Seq<char>)
    ensures
        FsView::fresh(store_dir).consistent(),
{
}

/// Starting to fill a new store keeps the filesystem consistent.
pub proof fn bootstrap_keeps_consistency(fs: FsView)
    requires
        fs.consistent(),
        fs.next_blob < u64::MAX,
    ensures
        fs.bootstrap().0.consistent(),
        fs.bootstrap().0.step_is_consistent(fs.bootstrap().1),
{
    new_blob_is_unused(fs, hello_text());
}

/// Taking away what is staged for an inode keeps the filesystem consistent.
pub proof fn taking_staged_keeps_consistency(fs: FsView, ino: u64)
    requires
        fs.consistent(),
    ensures
        fs.without_staged(ino).consistent(),
{
    let taken = fs.without_staged(ino);
    assert forall|name: Seq<char>| #[trigger] taken.entries.contains_key(name) implies taken.entry_is_consistent(
        taken.entries[name],
    ) by {
        assert(fs.entry_is_consistent(fs.entries[name]));
    }
}

/// Committing what is staged keeps the filesystem consistent.
pub proof fn commit_keeps_consistency(fs: FsView, ino: u64)
    requires
        fs.consistent(),
        fs.staged.contains_key(ino) ==> fs.staged[ino].len() <= u64::MAX,
        fs.staged.contains_key(ino) && fs.staged[ino].len() > 0 ==> fs.next_blob < u64::MAX,
    ensures
        fs.commit_inode(ino).0.consistent(),
        fs.commit_inode(ino).0.step_is_consistent(fs.commit_inode(ino).1),
{
    if fs.staged.contains_key(ino) {
        let data = fs.staged[ino];
        let taken = fs.without_staged(ino);
        taking_staged_keeps_consistency(fs, ino);
        if data.len() == 0 {
            install_keeps_consistency(taken, ino, Seq::empty(), 0);
        } else {
            new_blob_is_unused(taken, data);
        }
    }
}

/// Going on with a request keeps the filesystem consistent, however its steps have ended.
pub proof fn resume_keeps_consistency(fs: FsView, task: TaskView, outcome: Result<(), Option<i32>>)
    requires
        fs.consistent(),
        fs.task_is_consistent(task),
        task is Bootstrap ==> fs.next_inode <= u64::MAX - 2,
    ensures
        fs.resume(task, outcome).0.consistent(),
        fs.resume(task, outcome).0.step_is_consistent(fs.resume(task, outcome).1),
{
    if outcome is Ok {
        match task {
            TaskView::Bootstrap { blob } => {
                lemma_bootstrapped_is_consistent(fs, blob);
            },
            TaskView::Install { ino, blob, len } => {
                install_keeps_consistency(fs, ino, whole(blob, len), len);
            },
            _ => {},
        }
    }
}

/// The text in the first file of a new store has 35 bytes.
pub proof fn hello_text_has_35_bytes()
    ensures
        hello_text().len() == 35,
{
    let text = "Hello from a tiny FUSE filesystem.\n"@;
    reveal_strlit("Hello from a tiny FUSE filesystem.\n");
    vstd::utf8::is_ascii_chars_encode_utf8(text);
    assert(vstd::utf8::is_ascii_chars(text));
}

proof fn lemma_bootstrapped_is_consistent(fs: FsView, blob: Seq<char>)
    requires
        fs.consistent(),
        fs.is_unused(blob),
        fs.next_inode <= u64::MAX - 2,
    ensures
        fs.bootstrapped(blob).consistent(),
{
    hello_text_has_35_bytes();
    let next = fs.bootstrapped(blob);
    reveal_strlit("hello.txt");
    reveal_strlit("notes.txt");
    assert("hello.txt"@[0] != "notes.txt"@[0]);
    assert forall|name: Seq<char>| #[trigger] next.entries.contains_key(name) implies next.entry_is_consistent(
        next.entries[name],
    ) by {
        if name != "hello.txt"@ && name != "notes.txt"@ {
            assert(fs.entries.contains_key(name));
            assert(fs.entry_is_consistent(fs.entries[name]));
        }
    }
    assert forall|a: Seq<char>, b: Seq<char>| #[trigger]
        next.entries.contains_key(a) && #[trigger] next.entries.contains_key(b) && a != b implies {
        &&& next.entries[a].ino != next.entries[b].ino
        &&& next.entries[a].size > 0 ==> !refers_to(next.entries[b], next.entries[a].blobs[0].blob)
    } by {
        if a != "hello.txt"@ && a != "notes.txt"@ {
            assert(fs.entries.contains_key(a));
            assert(fs.entry_is_consistent(fs.entries[a]));
        }
        if b != "hello.txt"@ && b != "notes.txt"@ {
            assert(fs.entries.contains_key(b));
            assert(fs.entry_is_consistent(fs.entries[b]));
        }
    }
}

/// Writing keeps the filesystem consistent.
pub proof fn write_keeps_consistency(
    fs: FsView,
    ino: u64,
    offset: i64,
    data: Seq<u8>,
    fetched: FetchedView,
)
    requires
        fs.consistent(),
    ensures
        fs.write(ino, offset, data, fetched).0.consistent(),
{
    lemma_staging_keeps_consistency(fs, ino, fetched);
}

/// Changing the size of a file keeps the filesystem consistent.
pub proof fn setattr_keeps_consistency(
    fs: FsView,
    ino: u64,
    size: Option<u64>,
    fetched: FetchedView,
    owner: Owner,
)
    requires
        fs.consistent(),
    ensures
        fs.setattr(ino, size, fetched, owner).0.consistent(),
{
    lemma_staging_keeps_consistency(fs, ino, fetched);
}

proof fn lemma_staging_keeps_consistency(fs: FsView, ino: u64, fetched: FetchedView)
    requires
        fs.consistent(),
    ensures
        fs.contents(ino, fetched) is Ok ==> forall|data: Seq<u8>| #[trigger]
            fs.with_staged(ino, data).consistent(),
{
    if fs.contents(ino, fetched) is Ok {
        if !fs.staged.contains_key(ino) {
            holder_holds(fs, ino);
            assert(fs.entry_is_consistent(fs.entries[holder(fs.entries, ino)->0]));
        }
        assert forall|data: Seq<u8>| #[trigger] fs.with_staged(ino, data).consistent() by {
            let next = fs.with_staged(ino, data);
            assert forall|name: Seq<char>| #[trigger] next.entries.contains_key(name) implies next.entry_is_consistent(
                next.entries[name],
            ) by {
                assert(fs.entry_is_consistent(fs.entries[name]));
            }
        }
    }
}

/// Creating a file keeps the filesystem consistent.
pub proof fn create_keeps_consistency(
    fs: FsView,
    parent: u64,
    name: Option<Seq<char>>,
    mode: u32,
    owner: Owner,
)
    requires
        fs.consistent(),
        fs.creates(parent, name) ==> fs.next_inode < u64::MAX,
    ensures
        fs.create(parent, name, mode, owner).0.consistent(),
        fs.create(parent, name, mode, owner).0.step_is_consistent(
            fs.create(parent, name, mode, owner).1,
        ),
{
    assert((mode & 0o777) as u16 <= 0o777) by (bit_vector);
    let next = fs.create(parent, name, mode, owner).0;
    if fs.creates(parent, name) {
        assert forall|n: Seq<char>| #[trigger] next.entries.contains_key(n) implies next.entry_is_consistent(
            next.entries[n],
        ) by {
            if n != name->0 {
                assert(fs.entry_is_consistent(fs.entries[n]));
            }
        }
        assert forall|a: Seq<char>, b: Seq<char>| #[trigger]
            next.entries.contains_key(a) && #[trigger] next.entries.contains_key(b) && a != b implies {
            &&& next.entries[a].ino != next.entries[b].ino
            &&& next.entries[a].size > 0 ==> !refers_to(
                next.entries[b],
                next.entries[a].blobs[0].blob,
            )
        } by {
            if a != name->0 {
                assert(fs.entry_is_consistent(fs.entries[a]));
            }
            if b != name->0 {
                assert(fs.entry_is_consistent(fs.entries[b]));
            }
        }
    }
}

/// Renaming a file keeps the filesystem consistent.
pub proof fn rename_keeps_consistency(
    fs: FsView,
    parent: u64,
    name: Option<Seq<char>>,
    newparent: u64,
    newname: Option<Seq<char>>,
    flags: u32,
)
    requires
        fs.consistent(),
    ensures
        fs.rename(parent, name, newparent, newname, flags).0.consistent(),
        fs.rename(parent, name, newparent, newname, flags).0.step_is_consistent(
            fs.rename(parent, name, newparent, newname, flags).1,
        ),
{
    let next = fs.rename(parent, name, newparent, newname, flags).0;
    assert forall|n: Seq<char>| #[trigger] next.entries.contains_key(n) implies next.entry_is_consistent(
        next.entries[n],
    ) by {
        if fs.entries.contains_key(n) {
            assert(fs.entry_is_consistent(fs.entries[n]));
        }
        if name is Some && fs.entries.contains_key(name->0) {
            assert(fs.entry_is_consistent(fs.entries[name->0]));
        }
    }
}

/// Removing a file keeps the filesystem consistent.
pub proof fn unlink_keeps_consistency(fs: FsView, parent: u64, name: Option<Seq<char>>)
    requires
        fs.consistent(),
    ensures
        fs.unlink(parent, name).0.consistent(),
        fs.unlink(parent, name).0.step_is_consistent(fs.unlink(parent, name).1),
{
    let next = fs.unlink(parent, name).0;
    assert forall|n: Seq<char>| #[trigger] next.entries.contains_key(n) implies next.entry_is_consistent(
        next.entries[n],
    ) by {
        assert(fs.entries.contains_key(n));
        assert(fs.entry_is_consistent(fs.entries[n]));
    }
}

/// Opening a store again with the metadata that it was left with, and nothing staged, gives a
/// consistent filesystem.
pub proof fn reopening_keeps_consistency(fs: FsView)
    requires
        fs.consistent(),
    ensures
        FsView::holding(fs.store_dir, fs.metadata()).consistent(),
{
    let next = FsView::holding(fs.store_dir, fs.metadata());
    assert forall|n: Seq<char>| #[trigger] next.entries.contains_key(n) implies next.entry_is_consistent(
        next.entries[n],
    ) by {
        assert(fs.entry_is_consistent(fs.entries[n]));
    }
}

} // verus!
