//! What callers can rely on over several requests.

use vstd::prelude::*;
use crate::attr::{FileAttr, FileType, Owner, ROOT};
use crate::consistency::{create_keeps_consistency, rename_keeps_consistency};
use crate::consistency::{holder_of_consistent, holder_of_nothing, new_inode_is_unused};
use crate::contents::{position, window, written, zeros};
use crate::directory::{holder, is_listing, listing_is_unique, EntryView};
use crate::errno::{errno_of, EEXIST, ENOENT};
use crate::model::{lines, page, DirEntryView, FetchedView, FsView, Opened, Reply, StepView, TaskView};
use crate::names::{name_before, name_before_is_irreflexive};

verus! {

/// A read of what was just written gives it back, whatever the disk holds.
pub proof fn read_gives_back_write(
    fs: FsView,
    ino: u64,
    offset: i64,
    data: Seq<u8>,
    fetched: FetchedView,
    later: FetchedView,
)
    requires
        fs.contents(ino, fetched) is Ok,
        data.len() <= u32::MAX,
    ensures
        ({
            let (next, answer) = fs.write(ino, offset, data, fetched);
            &&& answer == Ok::<u32, i32>(data.len() as u32)
            &&& next.read(ino, offset, data.len() as u32, later) == Ok::<Seq<u8>, i32>(data)
        }),
{
    let before = fs.contents(ino, fetched)->Ok_0;
    let after = written(before, position(offset), data);
    assert(window(after, offset, data.len() as u32) =~= data);
}

/// A write changes nothing but the bytes of its file: no metadata, and no other file.
pub proof fn write_is_only_staged(
    fs: FsView,
    ino: u64,
    offset: i64,
    data: Seq<u8>,
    fetched: FetchedView,
    other: u64,
    later: FetchedView,
    owner: Owner,
)
    requires
        other != ino,
    ensures
        ({
            let next = fs.write(ino, offset, data, fetched).0;
            &&& next.entries == fs.entries
            &&& next.next_inode == fs.next_inode
            &&& next.next_blob == fs.next_blob
            &&& next.getattr(ino, owner) == fs.getattr(ino, owner)
            &&& next.getattr(other, owner) == fs.getattr(other, owner)
            &&& next.blobs_to_read(other) == fs.blobs_to_read(other)
            &&& next.contents(other, later) == fs.contents(other, later)
        }),
{
    let next = fs.write(ino, offset, data, fetched).0;
    assert(next.blobs_to_read(other) =~= fs.blobs_to_read(other));
}

/// Once a file has been written or its size set, its blobs are not read again until a commit.
pub proof fn staged_file_needs_no_blobs(fs: FsView, ino: u64, fetched: FetchedView, later: FetchedView)
    requires
        fs.staged.contains_key(ino),
    ensures
        fs.blobs_to_read(ino).len() == 0,
        fs.readable(ino, later),
        fs.contents(ino, fetched) == fs.contents(ino, later),
{
}

/// Setting the size of a file is answered with that size; what lies below both sizes stays, and
/// what is new is zero.
pub proof fn new_size_is_reported(
    fs: FsView,
    ino: u64,
    size: u64,
    fetched: FetchedView,
    later: FetchedView,
    owner: Owner,
)
    requires
        fs.contents(ino, fetched) is Ok,
        fs.entry_of(ino) is Some,
    ensures
        ({
            let before = fs.contents(ino, fetched)->Ok_0;
            let (next, answer) = fs.setattr(ino, Some(size), fetched, owner);
            let after = next.contents(ino, later)->Ok_0;
            &&& answer is Ok
            &&& answer->Ok_0.size == size
            &&& next.contents(ino, later) is Ok
            &&& after.len() == size
            &&& forall|i: int|
                0 <= i < size ==> #[trigger] after[i] == if i < before.len() {
                    before[i]
                } else {
                    0
                }
            &&& next.entries == fs.entries
        }),
{
}

/// A request that is refused at once leaves the filesystem as it was.
pub proof fn refusal_changes_nothing(
    fs: FsView,
    parent: u64,
    name: Option<Seq<char>>,
    newparent: u64,
    newname: Option<Seq<char>>,
    flags: u32,
    mode: u32,
    owner: Owner,
    ino: u64,
    offset: i64,
    data: Seq<u8>,
    fetched: FetchedView,
)
    ensures
        fs.create(parent, name, mode, owner).1 is Done ==> fs.create(parent, name, mode, owner).0
            == fs,
        fs.rename(parent, name, newparent, newname, flags).1 is Done ==> fs.rename(
            parent,
            name,
            newparent,
            newname,
            flags,
        ).0 == fs,
        fs.unlink(parent, name).1 is Done ==> fs.unlink(parent, name).0 == fs,
        fs.write(ino, offset, data, fetched).1 is Err ==> fs.write(ino, offset, data, fetched).0
            == fs,
{
}

/// A refused change of size leaves the filesystem as it was, unless bytes are staged for an inode
/// that no name stands for any more.
pub proof fn refused_size_changes_nothing(
    fs: FsView,
    ino: u64,
    size: Option<u64>,
    fetched: FetchedView,
    owner: Owner,
)
    requires
        fs.staged.contains_key(ino) ==> fs.entry_of(ino) is Some,
    ensures
        fs.setattr(ino, size, fetched, owner).1 is Err ==> fs.setattr(ino, size, fetched, owner).0
            == fs,
{
}

/// A file that was created is found under its name, with the attributes that were promised; it
/// is empty, and cannot be created again.
pub proof fn created_file_is_found(
    fs: FsView,
    name: Seq<char>,
    mode: u32,
    owner: Owner,
    again: u32,
    fetched: FetchedView,
)
    requires
        fs.consistent(),
        fs.creates(ROOT, Some(name)),
        fs.next_inode < u64::MAX,
        fetched matches Ok(blobs) && blobs.len() == 0,
    ensures
        ({
            let (next, step) = fs.create(ROOT, Some(name), mode, owner);
            let ino = fs.next_inode;
            let (end, answer) = next.resume(step->then, Ok(()));
            &&& step is Perform
            &&& end == next
            &&& answer matches StepView::Done(Ok(Reply::Created { attr, opened }))
            &&& next.lookup(ROOT, Some(name), owner) == Ok::<FileAttr, i32>(attr)
            &&& next.getattr(ino, owner) == Ok::<FileAttr, i32>(attr)
            &&& attr.ino == ino
            &&& attr.size == 0
            &&& attr.perm == mode & 0o777
            &&& next.open_file(ino) == Ok::<Opened, i32>(opened)
            &&& next.blobs_to_read(ino).len() == 0
            &&& next.contents(ino, fetched) == Ok::<Seq<u8>, i32>(Seq::empty())
            &&& next.create(ROOT, Some(name), again, owner) == (
                next,
                StepView::Done(Err::<Reply, i32>(EEXIST)),
            )
        }),
{
    let (next, step) = fs.create(ROOT, Some(name), mode, owner);
    new_inode_is_unused(fs);
    create_keeps_consistency(fs, ROOT, Some(name), mode, owner);
    assert(next.entries.contains_key(name));
    holder_of_consistent(next, name);
    assert((mode & 0o777) as u16 == mode & 0o777) by (bit_vector);
    assert(zeros(0) =~= Seq::<u8>::empty());
    assert(next.entries[name].blobs =~= Seq::empty());
}

/// Creating a file leaves every other name as it was.
pub proof fn create_spares_other_names(
    fs: FsView,
    name: Seq<char>,
    mode: u32,
    owner: Owner,
    other: Seq<char>,
)
    requires
        other != name,
    ensures
        fs.create(ROOT, Some(name), mode, owner).0.lookup(ROOT, Some(other), owner) == fs.lookup(
            ROOT,
            Some(other),
            owner,
        ),
{
}

/// A file that was removed is not found any more, neither by its name nor by its inode, and what
/// was staged for it is gone; other names stay.
pub proof fn removed_file_is_gone(
    fs: FsView,
    name: Seq<char>,
    other: Seq<char>,
    owner: Owner,
    fetched: FetchedView,
)
    requires
        fs.consistent(),
        fs.entries.contains_key(name),
        other != name,
    ensures
        ({
            let ino = fs.entries[name].ino;
            let (next, step) = fs.unlink(ROOT, Some(name));
            &&& step is Perform
            &&& next.resume(step->then, Ok(())) == (next, StepView::Done(Ok(Reply::Empty)))
            &&& next.lookup(ROOT, Some(name), owner) == Err::<FileAttr, i32>(ENOENT)
            &&& next.getattr(ino, owner) == Err::<FileAttr, i32>(ENOENT)
            &&& next.open_file(ino) is Err
            &&& next.contents(ino, fetched) == Err::<Seq<u8>, i32>(ENOENT)
            &&& next.unlink(ROOT, Some(name)) == (next, StepView::Done(Err::<Reply, i32>(ENOENT)))
            &&& next.lookup(ROOT, Some(other), owner) == fs.lookup(ROOT, Some(other), owner)
        }),
{
    let ino = fs.entries[name].ino;
    assert(fs.entry_is_consistent(fs.entries[name]));
    let next = fs.unlink(ROOT, Some(name)).0;
    assert forall|n: Seq<char>| #[trigger] next.entries.contains_key(n) implies next.entries[n].ino
        != ino by {
        assert(fs.entries.contains_key(n));
    }
    holder_of_nothing(next, ino);
}

/// Removing a file that was just created, whatever was staged for it, gives back the filesystem
/// from before, except that its inode is spent; and nothing is read of that inode.
pub proof fn unlink_undoes_create(
    fs: FsView,
    name: Seq<char>,
    mode: u32,
    owner: Owner,
    data: Option<Seq<u8>>,
    fetched: FetchedView,
)
    requires
        fs.creates(ROOT, Some(name)),
        fs.next_inode < u64::MAX,
        forall|n: Seq<char>| #[trigger]
            fs.entries.contains_key(n) ==> fs.entries[n].ino < fs.next_inode,
        forall|ino: u64| #[trigger] fs.staged.contains_key(ino) ==> ino < fs.next_inode,
    ensures
        ({
            let ino = fs.next_inode;
            let (created, first) = fs.create(ROOT, Some(name), mode, owner);
            let staged = match data {
                Some(data) => created.with_staged(ino, data),
                None => created,
            };
            let (end, last) = staged.unlink(ROOT, Some(name));
            &&& first is Perform
            &&& created.resume(first->then, Ok(())).0 == created
            &&& last is Perform
            &&& staged.entries[name].ino == ino
            &&& end == FsView { next_inode: (fs.next_inode + 1) as u64, ..fs }
            &&& end.resume(last->then, Ok(())) == (end, StepView::Done(Ok::<Reply, i32>(Reply::Empty)))
            &&& end.contents(ino, fetched) == Err::<Seq<u8>, i32>(ENOENT)
        }),
{
    let ino = fs.next_inode;
    let created = fs.create(ROOT, Some(name), mode, owner).0;
    let staged = match data {
        Some(data) => created.with_staged(ino, data),
        None => created,
    };
    let end = staged.unlink(ROOT, Some(name)).0;
    assert(end.entries =~= fs.entries);
    assert(end.staged =~= fs.staged);
    holder_of_nothing(end, ino);
}

impl FsView {
    /// The filesystem after writes to `ino`, one after the other, of the bytes at the offsets in
    /// `writes`.
    pub open spec fn after_writes(
        self,
        ino: u64,
        writes: Seq<(i64, Seq<u8>)>,
        fetched: FetchedView,
    ) -> FsView
        decreases writes.len(),
    {
        if writes.len() == 0 {
            self
        } else {
            let (offset, data) = writes.last();
            self.after_writes(ino, writes.drop_last(), fetched).write(ino, offset, data, fetched).0
        }
    }
}

/// Writes to a file, however many, change nothing but what is staged for it.
pub proof fn writes_are_only_staged(
    fs: FsView,
    ino: u64,
    writes: Seq<(i64, Seq<u8>)>,
    fetched: FetchedView,
)
    ensures
        fs.after_writes(ino, writes, fetched).without_staged(ino) == fs.without_staged(ino),
    decreases writes.len(),
{
    if writes.len() > 0 {
        writes_are_only_staged(fs, ino, writes.drop_last(), fetched);
    }
    assert(fs.after_writes(ino, writes, fetched).staged.remove(ino) =~= fs.staged.remove(ino));
}

/// Removing a file that was created and then written to, but not committed, gives back the
/// filesystem from before, except that its inode is spent; and nothing is read of that inode.
pub proof fn unlink_undoes_create_and_writes(
    fs: FsView,
    name: Seq<char>,
    mode: u32,
    owner: Owner,
    writes: Seq<(i64, Seq<u8>)>,
    fetched: FetchedView,
)
    requires
        fs.creates(ROOT, Some(name)),
        fs.next_inode < u64::MAX,
        forall|n: Seq<char>| #[trigger]
            fs.entries.contains_key(n) ==> fs.entries[n].ino < fs.next_inode,
        forall|ino: u64| #[trigger] fs.staged.contains_key(ino) ==> ino < fs.next_inode,
    ensures
        ({
            let ino = fs.next_inode;
            let created = fs.create(ROOT, Some(name), mode, owner).0;
            let (end, last) = created.after_writes(ino, writes, fetched).unlink(ROOT, Some(name));
            &&& last is Perform
            &&& end == FsView { next_inode: (fs.next_inode + 1) as u64, ..fs }
            &&& end.contents(ino, fetched) == Err::<Seq<u8>, i32>(ENOENT)
        }),
{
    let ino = fs.next_inode;
    let created = fs.create(ROOT, Some(name), mode, owner).0;
    let written = created.after_writes(ino, writes, fetched);
    writes_are_only_staged(created, ino, writes, fetched);
    unlink_undoes_create(fs, name, mode, owner, None, fetched);
    let plain = created.unlink(ROOT, Some(name)).0;
    assert(written.without_staged(ino).staged == created.without_staged(ino).staged);
    assert(written.unlink(ROOT, Some(name)).0 =~= plain);
}

/// A file that was renamed is found under its new name and not under its old one; it keeps its
/// inode, its bytes and what is staged for it; names other than these two stay.
pub proof fn renamed_file_is_found(
    fs: FsView,
    name: Seq<char>,
    newname: Seq<char>,
    other: Seq<char>,
    owner: Owner,
    fetched: FetchedView,
)
    requires
        fs.consistent(),
        fs.entries.contains_key(name),
        other != name,
        other != newname,
    ensures
        ({
            let ino = fs.entries[name].ino;
            let (next, step) = fs.rename(ROOT, Some(name), ROOT, Some(newname), 0);
            &&& step is Perform
            &&& next.resume(step->then, Ok(())) == (next, StepView::Done(Ok(Reply::Empty)))
            &&& next.lookup(ROOT, Some(newname), owner) == fs.lookup(ROOT, Some(name), owner)
            &&& name != newname ==> next.lookup(ROOT, Some(name), owner) == Err::<FileAttr, i32>(
                ENOENT,
            )
            &&& holder(next.entries, ino) == Some(newname)
            &&& next.blobs_to_read(ino) == fs.blobs_to_read(ino)
            &&& next.contents(ino, fetched) == fs.contents(ino, fetched)
            &&& next.staged == fs.staged
            &&& next.lookup(ROOT, Some(other), owner) == fs.lookup(ROOT, Some(other), owner)
        }),
{
    let ino = fs.entries[name].ino;
    let next = fs.rename(ROOT, Some(name), ROOT, Some(newname), 0).0;
    holder_of_consistent(fs, name);
    rename_keeps_consistency(fs, ROOT, Some(name), ROOT, Some(newname), 0);
    assert(next.entries.contains_key(newname));
    holder_of_consistent(next, newname);
    assert(next.blobs_to_read(ino) =~= fs.blobs_to_read(ino));
}

/// A file whose name was taken by another is not found any more by its inode, but what is staged
/// for it stays; committing that is refused.
pub proof fn replaced_file_is_gone(fs: FsView, name: Seq<char>, newname: Seq<char>, owner: Owner)
    requires
        fs.consistent(),
        fs.entries.contains_key(name),
        fs.entries.contains_key(newname),
        name != newname,
    ensures
        ({
            let lost = fs.entries[newname].ino;
            let next = fs.rename(ROOT, Some(name), ROOT, Some(newname), 0).0;
            let (mid, step) = next.commit_inode(lost);
            &&& next.getattr(lost, owner) == Err::<FileAttr, i32>(ENOENT)
            &&& next.open_file(lost) is Err
            &&& next.staged.contains_key(lost) == fs.staged.contains_key(lost)
            &&& fs.staged.contains_key(lost) && fs.staged[lost].len() > 0 ==> step is Perform
                && mid.resume(step->then, Ok(())) == (
                mid,
                StepView::Done(Err::<Reply, i32>(ENOENT)),
            )
            &&& fs.staged.contains_key(lost) && fs.staged[lost].len() == 0 ==> step
                == StepView::Done(Err::<Reply, i32>(ENOENT))
        }),
{
    let lost = fs.entries[newname].ino;
    assert(fs.entry_is_consistent(fs.entries[newname]));
    let next = fs.rename(ROOT, Some(name), ROOT, Some(newname), 0).0;
    assert forall|n: Seq<char>| #[trigger] next.entries.contains_key(n) implies next.entries[n].ino
        != lost by {
        if n != newname {
            assert(fs.entries.contains_key(n));
        }
    }
    holder_of_nothing(next, lost);
    let mid = next.commit_inode(lost).0;
    assert(mid.entries == next.entries);
    holder_of_nothing(mid, lost);
}

/// Renaming to a name that is free and back again changes nothing.
pub proof fn rename_back_undoes_rename(fs: FsView, name: Seq<char>, newname: Seq<char>)
    requires
        fs.entries.contains_key(name),
        !fs.entries.contains_key(newname),
    ensures
        ({
            let next = fs.rename(ROOT, Some(name), ROOT, Some(newname), 0).0;
            next.rename(ROOT, Some(newname), ROOT, Some(name), 0).0 == fs
        }),
{
    let next = fs.rename(ROOT, Some(name), ROOT, Some(newname), 0).0;
    assert(next.rename(ROOT, Some(newname), ROOT, Some(name), 0).0.entries =~= fs.entries);
}

/// What a name is found to be is what its inode is reported to be.
pub proof fn lookup_agrees_with_getattr(fs: FsView, name: Seq<char>, owner: Owner)
    requires
        fs.consistent(),
        fs.entries.contains_key(name),
    ensures
        fs.lookup(ROOT, Some(name), owner) is Ok,
        fs.getattr(fs.entries[name].ino, owner) == fs.lookup(ROOT, Some(name), owner),
        fs.open_file(fs.entries[name].ino) is Ok,
{
    assert(fs.entry_is_consistent(fs.entries[name]));
    holder_of_consistent(fs, name);
}

/// The directory is no file: it cannot be opened, read or written as one.
pub proof fn directory_is_no_file(fs: FsView, offset: i64, size: u32, data: Seq<u8>, fetched: FetchedView)
    requires
        fs.consistent(),
    ensures
        fs.open_file(ROOT) == Err::<Opened, i32>(ENOENT),
        fs.read(ROOT, offset, size, fetched) == Err::<Seq<u8>, i32>(ENOENT),
        fs.write(ROOT, offset, data, fetched) == (fs, Err::<u32, i32>(ENOENT)),
{
    assert forall|n: Seq<char>| #[trigger] fs.entries.contains_key(n) implies fs.entries[n].ino != ROOT by {
        assert(fs.entry_is_consistent(fs.entries[n]));
    }
    holder_of_nothing(fs, ROOT);
}

/// A file for which nothing is staged is committed without any step, and a second commit right
/// after a first has nothing left to do.
pub proof fn commit_is_idle_when_clean(fs: FsView, ino: u64)
    ensures
        !fs.staged.contains_key(ino) ==> fs.commit_inode(ino) == (
            fs,
            StepView::Done(Ok::<Reply, i32>(Reply::Empty)),
        ),
        ({
            let next = fs.commit_inode(ino).0;
            next.commit_inode(ino) == (next, StepView::Done(Ok::<Reply, i32>(Reply::Empty)))
        }),
{
}

/// A commit that fails is answered with the system's error number and refers to nothing new, but
/// what was staged is gone.
pub proof fn failed_commit_keeps_old_entry(fs: FsView, ino: u64, raw: Option<i32>)
    requires
        fs.staged.contains_key(ino),
        fs.staged[ino].len() > 0,
    ensures
        ({
            let (mid, step) = fs.commit_inode(ino);
            let (end, answer) = mid.resume(step->then, Err(raw));
            &&& step is Perform
            &&& answer == StepView::Done(Err::<Reply, i32>(errno_of(raw)))
            &&& end.entries == fs.entries
            &&& end.staged == fs.staged.remove(ino)
        }),
{
}

/// Numbers of inodes and blobs only grow, so that none is handed out twice.
pub proof fn numbers_only_grow(
    fs: FsView,
    parent: u64,
    name: Option<Seq<char>>,
    newparent: u64,
    newname: Option<Seq<char>>,
    flags: u32,
    mode: u32,
    owner: Owner,
    ino: u64,
    offset: i64,
    data: Seq<u8>,
    size: Option<u64>,
    fetched: FetchedView,
    task: TaskView,
    outcome: Result<(), Option<i32>>,
)
    requires
        fs.next_inode <= u64::MAX - 2,
        fs.next_blob < u64::MAX,
    ensures
        grows(fs, fs.bootstrap().0),
        grows(fs, fs.create(parent, name, mode, owner).0),
        grows(fs, fs.rename(parent, name, newparent, newname, flags).0),
        grows(fs, fs.unlink(parent, name).0),
        grows(fs, fs.write(ino, offset, data, fetched).0),
        grows(fs, fs.setattr(ino, size, fetched, owner).0),
        grows(fs, fs.commit_inode(ino).0),
        grows(fs, fs.resume(task, outcome).0),
        fs.creates(parent, name) ==> fs.create(parent, name, mode, owner).0.next_inode
            > fs.next_inode,
        fs.put_blob(data).0.next_blob > fs.next_blob,
{
}

/// The numbers that `after` hands out next are not below those of `before`.
pub open spec fn grows(before: FsView, after: FsView) -> bool {
    before.next_inode <= after.next_inode && before.next_blob <= after.next_blob
}

/// A directory that is read in pieces, each from where the last line of the piece before points
/// to, is read without a gap and without a line twice.
pub proof fn directory_pages_join(fs: FsView, offset: i64, taken: nat)
    requires
        0 <= offset,
        lines(fs.entries).len() <= i64::MAX,
        0 < taken <= page(fs.entries, offset).len(),
    ensures
        ({
            let first = page(fs.entries, offset).take(taken as int);
            let rest = page(fs.entries, first.last().offset);
            first + rest == page(fs.entries, offset)
        }),
        page(fs.entries, 0) == lines(fs.entries),
{
    let all = lines(fs.entries);
    let first = page(fs.entries, offset).take(taken as int);
    assert(first.last() == all[offset + taken - 1]);
    assert(first.last().offset == offset + taken);
    assert(first + page(fs.entries, first.last().offset) =~= page(fs.entries, offset));
    assert(page(fs.entries, 0) =~= lines(fs.entries));
}

/// The directory lists every file once, under its name and with its inode, in the order of the
/// names, after itself and its parent.
pub proof fn directory_lists_every_file(
    fs: FsView,
    rows: Seq<(Seq<char>, EntryView)>,
    name: Seq<char>,
)
    requires
        is_listing(rows, fs.entries),
    ensures
        lines(fs.entries).len() == rows.len() + 2,
        lines(fs.entries)[0].name == "."@ && lines(fs.entries)[0].ino == ROOT,
        lines(fs.entries)[1].name == ".."@ && lines(fs.entries)[1].ino == ROOT,
        forall|i: int, j: int|
            2 <= i < j < lines(fs.entries).len() ==> name_before(
                (#[trigger] lines(fs.entries)[i]).name,
                (#[trigger] lines(fs.entries)[j]).name,
            ),
        fs.entries.contains_key(name) ==> exists|i: int|
            2 <= i < lines(fs.entries).len() && (#[trigger] lines(fs.entries)[i]).name == name
                && lines(fs.entries)[i].ino == fs.entries[name].ino
                && lines(fs.entries)[i].kind == FileType::RegularFile,
        forall|i: int|
            2 <= i < lines(fs.entries).len() ==> fs.entries.contains_key(
                (#[trigger] lines(fs.entries)[i]).name,
            ),
{
    listing_is_unique(rows, fs.entries);
    let all = lines(fs.entries);
    assert forall|i: int, j: int| 2 <= i < j < all.len() implies name_before(
        (#[trigger] all[i]).name,
        (#[trigger] all[j]).name,
    ) by {
        assert(name_before(rows[i - 2].0, rows[j - 2].0));
    }
    assert forall|i: int| 2 <= i < all.len() implies fs.entries.contains_key(
        (#[trigger] all[i]).name,
    ) by {
        assert(fs.entries.contains_key(rows[i - 2].0));
    }
    if fs.entries.contains_key(name) {
        let k = choose|k: int| 0 <= k < rows.len() && #[trigger] rows[k].0 == name;
        assert(all[k + 2].name == name);
    }
}

/// What is seen of the directory when it is read in pieces from its first line on, and where the
/// next piece starts: of every piece as many lines are taken as `counts` says, or all that there
/// are, and the next piece starts where the last line that was taken points to.
pub open spec fn read_in_pieces(fs: FsView, counts: Seq<nat>) -> (Seq<DirEntryView>, i64)
    decreases counts.len(),
{
    if counts.len() == 0 {
        (Seq::empty(), 0)
    } else {
        let (seen, next) = read_in_pieces(fs, counts.drop_last());
        let piece = fs.readdir(ROOT, next)->Ok_0;
        let n = if counts.last() < piece.len() { counts.last() } else { piece.len() };
        let taken = piece.take(n as int);
        if n == 0 {
            (seen, next)
        } else {
            (seen + taken, taken.last().offset)
        }
    }
}

/// However the directory is read in pieces, its lines are seen from the first on, without a gap
/// and without a line twice, and are numbered one by one. Once a piece is empty, or there were as
/// many pieces as lines and something was taken of each, all lines have been seen.
pub proof fn directory_is_read_in_pieces(fs: FsView, counts: Seq<nat>)
    requires
        lines(fs.entries).len() <= i64::MAX,
    ensures
        ({
            let all = lines(fs.entries);
            let (seen, next) = read_in_pieces(fs, counts);
            &&& seen.len() <= all.len()
            &&& seen == all.take(seen.len() as int)
            &&& next == seen.len()
            &&& forall|i: int| 0 <= i < seen.len() ==> (#[trigger] seen[i]).offset == i + 1
            &&& fs.readdir(ROOT, next) == Ok::<Seq<DirEntryView>, i32>(all.skip(seen.len() as int))
            &&& (fs.readdir(ROOT, next)->Ok_0).len() == 0 ==> seen == all
            &&& (forall|i: int| 0 <= i < counts.len() ==> #[trigger] counts[i] > 0) ==> seen == all
                || seen.len() >= counts.len()
            &&& (forall|i: int| 0 <= i < counts.len() ==> #[trigger] counts[i] > 0)
                && counts.len() >= all.len() ==> seen == all
        }),
    decreases counts.len(),
{
    let all = lines(fs.entries);
    let (seen, next) = read_in_pieces(fs, counts);
    if counts.len() == 0 {
        assert(seen =~= all.take(0));
    } else {
        let before = counts.drop_last();
        directory_is_read_in_pieces(fs, before);
        let (first, at) = read_in_pieces(fs, before);
        let piece = fs.readdir(ROOT, at)->Ok_0;
        let n = if counts.last() < piece.len() { counts.last() } else { piece.len() };
        if n > 0 {
            assert(piece.take(n as int).last() == all[first.len() + n - 1]);
        }
        assert(seen =~= all.take((first.len() + n) as int));
        if forall|i: int| 0 <= i < counts.len() ==> #[trigger] counts[i] > 0 {
            assert forall|i: int| 0 <= i < before.len() implies #[trigger] before[i] > 0 by {
                assert(before[i] == counts[i]);
            }
            assert(counts[counts.len() - 1] > 0);
        }
    }
    assert(all.take(all.len() as int) =~= all);
    assert forall|i: int| 0 <= i < seen.len() implies (#[trigger] seen[i]).offset == i + 1 by {
        assert(seen[i] == all[i]);
    }
    if all.skip(seen.len() as int).len() == 0 {
        assert(seen.len() == all.len());
    }
}

/// Reading the directory in pieces, of each of which something is taken, until one is empty, gives
/// every file exactly once, in the order of the names.
pub proof fn pieces_hold_every_file_once(
    fs: FsView,
    rows: Seq<(Seq<char>, EntryView)>,
    counts: Seq<nat>,
    name: Seq<char>,
)
    requires
        is_listing(rows, fs.entries),
        lines(fs.entries).len() <= i64::MAX,
        ({
            let next = read_in_pieces(fs, counts).1;
            fs.readdir(ROOT, next) == Ok::<Seq<DirEntryView>, i32>(Seq::empty())
        }),
    ensures
        ({
            let seen = read_in_pieces(fs, counts).0;
            &&& seen == lines(fs.entries)
            &&& forall|i: int, j: int|
                2 <= i < j < seen.len() ==> name_before(
                    (#[trigger] seen[i]).name,
                    (#[trigger] seen[j]).name,
                )
            &&& forall|i: int, j: int|
                2 <= i < seen.len() && 2 <= j < seen.len() && i != j ==> (#[trigger] seen[i]).name
                    != (#[trigger] seen[j]).name
            &&& fs.entries.contains_key(name) <==> exists|i: int|
                2 <= i < seen.len() && (#[trigger] seen[i]).name == name
        }),
{
    directory_is_read_in_pieces(fs, counts);
    directory_lists_every_file(fs, rows, name);
    let seen = read_in_pieces(fs, counts).0;
    assert forall|i: int, j: int| 2 <= i < seen.len() && 2 <= j < seen.len() && i != j implies (
    #[trigger] seen[i]).name != (#[trigger] seen[j]).name by {
        name_before_is_irreflexive(seen[i].name);
    }
}

} // verus!
