//! What is read of a file after it was written, flushed and renamed.

use vstd::prelude::*;
use crate::attr::Owner;
use crate::consistency::{holder_holds, holder_of_consistent, holder_of_nothing};
use crate::consistency::{rename_keeps_consistency, write_keeps_consistency};
use crate::contents::{position, written};
use crate::directory::{holder, is_holder};
use crate::disk::{after_steps, all_steps_are_cut_off_last, Disk};
use crate::durability::{contents_are_committed, directory_changes_are_atomic, Encoding};
use crate::durability::{files_on_disk_can_be_read, flush_is_read_back, flush_keeps_files_on_disk};
use crate::durability::granted_change_is_finished;
use crate::laws::{read_gives_back_write, write_is_only_staged};
use crate::model::{FsView, StepView, TaskView};
use crate::store::metadata_steps;

verus! {

/// A request to rename a file.
pub struct Renaming {
    pub parent: u64,
    pub name: Option<Seq<char>>,
    pub newparent: u64,
    pub newname: Option<Seq<char>>,
    pub flags: u32,
}

impl FsView {
    /// The filesystem and the first steps of a request to rename a file.
    pub open spec fn renaming(self, r: Renaming) -> (FsView, StepView) {
        self.rename(r.parent, r.name, r.newparent, r.newname, r.flags)
    }

    /// The filesystem and the disk after renames one after the other, whose steps all end well.
    pub open spec fn after_renames(self, renames: Seq<Renaming>, disk: Disk, encode: Encoding) -> (
        FsView,
        Disk,
    )
        decreases renames.len(),
    {
        if renames.len() == 0 {
            (self, disk)
        } else {
            let (next, step) = self.renaming(renames[0]);
            let (end, after, answer) = next.finished(step, disk, encode);
            end.after_renames(renames.drop_first(), after, encode)
        }
    }

    /// The rename does not put another file in the place of the one with inode `ino`.
    pub open spec fn spares(self, r: Renaming, ino: u64) -> bool {
        self.renaming(r).1 is Perform && r.name != r.newname ==> !is_holder(
            self.entries,
            ino,
            r.newname->0,
        )
    }

    /// None of the renames puts another file in the place of the one with inode `ino`.
    pub open spec fn all_spare(self, renames: Seq<Renaming>, ino: u64) -> bool
        decreases renames.len(),
    {
        renames.len() == 0 || {
            &&& self.spares(renames[0], ino)
            &&& self.renaming(renames[0]).0.all_spare(renames.drop_first(), ino)
        }
    }

    /// The bytes of `ino`, where the disk is `disk`.
    pub open spec fn contents_on(self, disk: Disk, ino: u64) -> Result<Seq<u8>, i32> {
        self.contents(ino, self.fetched_from(disk, ino))
    }
}

/// A rename whose steps end well leaves the bytes of a file that it spares as they are.
proof fn lemma_rename_keeps_contents(
    fs: FsView,
    r: Renaming,
    ino: u64,
    disk: Disk,
    encode: Encoding,
)
    requires
        fs.consistent(),
        fs.is_on(disk),
        fs.spares(r, ino),
    ensures
        ({
            let (next, step) = fs.renaming(r);
            let (end, after, answer) = next.finished(step, disk, encode);
            &&& end == next
            &&& end.consistent()
            &&& end.is_on(after)
            &&& end.staged == fs.staged
            &&& end.contents_on(after, ino) == fs.contents_on(disk, ino)
        }),
{
    let (next, step) = fs.renaming(r);
    rename_keeps_consistency(fs, r.parent, r.name, r.newparent, r.newname, r.flags);
    if step is Perform {
        granted_change_is_finished(next, TaskView::Finish, disk, encode);
        let json = encode(next.metadata());
        let ops = metadata_steps(fs.store_dir);
        let after = after_steps(disk, ops, json);
        all_steps_are_cut_off_last(disk, ops, json);
        let k = ops.len() as int;
        directory_changes_are_atomic(
            fs,
            r.parent,
            r.name,
            r.newparent,
            r.newname,
            r.flags,
            0,
            Owner { uid: 0, gid: 0 },
            disk,
            encode,
            k,
            after,
        );
        let name = r.name->0;
        let newname = r.newname->0;
        if holder(fs.entries, ino) is Some {
            holder_holds(fs, ino);
            let held = holder(fs.entries, ino)->0;
            let now_held = if held == name { newname } else { held };
            assert(next.entries.contains_key(now_held));
            assert(next.entries[now_held] == fs.entries[held]);
            holder_of_consistent(next, now_held);
            if !fs.staged.contains_key(ino) {
                contents_are_committed(fs, disk, held);
                contents_are_committed(next, after, now_held);
                assert(next.committed(after, now_held) == fs.committed(after, held));
            }
        } else {
            assert forall|n: Seq<char>| #[trigger] next.entries.contains_key(n) implies next.entries[n].ino
                != ino by {
                let before = if n == newname { name } else { n };
                assert(fs.entries.contains_key(before));
                holder_of_consistent(fs, before);
            }
            holder_of_nothing(next, ino);
        }
    }
}

/// Renames whose steps end well leave the bytes of a file as they are, unless one of them puts
/// another file in its place; and the file can still be read.
pub proof fn renames_keep_contents(
    fs: FsView,
    renames: Seq<Renaming>,
    ino: u64,
    disk: Disk,
    encode: Encoding,
)
    requires
        fs.consistent(),
        fs.is_on(disk),
        fs.all_spare(renames, ino),
    ensures
        ({
            let (end, after) = fs.after_renames(renames, disk, encode);
            &&& end.consistent()
            &&& end.is_on(after)
            &&& end.staged == fs.staged
            &&& end.readable(ino, end.fetched_from(after, ino))
            &&& end.contents_on(after, ino) == fs.contents_on(disk, ino)
        }),
    decreases renames.len(),
{
    if renames.len() == 0 {
        if holder(fs.entries, ino) is Some {
            holder_holds(fs, ino);
            files_on_disk_can_be_read(fs, disk, holder(fs.entries, ino)->0);
        }
    } else {
        lemma_rename_keeps_contents(fs, renames[0], ino, disk, encode);
        let (next, step) = fs.renaming(renames[0]);
        let after = next.finished(step, disk, encode).1;
        renames_keep_contents(next, renames.drop_first(), ino, after, encode);
    }
}

/// A flush whose steps all end well leaves the bytes of every file as they were read before.
pub proof fn flush_keeps_contents(fs: FsView, ino: u64, other: u64, disk: Disk, encode: Encoding)
    requires
        fs.consistent(),
        fs.is_on(disk),
        fs.staged.contains_key(ino),
        fs.staged[ino].len() <= isize::MAX,
        fs.staged[ino].len() > 0 ==> fs.next_blob < u64::MAX,
        fs.entry_of(ino) is Some,
    ensures
        ({
            let (end, after, answer) = fs.flushed(ino, disk, encode);
            &&& end.consistent()
            &&& end.is_on(after)
            &&& end.contents_on(after, ino) == fs.contents_on(disk, ino)
            &&& end.contents_on(after, other) == fs.contents_on(disk, other)
        }),
{
    let (end, after, answer) = fs.flushed(ino, disk, encode);
    flush_is_read_back(fs, ino, disk, encode, Owner { uid: 0, gid: 0 });
    flush_keeps_files_on_disk(fs, ino, disk, encode);
    if other != ino {
        if holder(fs.entries, other) is Some {
            holder_holds(fs, other);
            let held = holder(fs.entries, other)->0;
            holder_of_consistent(end, held);
            if !fs.staged.contains_key(other) {
                contents_are_committed(fs, disk, held);
                contents_are_committed(end, after, held);
            }
        } else {
            assert forall|n: Seq<char>| #[trigger] end.entries.contains_key(n) implies end.entries[n].ino
                != other by {
                assert(end.entries.dom().contains(n));
                assert(fs.entries.contains_key(n));
                holder_of_consistent(fs, n);
            }
            holder_of_nothing(end, other);
        }
    }
}

impl FsView {
    /// The filesystem and the disk after `data` was written to `ino`, which is then flushed where
    /// `flush` says so.
    pub open spec fn written_to(
        self,
        ino: u64,
        offset: i64,
        data: Seq<u8>,
        flush: bool,
        disk: Disk,
        encode: Encoding,
    ) -> (FsView, Disk) {
        let next = self.write(ino, offset, data, self.fetched_from(disk, ino)).0;
        if flush {
            let (end, after, answer) = next.flushed(ino, disk, encode);
            (end, after)
        } else {
            (next, disk)
        }
    }

    /// `data` can be written to `ino`; and where it is then flushed, the file has a name, its bytes
    /// are no more than memory can hold, and there is a number for its blob.
    pub open spec fn can_be_written(
        self,
        ino: u64,
        offset: i64,
        data: Seq<u8>,
        flush: bool,
        disk: Disk,
    ) -> bool {
        &&& data.len() <= u32::MAX
        &&& self.contents_on(disk, ino) is Ok
        &&& flush ==> {
            &&& self.entry_of(ino) is Some
            &&& written(self.contents_on(disk, ino)->Ok_0, position(offset), data).len()
                <= isize::MAX
            &&& self.next_blob < u64::MAX
        }
    }
}

/// What was written to a file is read back at the same place, whether or not it was flushed in
/// between, and whatever renames followed, as long as none put another file in its place.
pub proof fn write_is_read_after_renames(
    fs: FsView,
    ino: u64,
    offset: i64,
    data: Seq<u8>,
    flush: bool,
    renames: Seq<Renaming>,
    disk: Disk,
    encode: Encoding,
)
    requires
        fs.consistent(),
        fs.is_on(disk),
        fs.can_be_written(ino, offset, data, flush, disk),
        fs.written_to(ino, offset, data, flush, disk, encode).0.all_spare(renames, ino),
    ensures
        ({
            let (next, on) = fs.written_to(ino, offset, data, flush, disk, encode);
            let (end, after) = next.after_renames(renames, on, encode);
            let fetched = end.fetched_from(after, ino);
            &&& end.readable(ino, fetched)
            &&& end.read(ino, offset, data.len() as u32, fetched) == Ok::<Seq<u8>, i32>(data)
        }),
{
    let fetched = fs.fetched_from(disk, ino);
    let staged = fs.write(ino, offset, data, fetched).0;
    let (next, on) = fs.written_to(ino, offset, data, flush, disk, encode);
    lemma_written_to(fs, ino, offset, data, flush, ino, disk, encode);
    renames_keep_contents(next, renames, ino, on, encode);
    read_gives_back_write(fs, ino, offset, data, fetched, staged.fetched_from(disk, ino));
}

/// The bytes of any other file are read as they were before the write, whether or not what was
/// written was flushed, and whatever renames followed, as long as none put another file in the
/// place of that one.
pub proof fn write_spares_other_files(
    fs: FsView,
    ino: u64,
    offset: i64,
    data: Seq<u8>,
    flush: bool,
    renames: Seq<Renaming>,
    other: u64,
    at: i64,
    size: u32,
    disk: Disk,
    encode: Encoding,
)
    requires
        fs.consistent(),
        fs.is_on(disk),
        fs.can_be_written(ino, offset, data, flush, disk),
        other != ino,
        fs.written_to(ino, offset, data, flush, disk, encode).0.all_spare(renames, other),
    ensures
        ({
            let (next, on) = fs.written_to(ino, offset, data, flush, disk, encode);
            let (end, after) = next.after_renames(renames, on, encode);
            &&& end.contents_on(after, other) == fs.contents_on(disk, other)
            &&& end.read(other, at, size, end.fetched_from(after, other)) == fs.read(
                other,
                at,
                size,
                fs.fetched_from(disk, other),
            )
        }),
{
    let (next, on) = fs.written_to(ino, offset, data, flush, disk, encode);
    lemma_written_to(fs, ino, offset, data, flush, other, disk, encode);
    renames_keep_contents(next, renames, other, on, encode);
    let fetched = fs.fetched_from(disk, ino);
    let later = fs.fetched_from(disk, other);
    write_is_only_staged(fs, ino, offset, data, fetched, other, later, Owner { uid: 0, gid: 0 });
}

/// After a write, flushed or not, every file has the bytes that are staged after the write.
proof fn lemma_written_to(
    fs: FsView,
    ino: u64,
    offset: i64,
    data: Seq<u8>,
    flush: bool,
    any: u64,
    disk: Disk,
    encode: Encoding,
)
    requires
        fs.consistent(),
        fs.is_on(disk),
        fs.can_be_written(ino, offset, data, flush, disk),
    ensures
        ({
            let staged = fs.write(ino, offset, data, fs.fetched_from(disk, ino)).0;
            let (next, on) = fs.written_to(ino, offset, data, flush, disk, encode);
            &&& next.consistent()
            &&& next.is_on(on)
            &&& next.contents_on(on, any) == staged.contents_on(disk, any)
        }),
{
    let fetched = fs.fetched_from(disk, ino);
    let staged = fs.write(ino, offset, data, fetched).0;
    write_keeps_consistency(fs, ino, offset, data, fetched);
    assert(staged.is_on(disk)) by {
        assert forall|name: Seq<char>| #[trigger] staged.entries.contains_key(name) implies staged.file_is_on(
            disk,
            staged.entries[name],
        ) by {
            assert(fs.entries.contains_key(name));
        }
    }
    if flush {
        flush_keeps_contents(staged, ino, any, disk, encode);
    }
}

} // verus!
