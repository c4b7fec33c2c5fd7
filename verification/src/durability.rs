//! What the disk holds of the filesystem while the steps of a request are taken, and after them.

use vstd::prelude::*;
use crate::attr::Owner;
use crate::consistency::{bootstrap_keeps_consistency, commit_keeps_consistency, fresh_is_consistent};
use crate::consistency::{create_keeps_consistency, rename_keeps_consistency, unlink_keeps_consistency};
use crate::consistency::{hello_text_has_35_bytes, holder_holds, holder_of_consistent, refers_to};
use crate::consistency::{reopening_keeps_consistency, resume_keeps_consistency};
use crate::consistency::taking_staged_keeps_consistency;
use crate::contents::{assembled, assembled_has_size, fits, written, zeros};
use crate::directory::{holder, EntryView, MetadataView};
use crate::disk::{after_steps, all_steps_are_cut_off_last, blob_files_are_distinct};
use crate::disk::{blob_is_kept_atomically, blobs_on, cut_off, metadata_file_is_no_blob};
use crate::disk::{metadata_is_replaced_atomically, same_file, Disk};
use crate::errno::errno_of;
use crate::model::{hello_text, whole, FetchedView, FsView, Reply, StepView, TaskView};
use crate::names::blob_name_of;
use crate::store::{blob_dir_of, blobs_dir_of, line_end, metadata_path_of, metadata_steps, scratch_of};

verus! {

/// How metadata is written down.
pub type Encoding = spec_fn(MetadataView) -> Seq<u8>;

/// How metadata is read from its file.
pub type Decoding = spec_fn(Seq<u8>) -> MetadataView;

/// Reading a metadata file in which `meta` was written down gives `meta` back.
pub open spec fn reads_back(encode: Encoding, decode: Decoding, meta: MetadataView) -> bool {
    decode(encode(meta) + line_end()) == meta
}

impl FsView {
    /// What reading the blobs of `ino` gives, where the disk is `disk`.
    pub open spec fn fetched_from(self, disk: Disk, ino: u64) -> FetchedView {
        Ok(self.blobs_to_read(ino).map_values(|path: Seq<char>| disk[path]))
    }

    /// The bytes of the file `name` as they were last committed, where the disk is `disk`.
    pub open spec fn committed(self, disk: Disk, name: Seq<char>) -> Seq<u8> {
        let entry = self.entries[name];
        assembled(
            entry.size as nat,
            entry.blobs,
            blobs_on(disk, self.store_dir, entry.blobs),
        )
    }
}

/// A committed file reads the same from two disks that hold its blobs alike.
proof fn lemma_committed_agrees(fs: FsView, name: Seq<char>, a: Disk, b: Disk)
    requires
        fs.consistent(),
        fs.entries.contains_key(name),
        forall|n: nat|
            1 <= n < fs.next_blob && refers_to(fs.entries[name], #[trigger] blob_name_of(n)) ==> same_file(
                a,
                b,
                fs.blob_path(blob_name_of(n)),
            ),
    ensures
        fs.committed(a, name) == fs.committed(b, name),
{
    let entry = fs.entries[name];
    assert(fs.entry_is_consistent(entry));
    if entry.size > 0 {
        let n = choose|n: nat|
            1 <= n < fs.next_blob && entry.blobs[0].blob == #[trigger] blob_name_of(n);
        assert(refers_to(entry, blob_name_of(n)));
    }
    assert(blobs_on(a, fs.store_dir, entry.blobs) =~= blobs_on(b, fs.store_dir, entry.blobs));
}

/// Wherever keeping a blob for a file is cut off, the metadata on the disk is as it was, and every
/// file that it tells of has the bytes that it had.
pub proof fn keeping_a_blob_spares_what_is_committed(
    fs: FsView,
    disk: Disk,
    data: Seq<u8>,
    json: Seq<u8>,
    k: int,
    now: Disk,
)
    requires
        fs.consistent(),
        cut_off(disk, fs.put_blob(data).2, json, k, now),
    ensures
        same_file(disk, now, metadata_path_of(fs.store_dir)),
        forall|name: Seq<char>| #[trigger]
            fs.entries.contains_key(name) ==> fs.committed(now, name) == fs.committed(disk, name),
{
    lemma_blobs_stay(fs, disk, data, json, k, now);
    metadata_file_is_no_blob(fs.store_dir, fs.next_blob as nat);
    assert(same_file(disk, now, metadata_path_of(fs.store_dir)));
    assert forall|name: Seq<char>| #[trigger] fs.entries.contains_key(name) implies fs.committed(
        now,
        name,
    ) == fs.committed(disk, name) by {
        assert forall|n: nat|
            1 <= n < fs.next_blob && refers_to(fs.entries[name], #[trigger] blob_name_of(n)) implies same_file(
            now,
            disk,
            fs.blob_path(blob_name_of(n)),
        ) by {
            assert(same_file(disk, now, fs.blob_path(blob_name_of(n))));
        }
        lemma_committed_agrees(fs, name, now, disk);
    }
}

/// While a blob is kept, the files of all blobs that were handed out before stay as they are.
proof fn lemma_blobs_stay(fs: FsView, disk: Disk, data: Seq<u8>, json: Seq<u8>, k: int, now: Disk)
    requires
        cut_off(disk, fs.put_blob(data).2, json, k, now),
    ensures
        forall|n: nat|
            1 <= n < fs.next_blob ==> same_file(disk, now, fs.blob_path(#[trigger] blob_name_of(n))),
        ({
            let path = fs.blob_path(fs.put_blob(data).1);
            &&& k >= 5 ==> now.contains_key(path) && now[path] == data
            &&& forall|other: Seq<char>|
                other != path && other != scratch_of(path) ==> #[trigger] same_file(
                    disk,
                    now,
                    other,
                )
        }),
{
    let blob = fs.put_blob(data).1;
    blob_is_kept_atomically(
        disk,
        blobs_dir_of(fs.store_dir),
        blob_dir_of(fs.store_dir, blob),
        fs.blob_path(blob),
        data,
        json,
        k,
        now,
    );
    assert forall|n: nat| 1 <= n < fs.next_blob implies same_file(
        disk,
        now,
        fs.blob_path(#[trigger] blob_name_of(n)),
    ) by {
        blob_files_are_distinct(fs.store_dir, n, fs.next_blob as nat);
    }
}

/// Wherever replacing the metadata is cut off, every file has the bytes that it had.
pub proof fn replacing_metadata_spares_contents(
    fs: FsView,
    disk: Disk,
    json: Seq<u8>,
    k: int,
    now: Disk,
)
    requires
        fs.consistent(),
        cut_off(disk, metadata_steps(fs.store_dir), json, k, now),
    ensures
        forall|name: Seq<char>| #[trigger]
            fs.entries.contains_key(name) ==> fs.committed(now, name) == fs.committed(disk, name),
{
    metadata_is_replaced_atomically(disk, fs.store_dir, json, k, now);
    assert forall|name: Seq<char>| #[trigger] fs.entries.contains_key(name) implies fs.committed(
        now,
        name,
    ) == fs.committed(disk, name) by {
        assert forall|n: nat|
            1 <= n < fs.next_blob && refers_to(fs.entries[name], #[trigger] blob_name_of(n)) implies same_file(
            now,
            disk,
            fs.blob_path(blob_name_of(n)),
        ) by {
            metadata_file_is_no_blob(fs.store_dir, n);
            assert(same_file(disk, now, fs.blob_path(blob_name_of(n))));
        }
        lemma_committed_agrees(fs, name, now, disk);
    }
}

/// How many rounds of steps a request can still ask for.
pub open spec fn rounds(step: StepView) -> nat {
    match step {
        StepView::Done(_) => 0,
        StepView::Perform { ops, then } => if then is Bootstrap || then is Install {
            2
        } else {
            1
        },
    }
}

impl FsView {
    /// The filesystem, the disk and the answer when all the steps of a request end well.
    pub open spec fn finished(self, step: StepView, disk: Disk, encode: Encoding) -> (
        FsView,
        Disk,
        Result<Reply, i32>,
    )
        decreases rounds(step),
    {
        match step {
            StepView::Done(answer) => (self, disk, answer),
            StepView::Perform { ops, then } => {
                let (next, rest) = self.resume(then, Ok(()));
                next.finished(rest, after_steps(disk, ops, encode(self.metadata())), encode)
            },
        }
    }

    /// The filesystem, the disk and the answer after a flush of `ino` whose steps all end well.
    pub open spec fn flushed(self, ino: u64, disk: Disk, encode: Encoding) -> (
        FsView,
        Disk,
        Result<Reply, i32>,
    ) {
        let (next, step) = self.flush(ino);
        next.finished(step, disk, encode)
    }

    /// The filesystem that opening the store gives, where the disk holds its metadata.
    pub open spec fn opened_from(store_dir: Seq<char>, disk: Disk, decode: Decoding) -> (
        FsView,
        StepView,
    ) {
        FsView::open(store_dir, Some(decode(disk[metadata_path_of(store_dir)])))
    }

    /// The same filesystem with nothing staged.
    pub open spec fn reopened(self) -> FsView {
        FsView::holding(self.store_dir, self.metadata())
    }
}

/// A request that asks for its metadata to be replaced, and then only for its answer, leaves the
/// filesystem as it led to it and the disk with its metadata.
pub proof fn granted_change_is_finished(fs: FsView, then: TaskView, disk: Disk, encode: Encoding)
    requires
        then is Finish || then is Create,
    ensures
        ({
            let (end, after, answer) = fs.finished(fs.commit_metadata(then).1, disk, encode);
            &&& end == fs
            &&& after == after_steps(disk, metadata_steps(fs.store_dir), encode(fs.metadata()))
            &&& answer is Ok
            &&& then is Finish ==> answer == Ok::<Reply, i32>(Reply::Empty)
        }),
{
    reveal_with_fuel(FsView::finished, 2);
}

/// A store is opened again as it was when its metadata was last replaced: with the same numbers
/// and entries, and nothing staged. Opening it asks for no step. What was staged later, and
/// whatever else happened on the disk beside the metadata file, makes no difference.
pub proof fn committed_metadata_is_given_back(
    fs: FsView,
    then: TaskView,
    disk: Disk,
    later: Disk,
    encode: Encoding,
    decode: Decoding,
)
    requires
        reads_back(encode, decode, fs.metadata()),
        then is Finish || then is Create,
        same_file(
            fs.finished(fs.commit_metadata(then).1, disk, encode).1,
            later,
            metadata_path_of(fs.store_dir),
        ),
    ensures
        ({
            let (end, after, answer) = fs.finished(fs.commit_metadata(then).1, disk, encode);
            let (again, step) = FsView::opened_from(fs.store_dir, later, decode);
            &&& answer is Ok
            &&& end == fs
            &&& later.contains_key(metadata_path_of(fs.store_dir))
            &&& decode(later[metadata_path_of(fs.store_dir)]) == fs.metadata()
            &&& again == fs.reopened()
            &&& again.metadata() == fs.metadata()
            &&& again.staged == Map::<u64, Seq<u8>>::empty()
            &&& step == StepView::Done(Ok::<Reply, i32>(Reply::Empty))
            &&& again.finished(step, later, encode) == (again, later, Ok::<Reply, i32>(Reply::Empty))
        }),
{
    granted_change_is_finished(fs, then, disk, encode);
    let json = encode(fs.metadata());
    let after = after_steps(disk, metadata_steps(fs.store_dir), json);
    all_steps_are_cut_off_last(disk, metadata_steps(fs.store_dir), json);
    metadata_is_replaced_atomically(
        disk,
        fs.store_dir,
        json,
        metadata_steps(fs.store_dir).len() as int,
        after,
    );
}

/// What `committed` says of a file is what reading it gives where nothing is staged for it.
pub proof fn contents_are_committed(fs: FsView, disk: Disk, name: Seq<char>)
    requires
        fs.consistent(),
        fs.entries.contains_key(name),
        !fs.staged.contains_key(fs.entries[name].ino),
    ensures
        ({
            let ino = fs.entries[name].ino;
            fs.contents(ino, fs.fetched_from(disk, ino)) == Ok::<Seq<u8>, i32>(
                fs.committed(disk, name),
            )
        }),
{
    let ino = fs.entries[name].ino;
    holder_of_consistent(fs, name);
    let entry = fs.entries[name];
    assert(fs.blobs_to_read(ino).map_values(|path: Seq<char>| disk[path]) =~= blobs_on(
        disk,
        fs.store_dir,
        entry.blobs,
    ));
}

/// A file whose bytes are all in one blob has the bytes of that blob.
pub proof fn whole_file_is_its_blob(blob: Seq<char>, data: Seq<u8>)
    requires
        data.len() <= u64::MAX,
    ensures
        assembled(data.len(), whole(blob, data.len() as u64), seq![data]) == data,
{
    reveal_with_fuel(assembled, 2);
    let refs = whole(blob, data.len() as u64);
    assert(refs.drop_last() =~= Seq::empty());
    assert(seq![data].drop_last() =~= Seq::empty());
    assert(data.take(data.len() as int) =~= data);
    assert(written(zeros(data.len()), 0, data) =~= data);
}

/// The state to which a flush of `ino` leads, and the disk before its metadata is replaced.
proof fn lemma_installed(fs: FsView, ino: u64, disk: Disk, encode: Encoding) -> (r: (FsView, Disk))
    requires
        fs.consistent(),
        fs.staged.contains_key(ino),
        fs.staged[ino].len() <= u64::MAX,
        fs.staged[ino].len() > 0 ==> fs.next_blob < u64::MAX,
        fs.entry_of(ino) is Some,
    ensures
        ({
            let held = holder(fs.entries, ino)->0;
            let data = fs.staged[ino];
            let (next, kept) = r;
            let (mid, step) = fs.flush(ino);
            &&& next.consistent()
            &&& next.store_dir == fs.store_dir
            &&& next.staged == fs.staged.remove(ino)
            &&& next.entries.dom() == fs.entries.dom()
            &&& forall|name: Seq<char>|
                name != held ==> #[trigger] next.entries[name] == fs.entries[name]
            &&& next.entries[held] == (EntryView {
                size: data.len() as u64,
                blobs: next.entries[held].blobs,
                ..fs.entries[held]
            })
            &&& next.committed(kept, held) == data
            &&& data.len() <= isize::MAX ==> fits(
                next.entries[held],
                blobs_on(kept, next.store_dir, next.entries[held].blobs),
            )
            &&& same_file(disk, kept, metadata_path_of(fs.store_dir))
            &&& forall|name: Seq<char>| #[trigger]
                fs.entries.contains_key(name) ==> fs.committed(kept, name) == fs.committed(disk, name)
            &&& fs.is_on(disk) && data.len() <= isize::MAX ==> next.is_on(kept)
            &&& fs.flushed(ino, disk, encode) == next.finished(
                next.commit_metadata(TaskView::Finish).1,
                kept,
                encode,
            )
            &&& if data.len() == 0 {
                kept == disk && fs.flush(ino) == next.commit_metadata(TaskView::Finish)
            } else {
                &&& step is Perform
                &&& kept == after_steps(disk, step->ops, encode(mid.metadata()))
                &&& mid.resume(step->then, Ok(())) == next.commit_metadata(TaskView::Finish)
            }
        }),
{
    let data = fs.staged[ino];
    let held = holder(fs.entries, ino)->0;
    holder_holds(fs, ino);
    let taken = fs.without_staged(ino);
    commit_keeps_consistency(fs, ino);
    assert(fs.entry_is_consistent(fs.entries[held]));
    let (mid, step) = fs.flush(ino);
    if data.len() == 0 {
        let next = mid;
        assert(next.entries.dom() =~= fs.entries.dom());
        assert(next.committed(disk, held) =~= data) by {
            assert(next.entries[held].blobs =~= Seq::empty());
        }
        if fs.is_on(disk) {
            lemma_installed_is_on(fs, next, held, disk);
        }
        (next, disk)
    } else {
        let (m, blob, ops) = taken.put_blob(data);
        taking_staged_keeps_consistency(fs, ino);
        let json = encode(mid.metadata());
        let kept = after_steps(disk, ops, json);
        let task = TaskView::Install { ino, blob, len: data.len() as u64 };
        let next = mid.resume(task, Ok(())).0;
        resume_keeps_consistency(mid, task, Ok(()));
        all_steps_are_cut_off_last(disk, ops, json);
        let path = fs.blob_path(blob);
        lemma_blobs_stay(taken, disk, data, json, ops.len() as int, kept);
        keeping_a_blob_spares_what_is_committed(taken, disk, data, json, ops.len() as int, kept);
        assert(next.entries.dom() =~= fs.entries.dom());
        assert forall|name: Seq<char>| #[trigger] fs.entries.contains_key(name) implies fs.committed(
            kept,
            name,
        ) == fs.committed(disk, name) by {
            assert(taken.entries.contains_key(name));
        }
        whole_file_is_its_blob(blob, data);
        assert(blobs_on(kept, next.store_dir, next.entries[held].blobs) =~= seq![data]);
        if fs.is_on(disk) && data.len() <= isize::MAX {
            lemma_stays_on_disk(fs, disk, kept);
            lemma_installed_is_on(fs, next, held, kept);
        }
        (next, kept)
    }
}

/// Where one file refers to a blob that is on the disk, and all others are as they were.
proof fn lemma_installed_is_on(fs: FsView, next: FsView, held: Seq<char>, disk: Disk)
    requires
        fs.is_on(disk),
        next.store_dir == fs.store_dir,
        next.entries.dom() == fs.entries.dom(),
        forall|name: Seq<char>| name != held ==> #[trigger] next.entries[name] == fs.entries[name],
        next.entries[held].size <= isize::MAX,
        next.entries[held].size > 0 ==> {
            let path = next.blob_path(next.entries[held].blobs[0].blob);
            disk.contains_key(path) && disk[path].len() == next.entries[held].size
        },
    ensures
        next.is_on(disk),
{
    assert forall|name: Seq<char>| #[trigger] next.entries.contains_key(name) implies next.file_is_on(
        disk,
        next.entries[name],
    ) by {
        assert(next.entries.dom().contains(name));
        assert(fs.entries.contains_key(name));
        if name != held {
            assert(next.entries[name] == fs.entries[name]);
        }
    }
}

/// What was staged for a file is what is read back after a flush whose steps all end well, as it
/// was read before. All of it is in one blob, unless there is none of it; its size is the one that
/// is reported; and every other file keeps its bytes.
pub proof fn flush_is_read_back(fs: FsView, ino: u64, disk: Disk, encode: Encoding, owner: Owner)
    requires
        fs.consistent(),
        fs.staged.contains_key(ino),
        fs.staged[ino].len() <= isize::MAX,
        fs.staged[ino].len() > 0 ==> fs.next_blob < u64::MAX,
        fs.entry_of(ino) is Some,
    ensures
        ({
            let data = fs.staged[ino];
            let (end, after, answer) = fs.flushed(ino, disk, encode);
            &&& answer == Ok::<Reply, i32>(Reply::Empty)
            &&& end.store_dir == fs.store_dir
            &&& end.staged == fs.staged.remove(ino)
            &&& end.consistent()
            &&& end.readable(ino, end.fetched_from(after, ino))
            &&& end.contents(ino, end.fetched_from(after, ino)) == Ok::<Seq<u8>, i32>(data)
            &&& fs.contents(ino, fs.fetched_from(disk, ino)) == Ok::<Seq<u8>, i32>(data)
            &&& end.entry_of(ino) matches Some(entry) && entry.size == data.len() && if data.len()
                == 0 {
                entry.blobs.len() == 0
            } else {
                entry.blobs.len() == 1 && entry.blobs[0].offset == 0 && entry.blobs[0].len
                    == data.len()
            }
            &&& end.getattr(ino, owner) is Ok
            &&& end.getattr(ino, owner)->Ok_0.size == data.len()
            &&& end.entries.dom() == fs.entries.dom()
            &&& forall|name: Seq<char>| #[trigger]
                fs.entries.contains_key(name) && fs.entries[name].ino != ino
                    ==> end.entries.contains_key(name) && end.entries[name] == fs.entries[name]
                    && end.committed(after, name) == fs.committed(disk, name)
        }),
{
    let data = fs.staged[ino];
    let held = holder(fs.entries, ino)->0;
    holder_holds(fs, ino);
    let (end, kept) = lemma_installed(fs, ino, disk, encode);
    granted_change_is_finished(end, TaskView::Finish, kept, encode);
    let ops = metadata_steps(fs.store_dir);
    let json = encode(end.metadata());
    let after = after_steps(kept, ops, json);
    let k = ops.len() as int;
    all_steps_are_cut_off_last(kept, ops, json);
    metadata_is_replaced_atomically(kept, fs.store_dir, json, k, after);
    replacing_metadata_spares_contents(end, kept, json, k, after);
    assert(end.entries.dom().contains(held));
    assert(end.entries.contains_key(held));
    assert(end.entries[held].ino == ino);
    assert(fs.entry_is_consistent(fs.entries[held]));
    contents_are_committed(end, after, held);
    holder_of_consistent(end, held);
    let entry = end.entries[held];
    assert(end.entry_is_consistent(entry));
    assert(fits(entry, end.fetched_from(after, ino)->Ok_0)) by {
        if entry.size > 0 {
            let n = choose|n: nat|
                1 <= n < end.next_blob && entry.blobs[0].blob == #[trigger] blob_name_of(n);
            metadata_file_is_no_blob(fs.store_dir, n);
            assert(same_file(kept, after, end.blob_path(blob_name_of(n))));
        }
        assert(end.fetched_from(after, ino)->Ok_0 =~= blobs_on(kept, end.store_dir, entry.blobs));
    }
    assert forall|name: Seq<char>| #[trigger]
        fs.entries.contains_key(name) && fs.entries[name].ino != ino implies end.entries.contains_key(
        name,
    ) && end.entries[name] == fs.entries[name] && end.committed(after, name) == fs.committed(
        disk,
        name,
    ) by {
        assert(end.entries.dom().contains(name));
        assert(end.entries[name] == fs.entries[name]);
        assert(end.committed(kept, name) == fs.committed(kept, name));
    }
}

/// After a flush whose steps all end well, the metadata on the disk is that of the filesystem to
/// which the flush led; a store that is opened from it is that filesystem with nothing staged,
/// and what was flushed is read back from it.
pub proof fn flush_is_given_back(fs: FsView, ino: u64, disk: Disk, encode: Encoding, decode: Decoding)
    requires
        fs.consistent(),
        fs.staged.contains_key(ino),
        fs.staged[ino].len() <= isize::MAX,
        fs.staged[ino].len() > 0 ==> fs.next_blob < u64::MAX,
        fs.entry_of(ino) is Some,
        reads_back(encode, decode, fs.flushed(ino, disk, encode).0.metadata()),
    ensures
        ({
            let (end, after, answer) = fs.flushed(ino, disk, encode);
            let (again, step) = FsView::opened_from(fs.store_dir, after, decode);
            &&& answer == Ok::<Reply, i32>(Reply::Empty)
            &&& decode(after[metadata_path_of(fs.store_dir)]) == end.metadata()
            &&& again == end.reopened()
            &&& again.consistent()
            &&& step == StepView::Done(Ok::<Reply, i32>(Reply::Empty))
            &&& again.finished(step, after, encode) == (again, after, Ok::<Reply, i32>(Reply::Empty))
            &&& again.contents(ino, again.fetched_from(after, ino)) == Ok::<Seq<u8>, i32>(
                fs.staged[ino],
            )
        }),
{
    let held = holder(fs.entries, ino)->0;
    holder_holds(fs, ino);
    let (end, kept) = lemma_installed(fs, ino, disk, encode);
    granted_change_is_finished(end, TaskView::Finish, kept, encode);
    let after = fs.flushed(ino, disk, encode).1;
    flush_is_read_back(fs, ino, disk, encode, Owner { uid: 0, gid: 0 });
    committed_metadata_is_given_back(end, TaskView::Finish, kept, after, encode, decode);
    assert(end.entries.dom().contains(held));
    assert(end.entries.contains_key(held));
    contents_are_committed(end, after, held);
    reopening_keeps_consistency(end);
    contents_are_committed(end.reopened(), after, held);
    assert(end.reopened().committed(after, held) == end.committed(after, held));
}

/// A file that was created, renamed or removed, with all steps ending well, is so in the metadata
/// on the disk: a store that is opened from it is the filesystem to which the request led, with
/// nothing staged.
pub proof fn directory_changes_are_given_back(
    fs: FsView,
    parent: u64,
    name: Option<Seq<char>>,
    newparent: u64,
    newname: Option<Seq<char>>,
    flags: u32,
    mode: u32,
    owner: Owner,
    disk: Disk,
    encode: Encoding,
    decode: Decoding,
)
    ensures
        is_given_back(fs.create(parent, name, mode, owner), disk, encode, decode),
        is_given_back(fs.rename(parent, name, newparent, newname, flags), disk, encode, decode),
        is_given_back(fs.unlink(parent, name), disk, encode, decode),
{
    lemma_is_given_back(fs.create(parent, name, mode, owner), disk, encode, decode);
    lemma_is_given_back(
        fs.rename(parent, name, newparent, newname, flags),
        disk,
        encode,
        decode,
    );
    lemma_is_given_back(fs.unlink(parent, name), disk, encode, decode);
}

/// The request that led to `to` is answered at once with an error, and nothing is changed on the
/// disk; or it is granted, and the metadata on the disk is that of the filesystem it led to, which
/// opening the store then gives, with nothing staged.
pub open spec fn is_given_back(
    to: (FsView, StepView),
    disk: Disk,
    encode: Encoding,
    decode: Decoding,
) -> bool {
    let (next, step) = to;
    let (end, after, answer) = next.finished(step, disk, encode);
    &&& end == next
    &&& if step is Done {
        answer is Err && after == disk
    } else {
        &&& answer is Ok
        &&& after[metadata_path_of(next.store_dir)] == encode(next.metadata()) + line_end()
        &&& reads_back(encode, decode, next.metadata()) ==> FsView::opened_from(
            next.store_dir,
            after,
            decode,
        ) == (next.reopened(), StepView::Done(Ok::<Reply, i32>(Reply::Empty)))
    }
}

proof fn lemma_is_given_back(
    to: (FsView, StepView),
    disk: Disk,
    encode: Encoding,
    decode: Decoding,
)
    requires
        match to.1 {
            StepView::Done(answer) => answer is Err,
            StepView::Perform { ops, then } => (then is Finish || then is Create)
                && ops == metadata_steps(to.0.store_dir),
        },
    ensures
        is_given_back(to, disk, encode, decode),
{
    let (next, step) = to;
    if step is Perform {
        let json = encode(next.metadata());
        let after = after_steps(disk, step->ops, json);
        granted_change_is_finished(next, step->then, disk, encode);
        all_steps_are_cut_off_last(disk, step->ops, json);
        metadata_is_replaced_atomically(
            disk,
            next.store_dir,
            json,
            step->ops.len() as int,
            after,
        );
    }
}

/// Wherever a flush is cut off, be it in the middle of a write, the disk holds the old metadata
/// and the old bytes of every file, or the new metadata, the new bytes of the file that was
/// flushed and the old bytes of every other file.
pub proof fn flush_is_atomic(
    fs: FsView,
    ino: u64,
    disk: Disk,
    encode: Encoding,
    j: int,
    during: Disk,
    k: int,
    now: Disk,
)
    requires
        fs.consistent(),
        fs.staged.contains_key(ino),
        0 < fs.staged[ino].len() <= u64::MAX,
        fs.next_blob < u64::MAX,
        fs.entry_of(ino) is Some,
        ({
            let (mid, step) = fs.flush(ino);
            let (end, rest) = mid.resume(step->then, Ok(()));
            let json = encode(mid.metadata());
            &&& cut_off(disk, step->ops, json, j, during)
            &&& cut_off(
                after_steps(disk, step->ops, json),
                rest->ops,
                encode(end.metadata()),
                k,
                now,
            )
        }),
    ensures
        ({
            let data = fs.staged[ino];
            let (mid, step) = fs.flush(ino);
            let (end, rest) = mid.resume(step->then, Ok(()));
            let metadata = metadata_path_of(fs.store_dir);
            &&& step is Perform
            &&& same_file(disk, during, metadata)
            &&& forall|name: Seq<char>| #[trigger]
                fs.entries.contains_key(name) ==> fs.committed(during, name) == fs.committed(
                    disk,
                    name,
                )
            &&& rest == StepView::Perform {
                ops: metadata_steps(fs.store_dir),
                then: TaskView::Finish,
            }
            &&& k < 6 ==> same_file(disk, now, metadata)
            &&& k < 6 ==> forall|name: Seq<char>| #[trigger]
                fs.entries.contains_key(name) ==> fs.committed(now, name) == fs.committed(disk, name)
            &&& k >= 6 ==> now[metadata] == encode(end.metadata()) + line_end()
            &&& k >= 6 ==> forall|name: Seq<char>| #[trigger]
                end.entries.contains_key(name) ==> end.committed(now, name) == if end.entries[name].ino
                    == ino {
                    data
                } else {
                    fs.committed(disk, name)
                }
        }),
{
    let data = fs.staged[ino];
    let held = holder(fs.entries, ino)->0;
    holder_holds(fs, ino);
    let taken = fs.without_staged(ino);
    taking_staged_keeps_consistency(fs, ino);
    let (mid, step) = fs.flush(ino);
    keeping_a_blob_spares_what_is_committed(
        taken,
        disk,
        data,
        encode(mid.metadata()),
        j,
        during,
    );
    assert forall|name: Seq<char>| #[trigger] fs.entries.contains_key(name) implies fs.committed(
        during,
        name,
    ) == fs.committed(disk, name) by {
        assert(taken.entries.contains_key(name));
    }
    let (end, kept) = lemma_installed(fs, ino, disk, encode);
    let json = encode(end.metadata());
    metadata_is_replaced_atomically(kept, fs.store_dir, json, k, now);
    replacing_metadata_spares_contents(fs, kept, json, k, now);
    replacing_metadata_spares_contents(end, kept, json, k, now);
    assert forall|name: Seq<char>| #[trigger] end.entries.contains_key(name) implies end.committed(
        now,
        name,
    ) == if end.entries[name].ino == ino {
        data
    } else {
        fs.committed(disk, name)
    } by {
        assert(end.entries.dom().contains(name));
        assert(fs.entries.contains_key(name));
        if name != held {
            assert(end.entries[name] == fs.entries[name]);
            assert(end.committed(kept, name) == fs.committed(kept, name));
        }
    }
}

/// The same holds where a file was made empty: wherever its flush is cut off, the disk holds the
/// old metadata and the old bytes of every file, or the new metadata, in which the file is empty,
/// and the old bytes of every other file.
pub proof fn flush_of_empty_file_is_atomic(
    fs: FsView,
    ino: u64,
    disk: Disk,
    encode: Encoding,
    k: int,
    now: Disk,
)
    requires
        fs.consistent(),
        fs.staged.contains_key(ino),
        fs.staged[ino].len() == 0,
        fs.entry_of(ino) is Some,
        cut_off(disk, fs.flush(ino).1->ops, encode(fs.flush(ino).0.metadata()), k, now),
    ensures
        ({
            let (end, step) = fs.flush(ino);
            let metadata = metadata_path_of(fs.store_dir);
            &&& step == StepView::Perform {
                ops: metadata_steps(fs.store_dir),
                then: TaskView::Finish,
            }
            &&& k < 6 ==> same_file(disk, now, metadata)
            &&& k < 6 ==> forall|name: Seq<char>| #[trigger]
                fs.entries.contains_key(name) ==> fs.committed(now, name) == fs.committed(disk, name)
            &&& k >= 6 ==> now[metadata] == encode(end.metadata()) + line_end()
            &&& k >= 6 ==> forall|name: Seq<char>| #[trigger]
                end.entries.contains_key(name) ==> end.committed(now, name) == if end.entries[name].ino
                    == ino {
                    Seq::<u8>::empty()
                } else {
                    fs.committed(disk, name)
                }
        }),
{
    let held = holder(fs.entries, ino)->0;
    holder_holds(fs, ino);
    let (end, kept) = lemma_installed(fs, ino, disk, encode);
    let json = encode(end.metadata());
    metadata_is_replaced_atomically(disk, fs.store_dir, json, k, now);
    replacing_metadata_spares_contents(fs, disk, json, k, now);
    replacing_metadata_spares_contents(end, disk, json, k, now);
    assert forall|name: Seq<char>| #[trigger] end.entries.contains_key(name) implies end.committed(
        now,
        name,
    ) == if end.entries[name].ino == ino {
        Seq::<u8>::empty()
    } else {
        fs.committed(disk, name)
    } by {
        assert(end.entries.dom().contains(name));
        assert(fs.entries.contains_key(name));
        if name != held {
            assert(end.entries[name] == fs.entries[name]);
            assert(end.committed(disk, name) == fs.committed(disk, name));
        }
    }
}

/// An fsync and a flush of the same file lead to the same filesystem, the same steps, the same
/// disk and the same answer, however each of the steps ends, and whether or not only the bytes
/// were asked for.
pub proof fn fsync_is_flush(
    fs: FsView,
    ino: u64,
    datasync: bool,
    disk: Disk,
    encode: Encoding,
    raw: Option<i32>,
)
    ensures
        fs.fsync(ino, datasync) == fs.flush(ino),
        fs.flush(ino) == fs.commit_inode(ino),
        ({
            let (a, first) = fs.fsync(ino, datasync);
            let (b, second) = fs.flush(ino);
            &&& a.finished(first, disk, encode) == b.finished(second, disk, encode)
            &&& first is Perform ==> a.resume(first->then, Err(raw)) == (
                a,
                StepView::Done(Err::<Reply, i32>(errno_of(raw))),
            )
            &&& first is Perform ==> a.resume(first->then, Ok(())) == b.resume(second->then, Ok(()))
            &&& second is Perform ==> b.resume(second->then, Err(raw)) == (
                b,
                StepView::Done(Err::<Reply, i32>(errno_of(raw))),
            )
        }),
{
}

impl FsView {
    /// The blob of the file, unless it is empty, is on the disk and holds its bytes, which are no
    /// more than memory can hold.
    pub open spec fn file_is_on(self, disk: Disk, entry: EntryView) -> bool {
        &&& entry.size <= isize::MAX
        &&& entry.size > 0 ==> {
            let path = self.blob_path(entry.blobs[0].blob);
            disk.contains_key(path) && disk[path].len() == entry.size
        }
    }

    /// The blobs of all files are on the disk.
    pub open spec fn is_on(self, disk: Disk) -> bool {
        forall|name: Seq<char>| #[trigger]
            self.entries.contains_key(name) ==> self.file_is_on(disk, self.entries[name])
    }
}

/// Where every blob is on the disk, every file can be read, and has the size that is reported.
pub proof fn files_on_disk_can_be_read(fs: FsView, disk: Disk, name: Seq<char>)
    requires
        fs.consistent(),
        fs.is_on(disk),
        fs.entries.contains_key(name),
    ensures
        ({
            let ino = fs.entries[name].ino;
            &&& fs.readable(ino, fs.fetched_from(disk, ino))
            &&& fs.contents(ino, fs.fetched_from(disk, ino)) is Ok
            &&& !fs.staged.contains_key(ino) ==> (fs.contents(
                ino,
                fs.fetched_from(disk, ino),
            )->Ok_0).len() == fs.entries[name].size
        }),
{
    let entry = fs.entries[name];
    let ino = entry.ino;
    assert(fs.entry_is_consistent(entry));
    holder_of_consistent(fs, name);
    if !fs.staged.contains_key(ino) {
        let blobs = fs.fetched_from(disk, ino)->Ok_0;
        assert(blobs.len() == entry.blobs.len());
        assert(fits(entry, blobs));
        assembled_has_size(entry, blobs);
    }
}

proof fn lemma_stays_on_disk(fs: FsView, before: Disk, now: Disk)
    requires
        fs.consistent(),
        fs.is_on(before),
        forall|n: nat|
            1 <= n < fs.next_blob ==> same_file(
                before,
                now,
                fs.blob_path(#[trigger] blob_name_of(n)),
            ),
    ensures
        fs.is_on(now),
{
    assert forall|name: Seq<char>| #[trigger] fs.entries.contains_key(name) implies fs.file_is_on(
        now,
        fs.entries[name],
    ) by {
        let entry = fs.entries[name];
        assert(fs.entry_is_consistent(entry));
        if entry.size > 0 {
            let n = choose|n: nat|
                1 <= n < fs.next_blob && entry.blobs[0].blob == #[trigger] blob_name_of(n);
            assert(same_file(before, now, fs.blob_path(blob_name_of(n))));
        }
    }
}

/// Wherever replacing the metadata is cut off, the blobs of all files are on the disk.
pub proof fn replacing_metadata_keeps_files_on_disk(
    fs: FsView,
    disk: Disk,
    json: Seq<u8>,
    k: int,
    now: Disk,
)
    requires
        fs.consistent(),
        fs.is_on(disk),
        cut_off(disk, metadata_steps(fs.store_dir), json, k, now),
    ensures
        fs.is_on(now),
{
    metadata_is_replaced_atomically(disk, fs.store_dir, json, k, now);
    assert forall|n: nat| 1 <= n < fs.next_blob implies same_file(
        disk,
        now,
        fs.blob_path(#[trigger] blob_name_of(n)),
    ) by {
        metadata_file_is_no_blob(fs.store_dir, n);
    }
    lemma_stays_on_disk(fs, disk, now);
}

/// Wherever keeping a new blob is cut off, the blobs of all files are on the disk.
pub proof fn keeping_a_blob_keeps_files_on_disk(
    fs: FsView,
    disk: Disk,
    data: Seq<u8>,
    json: Seq<u8>,
    k: int,
    now: Disk,
)
    requires
        fs.consistent(),
        fs.is_on(disk),
        cut_off(disk, fs.put_blob(data).2, json, k, now),
    ensures
        fs.put_blob(data).0.is_on(now),
{
    let next = fs.put_blob(data).0;
    lemma_blobs_stay(fs, disk, data, json, k, now);
    lemma_stays_on_disk(fs, disk, now);
    assert forall|name: Seq<char>| #[trigger] next.entries.contains_key(name) implies next.file_is_on(
        now,
        next.entries[name],
    ) by {
        assert(fs.entries.contains_key(name));
    }
}

/// Wherever a flush is cut off while the metadata is being replaced, the blobs of all files are on
/// the disk.
pub proof fn cut_off_flush_keeps_files_on_disk(
    fs: FsView,
    ino: u64,
    disk: Disk,
    encode: Encoding,
    k: int,
    now: Disk,
)
    requires
        fs.consistent(),
        fs.is_on(disk),
        fs.staged.contains_key(ino),
        0 < fs.staged[ino].len() <= isize::MAX,
        fs.next_blob < u64::MAX,
        fs.entry_of(ino) is Some,
        ({
            let (mid, step) = fs.flush(ino);
            let (end, rest) = mid.resume(step->then, Ok(()));
            cut_off(
                after_steps(disk, step->ops, encode(mid.metadata())),
                rest->ops,
                encode(end.metadata()),
                k,
                now,
            )
        }),
    ensures
        ({
            let (mid, step) = fs.flush(ino);
            mid.resume(step->then, Ok(())).0.is_on(now)
        }),
{
    let (end, kept) = lemma_installed(fs, ino, disk, encode);
    replacing_metadata_keeps_files_on_disk(end, kept, encode(end.metadata()), k, now);
}

/// After a flush whose steps all end well the blobs of all files are on the disk.
pub proof fn flush_keeps_files_on_disk(fs: FsView, ino: u64, disk: Disk, encode: Encoding)
    requires
        fs.consistent(),
        fs.is_on(disk),
        fs.staged.contains_key(ino),
        fs.staged[ino].len() <= isize::MAX,
        fs.staged[ino].len() > 0 ==> fs.next_blob < u64::MAX,
        fs.entry_of(ino) is Some,
    ensures
        fs.flushed(ino, disk, encode).0.is_on(fs.flushed(ino, disk, encode).1),
{
    let (end, kept) = lemma_installed(fs, ino, disk, encode);
    let json = encode(end.metadata());
    let last = metadata_steps(fs.store_dir);
    all_steps_are_cut_off_last(kept, last, json);
    replacing_metadata_keeps_files_on_disk(
        end,
        kept,
        json,
        last.len() as int,
        after_steps(kept, last, json),
    );
    granted_change_is_finished(end, TaskView::Finish, kept, encode);
}

/// The request that leads from `fs` to `to` is answered at once, or asks for the metadata to be
/// replaced, which is atomic and leaves the bytes of all files as they are.
pub open spec fn changes_atomically(
    fs: FsView,
    to: (FsView, StepView),
    disk: Disk,
    encode: Encoding,
    k: int,
    now: Disk,
) -> bool {
    let (next, step) = to;
    let metadata = metadata_path_of(fs.store_dir);
    let json = encode(next.metadata());
    step is Perform ==> {
        &&& step->ops == metadata_steps(fs.store_dir)
        &&& cut_off(disk, step->ops, json, k, now) ==> {
            &&& if k < 6 {
                same_file(disk, now, metadata)
            } else {
                now[metadata] == json + line_end()
            }
            &&& fs.is_on(now)
            &&& next.is_on(now)
            &&& forall|n: Seq<char>| #[trigger]
                fs.entries.contains_key(n) ==> fs.committed(now, n) == fs.committed(disk, n)
            &&& forall|n: Seq<char>| #[trigger]
                next.entries.contains_key(n) ==> next.committed(now, n) == next.committed(disk, n)
        }
    }
}

/// A request to create, rename or remove a file asks for nothing but that the metadata be
/// replaced; wherever that is cut off, the disk holds the old metadata or the new, and the bytes
/// of the files that either tells of.
pub proof fn directory_changes_are_atomic(
    fs: FsView,
    parent: u64,
    name: Option<Seq<char>>,
    newparent: u64,
    newname: Option<Seq<char>>,
    flags: u32,
    mode: u32,
    owner: Owner,
    disk: Disk,
    encode: Encoding,
    k: int,
    now: Disk,
)
    requires
        fs.consistent(),
        fs.is_on(disk),
        fs.creates(parent, name) ==> fs.next_inode < u64::MAX,
    ensures
        changes_atomically(fs, fs.create(parent, name, mode, owner), disk, encode, k, now),
        changes_atomically(
            fs,
            fs.rename(parent, name, newparent, newname, flags),
            disk,
            encode,
            k,
            now,
        ),
        changes_atomically(fs, fs.unlink(parent, name), disk, encode, k, now),
{
    create_keeps_consistency(fs, parent, name, mode, owner);
    lemma_changes_atomically(fs, fs.create(parent, name, mode, owner), disk, encode, k, now);
    rename_keeps_consistency(fs, parent, name, newparent, newname, flags);
    lemma_changes_atomically(
        fs,
        fs.rename(parent, name, newparent, newname, flags),
        disk,
        encode,
        k,
        now,
    );
    unlink_keeps_consistency(fs, parent, name);
    lemma_changes_atomically(fs, fs.unlink(parent, name), disk, encode, k, now);
}

proof fn lemma_changes_atomically(
    fs: FsView,
    to: (FsView, StepView),
    disk: Disk,
    encode: Encoding,
    k: int,
    now: Disk,
)
    requires
        fs.consistent(),
        fs.is_on(disk),
        to.0.consistent(),
        to.0.store_dir == fs.store_dir,
        to.1 is Perform ==> to.1->ops == metadata_steps(fs.store_dir),
        forall|n: Seq<char>| #[trigger]
            to.0.entries.contains_key(n) ==> to.0.entries[n].size == 0 || exists|o: Seq<char>| #[trigger]
                fs.entries.contains_key(o) && fs.entries[o] == to.0.entries[n],
    ensures
        changes_atomically(fs, to, disk, encode, k, now),
{
    let next = to.0;
    let json = encode(next.metadata());
    if cut_off(disk, metadata_steps(fs.store_dir), json, k, now) {
        assert forall|name: Seq<char>| #[trigger] next.entries.contains_key(name) implies next.file_is_on(
            disk,
            next.entries[name],
        ) by {
            if next.entries[name].size > 0 {
                let o = choose|o: Seq<char>| #[trigger]
                    fs.entries.contains_key(o) && fs.entries[o] == next.entries[name];
                assert(fs.entries.contains_key(o));
            }
        }
        metadata_is_replaced_atomically(disk, fs.store_dir, json, k, now);
        replacing_metadata_spares_contents(fs, disk, json, k, now);
        replacing_metadata_spares_contents(next, disk, json, k, now);
        replacing_metadata_keeps_files_on_disk(fs, disk, json, k, now);
        replacing_metadata_keeps_files_on_disk(next, disk, json, k, now);
    }
}

/// A new store whose steps all end well holds the text of its first file and an empty second
/// file, and nothing else; opening it again gives the same.
pub proof fn new_store_holds_first_files(
    store_dir: Seq<char>,
    disk: Disk,
    encode: Encoding,
    decode: Decoding,
)
    requires
        ({
            let (next, step) = FsView::open(store_dir, None);
            reads_back(encode, decode, next.finished(step, disk, encode).0.metadata())
        }),
    ensures
        ({
            let (next, step) = FsView::open(store_dir, None);
            let (end, after, answer) = next.finished(step, disk, encode);
            &&& answer == Ok::<Reply, i32>(Reply::Empty)
            &&& end.consistent()
            &&& end.is_on(after)
            &&& end.entries.dom() == set!["hello.txt"@, "notes.txt"@]
            &&& end.committed(after, "hello.txt"@) == hello_text()
            &&& end.committed(after, "notes.txt"@) == Seq::<u8>::empty()
            &&& end.staged == Map::<u64, Seq<u8>>::empty()
            &&& FsView::opened_from(store_dir, after, decode) == (
                end,
                StepView::Done(Ok::<Reply, i32>(Reply::Empty)),
            )
        }),
{
    let fresh = FsView::fresh(store_dir);
    fresh_is_consistent(store_dir);
    bootstrap_keeps_consistency(fresh);
    let (next, step) = fresh.bootstrap();
    let (_, blob, ops) = fresh.put_blob(hello_text());
    let task = TaskView::Bootstrap { blob };
    resume_keeps_consistency(next, task, Ok(()));
    let end = next.bootstrapped(blob);
    let first = encode(next.metadata());
    let kept = after_steps(disk, ops, first);
    all_steps_are_cut_off_last(disk, ops, first);
    lemma_blobs_stay(fresh, disk, hello_text(), first, ops.len() as int, kept);
    granted_change_is_finished(end, TaskView::Finish, kept, encode);
    let last = metadata_steps(store_dir);
    let json = encode(end.metadata());
    let after = after_steps(kept, last, json);
    all_steps_are_cut_off_last(kept, last, json);
    replacing_metadata_spares_contents(end, kept, json, last.len() as int, after);
    committed_metadata_is_given_back(end, TaskView::Finish, kept, after, encode, decode);
    reveal_strlit("hello.txt");
    reveal_strlit("notes.txt");
    assert("hello.txt"@[0] != "notes.txt"@[0]);
    assert(end.entries.dom() =~= set!["hello.txt"@, "notes.txt"@]);
    assert(end.entries.contains_key("hello.txt"@));
    assert(end.entries.contains_key("notes.txt"@));
    hello_text_has_35_bytes();
    whole_file_is_its_blob(blob, hello_text());
    assert(blobs_on(kept, store_dir, whole(blob, hello_text().len() as u64)) =~= seq![hello_text()]);
    assert(end.committed(kept, "notes.txt"@) =~= Seq::<u8>::empty());
    assert(end.is_on(kept));
    replacing_metadata_keeps_files_on_disk(end, kept, json, last.len() as int, after);
    assert(end.reopened() =~= end);
}

/// Wherever the opening of a new store is cut off, the disk holds no metadata, so that the next
/// opening starts anew; or the metadata of the new store, and the blobs of its files.
pub proof fn new_store_is_atomic(
    store_dir: Seq<char>,
    disk: Disk,
    encode: Encoding,
    j: int,
    during: Disk,
    k: int,
    now: Disk,
)
    requires
        !disk.contains_key(metadata_path_of(store_dir)),
        ({
            let (next, step) = FsView::open(store_dir, None);
            let (end, rest) = next.resume(step->then, Ok(()));
            let json = encode(next.metadata());
            &&& cut_off(disk, step->ops, json, j, during)
            &&& cut_off(
                after_steps(disk, step->ops, json),
                rest->ops,
                encode(end.metadata()),
                k,
                now,
            )
        }),
    ensures
        ({
            let (next, step) = FsView::open(store_dir, None);
            let (end, rest) = next.resume(step->then, Ok(()));
            let metadata = metadata_path_of(store_dir);
            &&& !during.contains_key(metadata)
            &&& k < 6 ==> !now.contains_key(metadata)
            &&& k >= 6 ==> now.contains_key(metadata) && now[metadata] == encode(end.metadata())
                + line_end()
            &&& end.is_on(now)
        }),
{
    let fresh = FsView::fresh(store_dir);
    fresh_is_consistent(store_dir);
    bootstrap_keeps_consistency(fresh);
    let (next, step) = fresh.bootstrap();
    let (end, rest) = next.resume(step->then, Ok(()));
    resume_keeps_consistency(next, step->then, Ok(()));
    let first = encode(next.metadata());
    let kept = after_steps(disk, step->ops, first);
    keeping_a_blob_spares_what_is_committed(fresh, disk, hello_text(), first, j, during);
    all_steps_are_cut_off_last(disk, step->ops, first);
    let n = step->ops.len() as int;
    keeping_a_blob_spares_what_is_committed(fresh, disk, hello_text(), first, n, kept);
    lemma_blobs_stay(fresh, disk, hello_text(), first, n, kept);
    hello_text_has_35_bytes();
    assert(end.is_on(kept));
    let json = encode(end.metadata());
    metadata_is_replaced_atomically(kept, store_dir, json, k, now);
    replacing_metadata_keeps_files_on_disk(end, kept, json, k, now);
}

} // verus!
