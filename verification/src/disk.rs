//! The files of the store on the disk, while steps are taken and after them. A step that is done
//! stays done here: what a power loss may undo is told in [`crate::media`].

use vstd::prelude::*;
use crate::directory::BlobRefView;
use crate::names::{blob_name_of, blob_names_are_distinct, decimal, digit, joined};
use crate::store::{blob_dir_of, blob_path_of, blob_steps, blobs_dir_of, line_end};
use crate::store::{metadata_path_of, metadata_steps, scratch_of, FileOpView};

verus! {

/// The files of the store: what each holds.
pub type Disk = Map<Seq<char>, Seq<u8>>;

/// The disk after one step, where `json` is the metadata in the form in which it is written.
pub open spec fn after_step(disk: Disk, op: FileOpView, json: Seq<u8>) -> Disk {
    match op {
        FileOpView::Create { path } => disk.insert(path, Seq::empty()),
        FileOpView::Write { path, data } => disk.insert(path, disk[path] + data),
        FileOpView::WriteMetadata { path } => disk.insert(path, disk[path] + json),
        FileOpView::Rename { from, to } => disk.remove(from).insert(to, disk[from]),
        _ => disk,
    }
}

/// The disk after a list of steps.
pub open spec fn after_steps(disk: Disk, ops: Seq<FileOpView>, json: Seq<u8>) -> Disk
    decreases ops.len(),
{
    if ops.len() == 0 {
        disk
    } else {
        after_step(after_steps(disk, ops.drop_last(), json), ops.last(), json)
    }
}

/// The two disks hold the same under `path`.
pub open spec fn same_file(a: Disk, b: Disk, path: Seq<char>) -> bool {
    &&& a.contains_key(path) == b.contains_key(path)
    &&& a[path] == b[path]
}

/// The file that a step writes to. Until the step is done, it may hold anything.
pub open spec fn written_by(op: FileOpView) -> Option<Seq<char>> {
    match op {
        FileOpView::Create { path } => Some(path),
        FileOpView::Write { path, data } => Some(path),
        FileOpView::WriteMetadata { path } => Some(path),
        _ => None,
    }
}

/// `now` is what the disk may hold when the steps `ops` are cut off after `k` whole steps and any
/// part of the next.
pub open spec fn cut_off(disk: Disk, ops: Seq<FileOpView>, json: Seq<u8>, k: int, now: Disk) -> bool {
    let done = after_steps(disk, ops.take(k), json);
    &&& 0 <= k <= ops.len()
    &&& forall|path: Seq<char>|
        k < ops.len() && written_by(ops[k]) == Some(path) || #[trigger] same_file(done, now, path)
}

/// What the blobs that `refs` name hold, where the disk is `disk`.
pub open spec fn blobs_on(disk: Disk, store_dir: Seq<char>, refs: Seq<BlobRefView>) -> Seq<Seq<u8>> {
    refs.map_values(|b: BlobRefView| disk[blob_path_of(store_dir, b.blob)])
}

/// Steps that are all done are steps that are cut off after the last.
pub proof fn all_steps_are_cut_off_last(disk: Disk, ops: Seq<FileOpView>, json: Seq<u8>)
    ensures
        cut_off(disk, ops, json, ops.len() as int, after_steps(disk, ops, json)),
{
    assert(ops.take(ops.len() as int) =~= ops);
}

proof fn lemma_take_step(disk: Disk, ops: Seq<FileOpView>, json: Seq<u8>, k: int)
    requires
        0 <= k < ops.len(),
    ensures
        after_steps(disk, ops.take(k + 1), json) == after_step(
            after_steps(disk, ops.take(k), json),
            ops[k],
            json,
        ),
{
    assert(ops.take(k + 1).drop_last() =~= ops.take(k));
}

/// Wherever keeping a blob is cut off, the file of the blob is what it was before or holds all
/// its bytes, and nothing else has changed but the file in which its bytes are gathered.
pub proof fn blob_is_kept_atomically(
    disk: Disk,
    blobs: Seq<char>,
    dir: Seq<char>,
    path: Seq<char>,
    data: Seq<u8>,
    json: Seq<u8>,
    k: int,
    now: Disk,
)
    requires
        cut_off(disk, blob_steps(blobs, dir, path, data), json, k, now),
    ensures
        k < 5 ==> same_file(disk, now, path),
        k >= 5 ==> now.contains_key(path) && now[path] == data,
        forall|other: Seq<char>|
            other != path && other != scratch_of(path) ==> #[trigger] same_file(disk, now, other),
{
    let ops = blob_steps(blobs, dir, path, data);
    let done = after_steps(disk, ops.take(k), json);
    scratch_file_differs(path);
    assert(ops.take(0) =~= Seq::empty());
    lemma_take_step(disk, ops, json, 0);
    lemma_take_step(disk, ops, json, 1);
    lemma_take_step(disk, ops, json, 2);
    lemma_take_step(disk, ops, json, 3);
    lemma_take_step(disk, ops, json, 4);
    lemma_take_step(disk, ops, json, 5);
    lemma_take_step(disk, ops, json, 6);
    assert(Seq::<u8>::empty() + data =~= data);
    assert(k == 0 || k == 1 || k == 2 || k == 3 || k == 4 || k == 5 || k == 6 || k == 7);
    assert(same_file(done, now, path));
    assert forall|other: Seq<char>|
        other != path && other != scratch_of(path) implies #[trigger] same_file(disk, now, other) by {
        assert(same_file(done, now, other));
    }
}

/// Wherever replacing the metadata is cut off, the metadata file is what it was before or holds
/// the new metadata complete, and nothing else has changed but the file in which it is gathered.
pub proof fn metadata_is_replaced_atomically(
    disk: Disk,
    store_dir: Seq<char>,
    json: Seq<u8>,
    k: int,
    now: Disk,
)
    requires
        cut_off(disk, metadata_steps(store_dir), json, k, now),
    ensures
        ({
            let path = metadata_path_of(store_dir);
            &&& k < 6 ==> same_file(disk, now, path)
            &&& k >= 6 ==> now.contains_key(path) && now[path] == json + line_end()
            &&& forall|other: Seq<char>|
                other != path && other != scratch_of(path) ==> #[trigger] same_file(disk, now, other)
        }),
{
    let ops = metadata_steps(store_dir);
    let path = metadata_path_of(store_dir);
    let done = after_steps(disk, ops.take(k), json);
    scratch_file_differs(path);
    assert(ops.take(0) =~= Seq::empty());
    lemma_take_step(disk, ops, json, 0);
    lemma_take_step(disk, ops, json, 1);
    lemma_take_step(disk, ops, json, 2);
    lemma_take_step(disk, ops, json, 3);
    lemma_take_step(disk, ops, json, 4);
    lemma_take_step(disk, ops, json, 5);
    lemma_take_step(disk, ops, json, 6);
    assert(Seq::<u8>::empty() + json =~= json);
    assert(k == 0 || k == 1 || k == 2 || k == 3 || k == 4 || k == 5 || k == 6 || k == 7);
    assert(same_file(done, now, path));
    assert forall|other: Seq<char>|
        other != path && other != scratch_of(path) implies #[trigger] same_file(disk, now, other) by {
        assert(same_file(done, now, other));
    }
}

/// The file in which bytes are gathered is another than the one they are gathered for.
pub proof fn scratch_file_differs(path: Seq<char>)
    ensures
        scratch_of(path) != path,
{
    reveal_strlit(".tmp");
    assert(scratch_of(path).len() == path.len() + 4);
}

/// What stands before a relative path that is taken from `dir`.
spec fn lead(dir: Seq<char>) -> Seq<char> {
    if dir.len() == 0 || dir.last() == '/' {
        dir
    } else {
        dir.push('/')
    }
}

/// What stands before the name of a blob that was handed out, in the path of its file.
spec fn blob_front(store_dir: Seq<char>) -> Seq<char> {
    lead(store_dir) + "blobs"@.push('/') + seq!['b', 'l', '/']
}

proof fn lemma_joined(dir: Seq<char>, part: Seq<char>)
    requires
        part.len() > 0,
        part[0] != '/',
    ensures
        joined(dir, part) == lead(dir) + part,
{
}

proof fn lemma_blob_path(store_dir: Seq<char>, n: nat)
    ensures
        blob_path_of(store_dir, blob_name_of(n)) == blob_front(store_dir) + blob_name_of(n),
        "blobs"@.len() == 5,
        "blobs"@[0] == 'b',
{
    reveal_strlit("blobs");
    let blob = blob_name_of(n);
    let shard = blob.take(2);
    lemma_joined(store_dir, "blobs"@);
    assert(blobs_dir_of(store_dir).last() == 's');
    assert(shard =~= seq!['b', 'l']);
    lemma_joined(blobs_dir_of(store_dir), shard);
    assert(blob_dir_of(store_dir, blob).last() == 'l');
    lemma_joined(blob_dir_of(store_dir, blob), blob);
    assert(lead(blob_dir_of(store_dir, blob)) =~= blob_front(store_dir));
}

proof fn lemma_blob_name_ends_in_digit(n: nat)
    ensures
        blob_name_of(n).len() > 0,
        blob_name_of(n).last() != 'p',
{
    assert(decimal(n).len() > 0);
    assert(blob_name_of(n).last() == decimal(n).last());
    assert(decimal(n).last() == digit(n % 10));
}

/// The files of two blobs with different numbers are different, and neither is the one in which
/// the bytes of the other are gathered.
pub proof fn blob_files_are_distinct(store_dir: Seq<char>, m: nat, n: nat)
    ensures
        blob_path_of(store_dir, blob_name_of(m)) == blob_path_of(store_dir, blob_name_of(n)) ==> m
            == n,
        blob_path_of(store_dir, blob_name_of(m)) != scratch_of(
            blob_path_of(store_dir, blob_name_of(n)),
        ),
{
    lemma_blob_path(store_dir, m);
    lemma_blob_path(store_dir, n);
    let front = blob_front(store_dir);
    let a = blob_path_of(store_dir, blob_name_of(m));
    let b = blob_path_of(store_dir, blob_name_of(n));
    if a == b {
        assert(blob_name_of(m) =~= a.skip(front.len() as int));
        assert(blob_name_of(n) =~= b.skip(front.len() as int));
        if m != n {
            blob_names_are_distinct(m, n);
        }
    }
    lemma_blob_name_ends_in_digit(m);
    reveal_strlit(".tmp");
    assert(a.last() == blob_name_of(m).last());
    assert(scratch_of(b).last() == 'p');
}

/// The metadata file, and the one in which new metadata is gathered, are neither the file of a
/// blob nor the one in which the bytes of a blob are gathered.
pub proof fn metadata_file_is_no_blob(store_dir: Seq<char>, n: nat)
    ensures
        ({
            let blob = blob_path_of(store_dir, blob_name_of(n));
            let metadata = metadata_path_of(store_dir);
            &&& metadata != blob
            &&& metadata != scratch_of(blob)
            &&& scratch_of(metadata) != blob
            &&& scratch_of(metadata) != scratch_of(blob)
        }),
{
    lemma_blob_path(store_dir, n);
    reveal_strlit("metadata.json");
    lemma_joined(store_dir, "metadata.json"@);
    let at = lead(store_dir).len() as int;
    let blob = blob_path_of(store_dir, blob_name_of(n));
    let metadata = metadata_path_of(store_dir);
    assert(blob[at] == 'b');
    assert(metadata[at] == 'm');
    assert(scratch_of(blob)[at] == 'b');
    assert(scratch_of(metadata)[at] == 'm');
}

} // verus!
