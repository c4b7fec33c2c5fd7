//! What a power loss leaves of the filesystem.

use vstd::prelude::*;
use crate::attr::Owner;
use crate::consistency::{bootstrap_keeps_consistency, fresh_is_consistent, hello_text_has_35_bytes};
use crate::consistency::{commit_keeps_consistency, create_keeps_consistency, holder_holds};
use crate::consistency::{rename_keeps_consistency, resume_keeps_consistency};
use crate::consistency::{taking_staged_keeps_consistency, unlink_keeps_consistency};
use crate::directory::holder;
use crate::disk::{after_steps, all_steps_are_cut_off_last, blob_files_are_distinct};
use crate::disk::{blobs_on, metadata_file_is_no_blob, scratch_file_differs, Disk};
use crate::durability::{flush_is_atomic, replacing_metadata_spares_contents};
use crate::durability::{whole_file_is_its_blob, Encoding};
use crate::media::{blob_is_kept, blob_survives_power_loss, found, is_plain, lies_in, Media};
use crate::media::{metadata_is_kept, metadata_survives_power_loss};
use crate::model::{hello_text, whole, FsView, StepView, TaskView};
use crate::names::{blob_name_of, decimal, joined, zero_padded};
use crate::store::{blob_dir_of, blobs_dir_of, line_end, metadata_path_of, metadata_steps};

verus! {

proof fn lemma_decimal_is_plain(n: nat)
    ensures
        !decimal(n).contains('/'),
    decreases n,
{
    if n >= 10 {
        lemma_decimal_is_plain(n / 10);
        assert forall|i: int| 0 <= i < decimal(n).len() implies decimal(n)[i] != '/' by {
            if i < decimal(n / 10).len() {
                assert(decimal(n / 10).contains(decimal(n / 10)[i]));
            }
        }
    }
}

/// The file of a blob that was handed out lies in the directory of the blob, which lies in the
/// directory of the blobs.
pub proof fn blob_lies_in_its_directory(store_dir: Seq<char>, n: nat)
    ensures
        ({
            let dir = blob_dir_of(store_dir, blob_name_of(n));
            &&& lies_in(joined(dir, blob_name_of(n)), dir)
            &&& lies_in(dir, blobs_dir_of(store_dir))
        }),
{
    let name = blob_name_of(n);
    lemma_decimal_is_plain(n);
    assert forall|i: int| 0 <= i < name.len() implies name[i] != '/' by {
        let digits = decimal(n);
        let at = name.len() - digits.len();
        if i >= at {
            assert(name[i] == digits[i - at]);
            assert(digits.contains(digits[i - at]));
        } else if i >= 5 {
            assert(name[i] == zero_padded(n, 12)[i - 5]);
        }
    }
    assert(is_plain(name));
    let shard = name.take(2);
    assert forall|i: int| 0 <= i < shard.len() implies shard[i] != '/' by {
        assert(shard[i] == name[i]);
    }
    assert(is_plain(shard));
}

impl FsView {
    /// The metadata file, the blobs of all files, and the directories of the store survive a power
    /// loss as they are seen on the disk.
    pub open spec fn rests_on(self, m: Media) -> bool {
        &&& m.wf()
        &&& m.is_clear()
        &&& m.keeps_dir(self.store_dir)
        &&& m.keeps_dir(blobs_dir_of(self.store_dir))
        &&& m.keeps(metadata_path_of(self.store_dir))
        &&& forall|name: Seq<char>| #[trigger]
            self.entries.contains_key(name) && self.entries[name].size > 0 ==> {
                let path = self.blob_path(self.entries[name].blobs[0].blob);
                m.keeps(path) && found(m.seen(), path) is Some
            }
    }
}

/// A file has the same bytes on two disks on which its blob, where it has one, is found alike.
proof fn lemma_committed_is_found(fs: FsView, name: Seq<char>, a: Disk, b: Disk)
    requires
        fs.consistent(),
        fs.entries.contains_key(name),
        fs.entries[name].size > 0 ==> {
            let path = fs.blob_path(fs.entries[name].blobs[0].blob);
            found(a, path) is Some && found(a, path) == found(b, path)
        },
    ensures
        fs.committed(a, name) == fs.committed(b, name),
{
    let entry = fs.entries[name];
    assert(fs.entry_is_consistent(entry));
    assert(blobs_on(a, fs.store_dir, entry.blobs) =~= blobs_on(b, fs.store_dir, entry.blobs));
}

/// Wherever the power fails while the metadata is being replaced, the metadata that is found is the
/// old or the new, complete; and every file has the bytes that it had. Once all the steps are
/// taken, it is the new.
pub proof fn replacing_metadata_survives_power_loss(
    fs: FsView,
    m: Media,
    json: Seq<u8>,
    k: int,
    left: Disk,
)
    requires
        fs.consistent(),
        fs.rests_on(m),
        m.may_leave_disk(metadata_steps(fs.store_dir), json, k, left),
    ensures
        ({
            let metadata = metadata_path_of(fs.store_dir);
            let old = found(m.seen(), metadata);
            let new = Some(json + line_end());
            &&& found(left, metadata) == old || found(left, metadata) == new
            &&& k < 5 ==> found(left, metadata) == old
            &&& k >= 7 ==> found(left, metadata) == new
        }),
        forall|name: Seq<char>| #[trigger]
            fs.entries.contains_key(name) ==> fs.committed(left, name) == fs.committed(
                m.seen(),
                name,
            ),
{
    let ops = metadata_steps(fs.store_dir);
    let metadata = metadata_path_of(fs.store_dir);
    assert(m.may_leave(ops, json, k, metadata, found(left, metadata)));
    scratch_file_differs(metadata);
    metadata_survives_power_loss(m, fs.store_dir, json, k, metadata, found(left, metadata));
    assert forall|name: Seq<char>| #[trigger] fs.entries.contains_key(name) implies fs.committed(
        left,
        name,
    ) == fs.committed(m.seen(), name) by {
        let entry = fs.entries[name];
        assert(fs.entry_is_consistent(entry));
        if entry.size > 0 {
            let path = fs.blob_path(entry.blobs[0].blob);
            let n = choose|n: nat|
                1 <= n < fs.next_blob && entry.blobs[0].blob == #[trigger] blob_name_of(n);
            metadata_file_is_no_blob(fs.store_dir, n);
            assert(m.may_leave(ops, json, k, path, found(left, path)));
            metadata_survives_power_loss(m, fs.store_dir, json, k, path, found(left, path));
            assert(m.may_hold(path, found(left, path)));
        }
        lemma_committed_is_found(fs, name, m.seen(), left);
    }
}

/// Once the metadata has been replaced, all that survived a power loss before does so still.
proof fn lemma_rests_after_metadata(fs: FsView, m: Media, json: Seq<u8>)
    requires
        fs.consistent(),
        fs.rests_on(m),
    ensures
        fs.rests_on(m.after_all(metadata_steps(fs.store_dir), json)),
{
    let end = m.after_all(metadata_steps(fs.store_dir), json);
    metadata_is_kept(m, fs.store_dir, json);
    assert forall|name: Seq<char>| #[trigger]
        fs.entries.contains_key(name) && fs.entries[name].size > 0 implies {
        let path = fs.blob_path(fs.entries[name].blobs[0].blob);
        end.keeps(path) && found(end.seen(), path) is Some
    } by {
        let entry = fs.entries[name];
        assert(fs.entry_is_consistent(entry));
        let n = choose|n: nat|
            1 <= n < fs.next_blob && entry.blobs[0].blob == #[trigger] blob_name_of(n);
        metadata_file_is_no_blob(fs.store_dir, n);
        let path = fs.blob_path(entry.blobs[0].blob);
        assert(m.keeps(path));
        assert(found(end.seen(), path) == found(m.seen(), path));
    }
}

/// Wherever the power fails while a blob is being kept, the metadata that is found is as it was, and
/// every file has the bytes that it had. Once all the steps are taken, the blob survives, and so
/// does all that did before.
pub proof fn keeping_a_blob_survives_power_loss(
    fs: FsView,
    m: Media,
    data: Seq<u8>,
    json: Seq<u8>,
    k: int,
    left: Disk,
)
    requires
        fs.consistent(),
        fs.rests_on(m),
        m.may_leave_disk(fs.put_blob(data).2, json, k, left),
    ensures
        found(left, metadata_path_of(fs.store_dir)) == found(
            m.seen(),
            metadata_path_of(fs.store_dir),
        ),
        forall|name: Seq<char>| #[trigger]
            fs.entries.contains_key(name) ==> fs.committed(left, name) == fs.committed(
                m.seen(),
                name,
            ),
        ({
            let (next, blob, ops) = fs.put_blob(data);
            let end = m.after_all(ops, json);
            &&& end.seen() == after_steps(m.seen(), ops, json)
            &&& next.rests_on(end)
            &&& end.keeps(fs.blob_path(blob))
            &&& found(end.seen(), fs.blob_path(blob)) == Some(data)
        }),
{
    let (next, blob, ops) = fs.put_blob(data);
    let blobs = blobs_dir_of(fs.store_dir);
    let dir = blob_dir_of(fs.store_dir, blob);
    let target = fs.blob_path(blob);
    let metadata = metadata_path_of(fs.store_dir);
    let end = m.after_all(ops, json);
    blob_lies_in_its_directory(fs.store_dir, fs.next_blob as nat);
    metadata_file_is_no_blob(fs.store_dir, fs.next_blob as nat);
    assert(m.may_leave(ops, json, k, metadata, found(left, metadata)));
    blob_survives_power_loss(
        m,
        blobs,
        dir,
        target,
        data,
        json,
        k,
        metadata,
        found(left, metadata),
    );
    blob_is_kept(m, blobs, dir, target, data, json);
    assert(m.keeps(metadata));
    assert forall|name: Seq<char>| #[trigger] fs.entries.contains_key(name) implies fs.committed(
        left,
        name,
    ) == fs.committed(m.seen(), name) && (fs.entries[name].size > 0 ==> {
        let path = fs.blob_path(fs.entries[name].blobs[0].blob);
        end.keeps(path) && found(end.seen(), path) is Some
    }) by {
        let entry = fs.entries[name];
        assert(fs.entry_is_consistent(entry));
        if entry.size > 0 {
            let path = fs.blob_path(entry.blobs[0].blob);
            let n = choose|n: nat|
                1 <= n < fs.next_blob && entry.blobs[0].blob == #[trigger] blob_name_of(n);
            blob_files_are_distinct(fs.store_dir, n, fs.next_blob as nat);
            assert(m.may_leave(ops, json, k, path, found(left, path)));
            blob_survives_power_loss(
                m,
                blobs,
                dir,
                target,
                data,
                json,
                k,
                path,
                found(left, path),
            );
            assert(m.may_hold(path, found(left, path)));
            assert(m.keeps(path));
            assert(found(end.seen(), path) == found(m.seen(), path));
        }
        lemma_committed_is_found(fs, name, m.seen(), left);
    }
    assert forall|name: Seq<char>| #[trigger]
        next.entries.contains_key(name) && next.entries[name].size > 0 implies {
        let path = next.blob_path(next.entries[name].blobs[0].blob);
        end.keeps(path) && found(end.seen(), path) is Some
    } by {
        assert(fs.entries.contains_key(name));
    }
}

/// Wherever the power fails during a flush, what is left is the old metadata and the old bytes of
/// every file, or the new metadata, complete, the new bytes of the file that was flushed and the
/// old bytes of every other file. Once the flush is answered, it is the latter.
pub proof fn flush_survives_power_loss(
    fs: FsView,
    ino: u64,
    m: Media,
    encode: Encoding,
    j: int,
    during: Disk,
    k: int,
    left: Disk,
)
    requires
        fs.consistent(),
        fs.rests_on(m),
        fs.staged.contains_key(ino),
        0 < fs.staged[ino].len() <= u64::MAX,
        fs.next_blob < u64::MAX,
        fs.entry_of(ino) is Some,
        ({
            let (mid, step) = fs.flush(ino);
            let (end, rest) = mid.resume(step->then, Ok(()));
            let json = encode(mid.metadata());
            &&& m.may_leave_disk(step->ops, json, j, during)
            &&& m.after_all(step->ops, json).may_leave_disk(
                rest->ops,
                encode(end.metadata()),
                k,
                left,
            )
        }),
    ensures
        ({
            let data = fs.staged[ino];
            let (mid, step) = fs.flush(ino);
            let (end, rest) = mid.resume(step->then, Ok(()));
            let json = encode(end.metadata());
            let metadata = metadata_path_of(fs.store_dir);
            let old = found(m.seen(), metadata);
            let new = Some(json + line_end());
            let after = m.after_all(step->ops, encode(mid.metadata())).after_all(rest->ops, json);
            &&& step is Perform
            &&& rest == StepView::Perform {
                ops: metadata_steps(fs.store_dir),
                then: TaskView::Finish,
            }
            &&& found(during, metadata) == old
            &&& forall|name: Seq<char>| #[trigger]
                fs.entries.contains_key(name) ==> fs.committed(during, name) == fs.committed(
                    m.seen(),
                    name,
                ) && fs.committed(left, name) == fs.committed(m.seen(), name)
            &&& found(left, metadata) == old || found(left, metadata) == new
            &&& k >= 7 ==> found(left, metadata) == new
            &&& forall|name: Seq<char>| #[trigger]
                end.entries.contains_key(name) ==> end.committed(left, name)
                    == if end.entries[name].ino == ino {
                    data
                } else {
                    fs.committed(m.seen(), name)
                }
            &&& end.consistent()
            &&& end.rests_on(after)
        }),
{
    let data = fs.staged[ino];
    let held = holder(fs.entries, ino)->0;
    holder_holds(fs, ino);
    let taken = fs.without_staged(ino);
    taking_staged_keeps_consistency(fs, ino);
    commit_keeps_consistency(fs, ino);
    let (mid, step) = fs.flush(ino);
    let (end, rest) = mid.resume(step->then, Ok(()));
    resume_keeps_consistency(mid, step->then, Ok(()));
    let first = encode(mid.metadata());
    let json = encode(end.metadata());
    let kept = m.after_all(step->ops, first);
    lemma_rests_alike(fs, taken, m);
    keeping_a_blob_survives_power_loss(taken, m, data, first, j, during);
    lemma_rests_alike(mid, fs, kept);
    assert(end.rests_on(kept)) by {
        assert forall|name: Seq<char>| #[trigger]
            end.entries.contains_key(name) && end.entries[name].size > 0 implies {
            let path = end.blob_path(end.entries[name].blobs[0].blob);
            kept.keeps(path) && found(kept.seen(), path) is Some
        } by {
            if name != held {
                assert(mid.entries.contains_key(name));
            }
        }
    }
    replacing_metadata_survives_power_loss(fs, kept, json, k, left);
    replacing_metadata_survives_power_loss(end, kept, json, k, left);
    lemma_rests_after_metadata(end, kept, json);
    let ops = metadata_steps(fs.store_dir);
    let last = after_steps(kept.seen(), ops, json);
    all_steps_are_cut_off_last(m.seen(), step->ops, first);
    all_steps_are_cut_off_last(kept.seen(), ops, json);
    flush_is_atomic(fs, ino, m.seen(), encode, 7, kept.seen(), 7, last);
    replacing_metadata_spares_contents(end, kept.seen(), json, 7, last);
    assert forall|name: Seq<char>| #[trigger] fs.entries.contains_key(name) implies fs.committed(
        during,
        name,
    ) == fs.committed(m.seen(), name) && fs.committed(left, name) == fs.committed(m.seen(), name) by {
        assert(taken.entries.contains_key(name));
        assert(taken.committed(during, name) == fs.committed(during, name));
        assert(taken.committed(m.seen(), name) == fs.committed(m.seen(), name));
    }
}

/// What is staged, and which numbers are next, makes no difference to what survives.
proof fn lemma_rests_alike(a: FsView, b: FsView, m: Media)
    requires
        a.rests_on(m),
        a.store_dir == b.store_dir,
        a.entries == b.entries,
    ensures
        b.rests_on(m),
{
    assert forall|name: Seq<char>| #[trigger]
        b.entries.contains_key(name) && b.entries[name].size > 0 implies {
        let path = b.blob_path(b.entries[name].blobs[0].blob);
        m.keeps(path) && found(m.seen(), path) is Some
    } by {
        assert(a.entries.contains_key(name));
    }
}

/// The request that leads from `fs` to `to` is answered at once, or asks for the metadata to be
/// replaced; wherever the power then fails, what is left is the old metadata or the new, complete,
/// and the bytes of the files that either tells of. Once it is answered, it is the new, and it
/// survives.
pub open spec fn survives_power_loss(
    fs: FsView,
    to: (FsView, StepView),
    m: Media,
    encode: Encoding,
    k: int,
    left: Disk,
) -> bool {
    let (next, step) = to;
    let metadata = metadata_path_of(fs.store_dir);
    let json = encode(next.metadata());
    let old = found(m.seen(), metadata);
    let new = Some(json + line_end());
    step is Perform ==> {
        &&& step->ops == metadata_steps(fs.store_dir)
        &&& next.rests_on(m.after_all(step->ops, json))
        &&& m.may_leave_disk(step->ops, json, k, left) ==> {
            &&& found(left, metadata) == old || found(left, metadata) == new
            &&& k >= 7 ==> found(left, metadata) == new
            &&& forall|n: Seq<char>| #[trigger]
                fs.entries.contains_key(n) ==> fs.committed(left, n) == fs.committed(m.seen(), n)
            &&& forall|n: Seq<char>| #[trigger]
                next.entries.contains_key(n) ==> next.committed(left, n) == next.committed(
                    m.seen(),
                    n,
                )
        }
    }
}

/// A request to create, rename or remove a file, and a flush of a file that was made empty,
/// survive a power loss.
pub proof fn directory_changes_survive_power_loss(
    fs: FsView,
    parent: u64,
    name: Option<Seq<char>>,
    newparent: u64,
    newname: Option<Seq<char>>,
    flags: u32,
    mode: u32,
    owner: Owner,
    ino: u64,
    m: Media,
    encode: Encoding,
    k: int,
    left: Disk,
)
    requires
        fs.consistent(),
        fs.rests_on(m),
        fs.creates(parent, name) ==> fs.next_inode < u64::MAX,
    ensures
        survives_power_loss(fs, fs.create(parent, name, mode, owner), m, encode, k, left),
        survives_power_loss(
            fs,
            fs.rename(parent, name, newparent, newname, flags),
            m,
            encode,
            k,
            left,
        ),
        survives_power_loss(fs, fs.unlink(parent, name), m, encode, k, left),
        fs.staged.contains_key(ino) && fs.staged[ino].len() == 0 ==> survives_power_loss(
            fs,
            fs.flush(ino),
            m,
            encode,
            k,
            left,
        ),
{
    create_keeps_consistency(fs, parent, name, mode, owner);
    lemma_survives(fs, fs.create(parent, name, mode, owner), m, encode, k, left);
    rename_keeps_consistency(fs, parent, name, newparent, newname, flags);
    lemma_survives(
        fs,
        fs.rename(parent, name, newparent, newname, flags),
        m,
        encode,
        k,
        left,
    );
    unlink_keeps_consistency(fs, parent, name);
    lemma_survives(fs, fs.unlink(parent, name), m, encode, k, left);
    if fs.staged.contains_key(ino) && fs.staged[ino].len() == 0 {
        commit_keeps_consistency(fs, ino);
        if holder(fs.entries, ino) is Some {
            holder_holds(fs, ino);
        }
        lemma_survives(fs, fs.flush(ino), m, encode, k, left);
    }
}

proof fn lemma_survives(
    fs: FsView,
    to: (FsView, StepView),
    m: Media,
    encode: Encoding,
    k: int,
    left: Disk,
)
    requires
        fs.consistent(),
        fs.rests_on(m),
        to.0.consistent(),
        to.0.store_dir == fs.store_dir,
        to.1 is Perform ==> to.1->ops == metadata_steps(fs.store_dir),
        forall|n: Seq<char>| #[trigger]
            to.0.entries.contains_key(n) ==> to.0.entries[n].size == 0 || exists|o: Seq<char>| #[trigger]
                fs.entries.contains_key(o) && fs.entries[o] == to.0.entries[n],
    ensures
        survives_power_loss(fs, to, m, encode, k, left),
{
    let next = to.0;
    let json = encode(next.metadata());
    assert forall|name: Seq<char>| #[trigger]
        next.entries.contains_key(name) && next.entries[name].size > 0 implies {
        let path = next.blob_path(next.entries[name].blobs[0].blob);
        m.keeps(path) && found(m.seen(), path) is Some
    } by {
        let o = choose|o: Seq<char>| #[trigger]
            fs.entries.contains_key(o) && fs.entries[o] == next.entries[name];
        assert(fs.entries.contains_key(o));
    }
    assert(next.rests_on(m));
    lemma_rests_after_metadata(next, m, json);
    if m.may_leave_disk(metadata_steps(fs.store_dir), json, k, left) {
        replacing_metadata_survives_power_loss(fs, m, json, k, left);
        replacing_metadata_survives_power_loss(next, m, json, k, left);
    }
}

/// Wherever the power fails while a new store is opened, no metadata is found, so that the next
/// opening starts anew, or the metadata of the new store, complete. Where the directories of the
/// store survive, so do the bytes of its files.
pub proof fn new_store_survives_power_loss(
    store_dir: Seq<char>,
    m: Media,
    encode: Encoding,
    j: int,
    during: Disk,
    k: int,
    left: Disk,
)
    requires
        m.wf(),
        m.is_clear(),
        m.keeps(metadata_path_of(store_dir)),
        found(m.seen(), metadata_path_of(store_dir)) is None,
        ({
            let (next, step) = FsView::open(store_dir, None);
            let (end, rest) = next.resume(step->then, Ok(()));
            let first = encode(next.metadata());
            &&& m.may_leave_disk(step->ops, first, j, during)
            &&& m.after_all(step->ops, first).may_leave_disk(
                rest->ops,
                encode(end.metadata()),
                k,
                left,
            )
        }),
    ensures
        ({
            let (next, step) = FsView::open(store_dir, None);
            let (end, rest) = next.resume(step->then, Ok(()));
            let first = encode(next.metadata());
            let json = encode(end.metadata());
            let metadata = metadata_path_of(store_dir);
            let after = m.after_all(step->ops, first).after_all(rest->ops, json);
            &&& found(during, metadata) is None
            &&& found(left, metadata) is None || found(left, metadata) == Some(json + line_end())
            &&& m.keeps_dir(store_dir) && m.keeps_dir(blobs_dir_of(store_dir)) ==> {
                &&& end.committed(left, "hello.txt"@) == hello_text()
                &&& end.committed(left, "notes.txt"@) == Seq::<u8>::empty()
                &&& k >= 7 ==> found(left, metadata) == Some(json + line_end())
                &&& end.rests_on(after)
            }
        }),
{
    let metadata = metadata_path_of(store_dir);
    let fresh = FsView::fresh(store_dir);
    let (next, blob, ops) = fresh.put_blob(hello_text());
    let blobs = blobs_dir_of(store_dir);
    let dir = blob_dir_of(store_dir, blob);
    let path = fresh.blob_path(blob);
    let first = encode(next.metadata());
    let kept = m.after_all(ops, first);
    blob_lies_in_its_directory(store_dir, 1);
    metadata_file_is_no_blob(store_dir, 1);
    assert(m.may_leave(ops, first, j, metadata, found(during, metadata)));
    blob_survives_power_loss(
        m,
        blobs,
        dir,
        path,
        hello_text(),
        first,
        j,
        metadata,
        found(during, metadata),
    );
    blob_is_kept(m, blobs, dir, path, hello_text(), first);
    let task = TaskView::Bootstrap { blob };
    let end = next.bootstrapped(blob);
    let json = encode(end.metadata());
    assert(kept.keeps(metadata));
    assert(found(kept.seen(), metadata) == found(m.seen(), metadata));
    let last = metadata_steps(store_dir);
    assert(kept.may_leave(last, json, k, metadata, found(left, metadata)));
    scratch_file_differs(metadata);
    metadata_survives_power_loss(kept, store_dir, json, k, metadata, found(left, metadata));
    if m.keeps_dir(store_dir) && m.keeps_dir(blobs) {
        fresh_is_consistent(store_dir);
        bootstrap_keeps_consistency(fresh);
        resume_keeps_consistency(next, task, Ok(()));
        hello_text_has_35_bytes();
        reveal_strlit("hello.txt");
        reveal_strlit("notes.txt");
        assert("hello.txt"@[0] != "notes.txt"@[0]);
        assert(end.entries.contains_key("hello.txt"@));
        assert(end.entries.contains_key("notes.txt"@));
        assert(end.rests_on(kept));
        replacing_metadata_survives_power_loss(end, kept, json, k, left);
        lemma_rests_after_metadata(end, kept, json);
        whole_file_is_its_blob(blob, hello_text());
        assert(blobs_on(kept.seen(), store_dir, whole(blob, hello_text().len() as u64)) =~= seq![
            hello_text(),
        ]);
        assert(end.committed(kept.seen(), "notes.txt"@) =~= Seq::<u8>::empty());
    }
}

} // verus!
