//! What each request is for, told byte by byte and name by name.

use vstd::prelude::*;
use vstd::utf8::encode_utf8;
use crate::attr::{FileAttr, FileType, Owner, ROOT, TTL_SECS};
use crate::consistency::{hello_text_has_35_bytes, holder_of_nothing};
use crate::contents::{assembled, assembled_at, assembled_has_size, fits};
use crate::directory::{holder, holder_is_unique, is_holder, is_listing, listing_is_unique};
use crate::directory::{BlobRef, BlobRefView, Entry, EntryView, Metadata, MetadataView};
use crate::disk::{after_steps, all_steps_are_cut_off_last, blob_is_kept_atomically};
use crate::disk::{metadata_is_replaced_atomically, same_file, Disk};
use crate::errno::{EEXIST, EINVAL, EIO, ENOENT, ENOTDIR};
use crate::fs::{fetched_view, lines_view, name_view, DirEntry, Fetched, Step, Task};
use crate::model::{DirEntryView, FetchedView, FsView, Opened, Reply, StepView, TaskView};
use crate::names::{blob_name_of, name_before, name_before_is_asymmetric, parts_below};
use crate::store::{blob_dir_of, blob_path_of, blobs_dir_of, metadata_path_of, metadata_steps};
use crate::store::{line_end, scratch_of, steps_of, FileOp, FileOpView};

verus! {

/// `name` is the first name, in the order of names, of a file with inode `ino`.
pub open spec fn first_name(fs: FsView, ino: u64, name: Seq<char>) -> bool {
    &&& fs.entries.contains_key(name)
    &&& fs.entries[name].ino == ino
    &&& forall|other: Seq<char>| #[trigger]
        fs.entries.contains_key(other) && fs.entries[other].ino == ino ==> other == name
            || name_before(name, other)
}

/// No file has inode `ino`.
pub open spec fn no_file(fs: FsView, ino: u64) -> bool {
    forall|name: Seq<char>| #[trigger] fs.entries.contains_key(name) ==> fs.entries[name].ino != ino
}

/// The run of bytes `r` of a file covers position `p`.
pub open spec fn covers(r: BlobRefView, p: int) -> bool {
    r.offset <= p < r.offset + r.len
}

/// The blobs of `entry`, which hold `blobs`, make up the bytes `s`: every byte is that of the last
/// blob that covers its position, and zero where none does.
pub open spec fn make_up(entry: EntryView, blobs: Seq<Seq<u8>>, s: Seq<u8>) -> bool {
    let refs = entry.blobs;
    &&& entry.size <= isize::MAX
    &&& blobs.len() == refs.len()
    &&& forall|k: int|
        0 <= k < refs.len() ==> (#[trigger] refs[k]).offset + refs[k].len <= entry.size
            && refs[k].len <= blobs[k].len()
    &&& s.len() == entry.size
    &&& forall|p: int, k: int|
        #![trigger s[p], refs[k]]
        0 <= p < s.len() && 0 <= k < refs.len() && covers(refs[k], p) && (forall|l: int|
            k < l < refs.len() ==> !covers(#[trigger] refs[l], p)) ==> s[p] == blobs[k][p
            - refs[k].offset]
    &&& forall|p: int|
        0 <= p < s.len() && (forall|k: int| 0 <= k < refs.len() ==> !covers(#[trigger] refs[k], p))
            ==> #[trigger] s[p] == 0
}

/// The bytes of the file `ino` are `s`: those that are staged, or else those that its blobs make
/// up, where `fetched` is what was read of them.
pub open spec fn bytes_are(fs: FsView, ino: u64, fetched: FetchedView, s: Seq<u8>) -> bool {
    if fs.staged.contains_key(ino) {
        s == fs.staged[ino]
    } else {
        exists|name: Seq<char>| #[trigger]
            first_name(fs, ino, name) && fetched is Ok && make_up(
                fs.entries[name],
                fetched->Ok_0,
                s,
            )
    }
}

/// `code` answers a file operation that failed with the system's error number `raw`.
pub open spec fn answers(code: i32, raw: Option<i32>) -> bool {
    match raw {
        Some(number) => code == number,
        None => code == EIO,
    }
}

/// `attr` tells of a regular file with this inode and mode, of `size` bytes.
pub open spec fn tells_of_file(attr: FileAttr, ino: u64, mode: u16, size: int, owner: Owner) -> bool {
    &&& attr.ino == ino
    &&& attr.size == size
    &&& (attr.blocks - 1) * 512 < size <= attr.blocks * 512
    &&& attr.kind == FileType::RegularFile
    &&& attr.perm == mode
    &&& attr.nlink == 1
    &&& attr.uid == owner.uid
    &&& attr.gid == owner.gid
    &&& attr.atime == 0
    &&& attr.mtime == 0
    &&& attr.ctime == 0
    &&& attr.crtime == 0
    &&& attr.rdev == 0
    &&& attr.blksize == 4096
    &&& attr.flags == 0
}

/// `attr` tells of the one directory.
pub open spec fn tells_of_directory(attr: FileAttr, owner: Owner) -> bool {
    &&& attr.ino == 1
    &&& attr.size == 0
    &&& attr.blocks == 0
    &&& attr.kind == FileType::Directory
    &&& attr.perm == 0o755
    &&& attr.nlink == 2
    &&& attr.uid == owner.uid
    &&& attr.gid == owner.gid
    &&& attr.atime == 0
    &&& attr.mtime == 0
    &&& attr.ctime == 0
    &&& attr.crtime == 0
    &&& attr.rdev == 0
    &&& attr.blksize == 4096
    &&& attr.flags == 0
}

/// The first name of an inode is the one by which its file is found.
pub proof fn file_is_found_by_first_name(fs: FsView, ino: u64, name: Seq<char>)
    requires
        first_name(fs, ino, name),
    ensures
        holder(fs.entries, ino) == Some(name),
        fs.entry_of(ino) == Some(fs.entries[name]),
{
    assert(is_holder(fs.entries, ino, name));
    holder_is_unique(fs.entries, ino, name);
}

/// An inode that no file has is not found.
pub proof fn no_file_is_not_found(fs: FsView, ino: u64)
    requires
        no_file(fs, ino),
    ensures
        holder(fs.entries, ino) is None,
        fs.entry_of(ino) is None,
{
    holder_of_nothing(fs, ino);
}

/// What blobs make up is what is put together from them, and nothing else.
proof fn lemma_made_up(entry: EntryView, blobs: Seq<Seq<u8>>, s: Seq<u8>)
    requires
        fits(entry, blobs),
    ensures
        make_up(entry, blobs, s) <==> s == assembled(entry.size as nat, entry.blobs, blobs),
{
    let refs = entry.blobs;
    let n = refs.len() as int;
    let t = assembled(entry.size as nat, refs, blobs);
    assert(refs.take(n) =~= refs);
    assert(blobs.take(n) =~= blobs);
    assembled_has_size(entry, blobs);
    assert forall|p: int, k: int|
        #![trigger t[p], refs[k]]
        0 <= p < t.len() && 0 <= k < refs.len() && covers(refs[k], p) && (forall|l: int|
            k < l < refs.len() ==> !covers(#[trigger] refs[l], p)) implies t[p] == blobs[k][p
        - refs[k].offset] by {
        let r = assembled_at(entry, blobs, n, p);
        assert(r == k) by {
            assert(covers(refs[k], p));
            if r > k {
                assert(covers(refs[r], p));
            }
        }
    }
    assert forall|p: int|
        0 <= p < t.len() && (forall|k: int| 0 <= k < refs.len() ==> !covers(#[trigger] refs[k], p)) implies #[trigger] t[p]
        == 0 by {
        let r = assembled_at(entry, blobs, n, p);
        if r >= 0 {
            assert(covers(refs[r], p));
        }
    }
    assert(make_up(entry, blobs, t));
    if make_up(entry, blobs, s) {
        assert forall|p: int| 0 <= p < s.len() implies s[p] == t[p] by {
            let r = assembled_at(entry, blobs, n, p);
            if r >= 0 {
                assert(covers(refs[r], p));
                assert forall|l: int| r < l < refs.len() implies !covers(#[trigger] refs[l], p) by {}
                assert(s[p] == blobs[r][p - refs[r].offset]);
            } else {
                assert forall|l: int| 0 <= l < refs.len() implies !covers(#[trigger] refs[l], p) by {}
                assert(s[p] == 0);
            }
        }
        assert(s =~= t);
    }
}

/// The bytes of a file are what later requests work on.
pub proof fn bytes_are_the_contents(fs: FsView, ino: u64, fetched: FetchedView, s: Seq<u8>)
    requires
        bytes_are(fs, ino, fetched, s),
    ensures
        fs.contents(ino, fetched) == Ok::<Seq<u8>, i32>(s),
        fs.readable(ino, fetched),
{
    if !fs.staged.contains_key(ino) {
        let name = choose|name: Seq<char>| #[trigger]
            first_name(fs, ino, name) && fetched is Ok && make_up(
                fs.entries[name],
                fetched->Ok_0,
                s,
            );
        file_is_found_by_first_name(fs, ino, name);
        assert(fits(fs.entries[name], fetched->Ok_0));
        lemma_made_up(fs.entries[name], fetched->Ok_0, s);
    }
}

/// A file that can be read has bytes: those that later requests work on.
pub proof fn readable_file_has_bytes(fs: FsView, ino: u64, name: Seq<char>, fetched: FetchedView)
    requires
        fs.staged.contains_key(ino) || first_name(fs, ino, name) && fetched is Ok,
        fs.readable(ino, fetched),
    ensures
        fs.contents(ino, fetched) is Ok,
        bytes_are(fs, ino, fetched, fs.contents(ino, fetched)->Ok_0),
{
    if !fs.staged.contains_key(ino) {
        file_is_found_by_first_name(fs, ino, name);
        let s = fs.contents(ino, fetched)->Ok_0;
        lemma_made_up(fs.entries[name], fetched->Ok_0, s);
        assert(first_name(fs, ino, name) && make_up(fs.entries[name], fetched->Ok_0, s));
    }
}

/// A file whose one blob holds all its bytes has the bytes of that blob, and one without a blob and
/// without a size has none.
pub proof fn one_blob_holds_the_file(
    fs: FsView,
    ino: u64,
    name: Seq<char>,
    blobs: Seq<Seq<u8>>,
)
    requires
        !fs.staged.contains_key(ino),
        first_name(fs, ino, name),
        fs.entries[name].size <= isize::MAX,
    ensures
        fs.entries[name].size == 0 && fs.entries[name].blobs.len() == 0 && blobs.len() == 0
            ==> bytes_are(fs, ino, Ok(blobs), Seq::empty()),
        fs.entries[name].blobs.len() == 1 && fs.entries[name].blobs[0].offset == 0
            && fs.entries[name].blobs[0].len == fs.entries[name].size && blobs.len() == 1
            && blobs[0].len() == fs.entries[name].size ==> bytes_are(fs, ino, Ok(blobs), blobs[0]),
{
    let entry = fs.entries[name];
    if entry.size == 0 && entry.blobs.len() == 0 && blobs.len() == 0 {
        assert(make_up(entry, blobs, Seq::empty()));
        assert(first_name(fs, ino, name));
    }
    if entry.blobs.len() == 1 && entry.blobs[0].offset == 0 && entry.blobs[0].len == entry.size
        && blobs.len() == 1 && blobs[0].len() == entry.size {
        let s = blobs[0];
        assert forall|p: int|
            0 <= p < s.len() && (forall|k: int|
                0 <= k < entry.blobs.len() ==> !covers(#[trigger] entry.blobs[k], p)) implies #[trigger] s[p]
            == 0 by {
            assert(covers(entry.blobs[0], p));
        }
        assert(make_up(entry, blobs, s));
        assert(first_name(fs, ino, name));
    }
}

/// The files that are read for the bytes of an inode are those of its blobs, in their order, and
/// none where its bytes are staged or no file has it. What was read is enough where there is as
/// much of it as the file says, and each blob lies within the file.
pub proof fn blobs_are_read_in_order(
    fs: FsView,
    ino: u64,
    name: Seq<char>,
    fetched: FetchedView,
)
    ensures
        fs.staged.contains_key(ino) || no_file(fs, ino) ==> fs.blobs_to_read(ino).len() == 0
            && fs.readable(ino, fetched),
        fetched is Err ==> fs.readable(ino, fetched),
        !fs.staged.contains_key(ino) && first_name(fs, ino, name) ==> {
            let refs = fs.entries[name].blobs;
            let paths = fs.blobs_to_read(ino);
            &&& paths.len() == refs.len()
            &&& forall|i: int|
                0 <= i < refs.len() ==> #[trigger] paths[i] == blob_path_of(
                    fs.store_dir,
                    refs[i].blob,
                )
            &&& fetched matches Ok(blobs) ==> (fs.readable(ino, fetched) <==> {
                &&& fs.entries[name].size <= isize::MAX
                &&& blobs.len() == refs.len()
                &&& forall|k: int|
                    0 <= k < refs.len() ==> (#[trigger] refs[k]).offset + refs[k].len
                        <= fs.entries[name].size && refs[k].len <= blobs[k].len()
            })
        },
{
    if no_file(fs, ino) {
        no_file_is_not_found(fs, ino);
    }
    if first_name(fs, ino, name) {
        file_is_found_by_first_name(fs, ino, name);
    }
}

/// A read is answered with the bytes of the file from the offset on: as many as were asked for, or
/// all that are left where there are fewer. A negative offset is the beginning.
pub proof fn read_gives_the_bytes(
    fs: FsView,
    ino: u64,
    offset: i64,
    size: u32,
    fetched: FetchedView,
    s: Seq<u8>,
)
    requires
        bytes_are(fs, ino, fetched, s),
    ensures
        ({
            let start = if offset < 0 { 0 } else { offset as int };
            let left = if start < s.len() { s.len() - start } else { 0 };
            let answer = fs.read(ino, offset, size, fetched);
            let got = answer->Ok_0;
            &&& answer is Ok
            &&& got.len() == if left < size { left } else { size as int }
            &&& forall|i: int| 0 <= i < got.len() ==> #[trigger] got[i] == s[start + i]
        }),
{
    bytes_are_the_contents(fs, ino, fetched, s);
}

/// Two reads, the second from where the first was asked to end, give what one read over both
/// ranges gives, also where they reach past the end of the file.
pub proof fn reads_give_what_one_read_gives(
    fs: FsView,
    ino: u64,
    offset: i64,
    first: u32,
    second: u32,
    fetched: FetchedView,
    s: Seq<u8>,
)
    requires
        bytes_are(fs, ino, fetched, s),
        0 <= offset,
        offset + first <= i64::MAX,
        first + second <= u32::MAX,
    ensures
        (fs.read(ino, offset, first, fetched)->Ok_0) + (fs.read(
            ino,
            (offset + first) as i64,
            second,
            fetched,
        )->Ok_0) == fs.read(ino, offset, (first + second) as u32, fetched)->Ok_0,
{
    read_gives_the_bytes(fs, ino, offset, first, fetched, s);
    read_gives_the_bytes(fs, ino, (offset + first) as i64, second, fetched, s);
    read_gives_the_bytes(fs, ino, offset, (first + second) as u32, fetched, s);
    let a = fs.read(ino, offset, first, fetched)->Ok_0;
    let b = fs.read(ino, (offset + first) as i64, second, fetched)->Ok_0;
    let both = fs.read(ino, offset, (first + second) as u32, fetched)->Ok_0;
    assert(a + b =~= both);
}

/// Reading, writing and cutting are refused where nothing is staged and no file has the inode, or
/// where its blobs cannot be read; nothing is changed then.
pub proof fn requests_without_bytes_are_refused(
    fs: FsView,
    ino: u64,
    name: Seq<char>,
    offset: i64,
    size: u32,
    data: Seq<u8>,
    len: u64,
    fetched: FetchedView,
    owner: Owner,
)
    requires
        !fs.staged.contains_key(ino),
        no_file(fs, ino) || first_name(fs, ino, name) && fetched is Err,
    ensures
        ({
            let answer = fs.read(ino, offset, size, fetched);
            &&& answer is Err
            &&& if no_file(fs, ino) {
                answer->Err_0 == ENOENT
            } else {
                answers(answer->Err_0, fetched->Err_0)
            }
            &&& fs.contents(ino, fetched) == Err::<Seq<u8>, i32>(answer->Err_0)
            &&& fs.write(ino, offset, data, fetched) == (fs, Err::<u32, i32>(answer->Err_0))
            &&& fs.setattr(ino, Some(len), fetched, owner) == (
                fs,
                Err::<FileAttr, i32>(answer->Err_0),
            )
        }),
{
    if no_file(fs, ino) {
        no_file_is_not_found(fs, ino);
    } else {
        file_is_found_by_first_name(fs, ino, name);
    }
}

/// A write is answered with the number of bytes written. After it the file holds them from the
/// offset on; all its other bytes are what they were; what lies between its old end and the
/// offset is zero; and it is no longer than that needs. Nothing else is changed.
pub proof fn write_changes_only_its_range(
    fs: FsView,
    ino: u64,
    offset: i64,
    data: Seq<u8>,
    fetched: FetchedView,
    later: FetchedView,
    s: Seq<u8>,
)
    requires
        bytes_are(fs, ino, fetched, s),
    ensures
        ({
            let start = if offset < 0 { 0 } else { offset as int };
            let end = start + data.len();
            let (next, answer) = fs.write(ino, offset, data, fetched);
            let t = next.staged[ino];
            &&& answer == Ok::<u32, i32>(data.len() as u32)
            &&& next.staged.contains_key(ino)
            &&& bytes_are(next, ino, later, t)
            &&& next.contents(ino, later) == Ok::<Seq<u8>, i32>(t)
            &&& t.len() == if s.len() < end { end } else { s.len() as int }
            &&& forall|i: int| 0 <= i < data.len() ==> t[start + i] == #[trigger] data[i]
            &&& forall|i: int|
                0 <= i < s.len() && !(start <= i < end) ==> #[trigger] t[i] == s[i]
            &&& forall|i: int| s.len() <= i < start ==> #[trigger] t[i] == 0
            &&& forall|other: u64|
                other != ino ==> #[trigger] next.staged.contains_key(other)
                    == fs.staged.contains_key(other) && next.staged[other] == fs.staged[other]
            &&& next.store_dir == fs.store_dir
            &&& next.next_inode == fs.next_inode
            &&& next.next_blob == fs.next_blob
            &&& next.entries == fs.entries
        }),
{
    bytes_are_the_contents(fs, ino, fetched, s);
    let start = if offset < 0 { 0 } else { offset as int };
    let t = fs.write(ino, offset, data, fetched).0.staged[ino];
    assert forall|i: int| 0 <= i < data.len() implies t[start + i] == #[trigger] data[i] by {}
}

/// A request that sets no size changes nothing. It is answered with the attributes of the file,
/// with the size of its bytes as they are now: those that are staged, or else committed.
pub proof fn setting_no_size_changes_nothing(
    fs: FsView,
    ino: u64,
    name: Seq<char>,
    fetched: FetchedView,
    owner: Owner,
)
    ensures
        fs.setattr(ino, None, fetched, owner).0 == fs,
        no_file(fs, ino) ==> fs.setattr(ino, None, fetched, owner).1 == Err::<FileAttr, i32>(
            ENOENT,
        ),
        first_name(fs, ino, name) && (fs.staged.contains_key(ino) ==> fs.staged[ino].len()
            <= u64::MAX) ==> {
            let answer = fs.setattr(ino, None, fetched, owner).1;
            &&& answer is Ok
            &&& tells_of_file(
                answer->Ok_0,
                ino,
                fs.entries[name].mode,
                if fs.staged.contains_key(ino) {
                    fs.staged[ino].len() as int
                } else {
                    fs.entries[name].size as int
                },
                owner,
            )
        },
{
    if no_file(fs, ino) {
        no_file_is_not_found(fs, ino);
    }
    if first_name(fs, ino, name) {
        file_is_found_by_first_name(fs, ino, name);
    }
}

/// A request that sets a size leaves the file with that many bytes: those that it had, as far as
/// they go, and then zeros. Nothing else is changed. It is answered with the attributes of the
/// file, with the new size, where the inode still has a name.
pub proof fn setting_a_size_cuts_or_extends(
    fs: FsView,
    ino: u64,
    name: Seq<char>,
    size: u64,
    fetched: FetchedView,
    later: FetchedView,
    s: Seq<u8>,
    owner: Owner,
)
    requires
        bytes_are(fs, ino, fetched, s),
    ensures
        ({
            let (next, answer) = fs.setattr(ino, Some(size), fetched, owner);
            let t = next.staged[ino];
            &&& next.staged.contains_key(ino)
            &&& bytes_are(next, ino, later, t)
            &&& next.contents(ino, later) == Ok::<Seq<u8>, i32>(t)
            &&& t.len() == size
            &&& forall|i: int| 0 <= i < size && i < s.len() ==> #[trigger] t[i] == s[i]
            &&& forall|i: int| s.len() <= i < size ==> #[trigger] t[i] == 0
            &&& forall|other: u64|
                other != ino ==> #[trigger] next.staged.contains_key(other)
                    == fs.staged.contains_key(other) && next.staged[other] == fs.staged[other]
            &&& next.store_dir == fs.store_dir
            &&& next.next_inode == fs.next_inode
            &&& next.next_blob == fs.next_blob
            &&& next.entries == fs.entries
            &&& no_file(fs, ino) ==> answer == Err::<FileAttr, i32>(ENOENT)
            &&& first_name(fs, ino, name) ==> answer is Ok && tells_of_file(
                answer->Ok_0,
                ino,
                fs.entries[name].mode,
                size as int,
                owner,
            )
        }),
{
    bytes_are_the_contents(fs, ino, fetched, s);
    let next = fs.setattr(ino, Some(size), fetched, owner).0;
    if no_file(fs, ino) {
        assert(no_file(next, ino));
        no_file_is_not_found(next, ino);
    }
    if first_name(fs, ino, name) {
        assert(first_name(next, ino, name));
        file_is_found_by_first_name(next, ino, name);
    }
}

/// Every name in the directory is found as a regular file with the inode, the permissions and the
/// committed size of its entry, and nothing else is found. By its inode, a file is reported the
/// same, and the directory, alone, as a directory.
pub proof fn attributes_are_those_of_the_entry(
    fs: FsView,
    parent: u64,
    name: Seq<char>,
    ino: u64,
    owner: Owner,
)
    ensures
        fs.entries.contains_key(name) ==> {
            let entry = fs.entries[name];
            let answer = fs.lookup(ROOT, Some(name), owner);
            &&& answer is Ok
            &&& tells_of_file(answer->Ok_0, entry.ino, entry.mode, entry.size as int, owner)
        },
        parent != ROOT || !fs.entries.contains_key(name) ==> fs.lookup(parent, Some(name), owner)
            == Err::<FileAttr, i32>(ENOENT),
        fs.lookup(parent, None, owner) == Err::<FileAttr, i32>(ENOENT),
        fs.getattr(ROOT, owner) is Ok,
        tells_of_directory(fs.getattr(ROOT, owner)->Ok_0, owner),
        ino != ROOT && first_name(fs, ino, name) ==> {
            let entry = fs.entries[name];
            let answer = fs.getattr(ino, owner);
            &&& answer is Ok
            &&& tells_of_file(answer->Ok_0, ino, entry.mode, entry.size as int, owner)
        },
        ino != ROOT && no_file(fs, ino) ==> fs.getattr(ino, owner) == Err::<FileAttr, i32>(ENOENT),
        ROOT == 1,
        TTL_SECS == 1,
{
    if no_file(fs, ino) {
        no_file_is_not_found(fs, ino);
    }
    if first_name(fs, ino, name) {
        file_is_found_by_first_name(fs, ino, name);
    }
}

/// Every file can be opened, and nothing else; it has no handle of its own, and is used past the
/// cache of the kernel.
pub proof fn every_file_is_opened(fs: FsView, ino: u64, name: Seq<char>)
    ensures
        ino != ROOT && first_name(fs, ino, name) ==> fs.open_file(ino) == Ok::<Opened, i32>(
            Opened { fh: 0, flags: 1 },
        ),
        no_file(fs, ino) || ino == ROOT ==> fs.open_file(ino) == Err::<Opened, i32>(ENOENT),
{
    if no_file(fs, ino) {
        no_file_is_not_found(fs, ino);
    }
    if first_name(fs, ino, name) {
        file_is_found_by_first_name(fs, ino, name);
    }
}

/// The directory is answered with its lines from the one at `offset` on: itself, its parent, then
/// every file, in the order of the names, with its inode and as a regular file; each line points to
/// the next. Past the end, and from a negative line, there are none. A file has no lines.
pub proof fn directory_is_answered_line_by_line(
    fs: FsView,
    ino: u64,
    offset: i64,
    rows: Seq<(Seq<char>, EntryView)>,
)
    requires
        forall|i: int, j: int|
            0 <= i < j < rows.len() ==> name_before(#[trigger] rows[i].0, #[trigger] rows[j].0),
        forall|i: int|
            0 <= i < rows.len() ==> fs.entries.contains_key(#[trigger] rows[i].0)
                && fs.entries[rows[i].0] == rows[i].1,
        forall|name: Seq<char>| #[trigger]
            fs.entries.contains_key(name) ==> exists|i: int|
                0 <= i < rows.len() && #[trigger] rows[i].0 == name,
        rows.len() + 2 <= i64::MAX,
    ensures
        ino != ROOT ==> fs.readdir(ino, offset) == Err::<Seq<DirEntryView>, i32>(ENOTDIR),
        ({
            let answer = fs.readdir(ROOT, offset);
            let list = answer->Ok_0;
            &&& answer is Ok
            &&& list.len() == if 0 <= offset <= rows.len() + 2 { rows.len() + 2 - offset } else { 0 }
            &&& forall|i: int|
                0 <= i < list.len() ==> {
                    let at = offset + i;
                    &&& (#[trigger] list[i]).offset == at + 1
                    &&& at == 0 ==> list[i].name == "."@
                    &&& at == 1 ==> list[i].name == ".."@
                    &&& at < 2 ==> list[i].ino == ROOT && list[i].kind == FileType::Directory
                    &&& at >= 2 ==> list[i].name == rows[at - 2].0 && list[i].ino == rows[at
                        - 2].1.ino && list[i].kind == FileType::RegularFile
                }
        }),
{
    assert(is_listing(rows, fs.entries));
    listing_is_unique(rows, fs.entries);
}

/// Which of two names comes first is decided by the first byte of their UTF-8 encodings in which
/// they differ; a name comes after its own beginnings.
pub proof fn names_are_ordered_by_their_bytes(a: Seq<char>, b: Seq<char>, k: int)
    requires
        ({
            let x = encode_utf8(a);
            let y = encode_utf8(b);
            &&& 0 <= k <= x.len()
            &&& k < y.len()
            &&& forall|i: int| 0 <= i < k ==> x[i] == y[i]
            &&& k == x.len() || x[k] < y[k]
        }),
    ensures
        name_before(a, b),
        !name_before(b, a),
{
    assert(parts_below(encode_utf8(a), encode_utf8(b), k));
    name_before_is_asymmetric(a, b);
}

/// A file is created exactly where its name is valid and free in the one directory. It then stands
/// under its name, empty, with the next inode and the low nine bits of `mode`, and nothing else is
/// changed; once the metadata is replaced, the answer tells of it, and that it is open.
pub proof fn create_adds_one_empty_file(
    fs: FsView,
    parent: u64,
    name: Option<Seq<char>>,
    mode: u32,
    owner: Owner,
)
    requires
        parent == ROOT && name is Some && !fs.entries.contains_key(name->0) ==> fs.next_inode
            < u64::MAX,
    ensures
        fs.creates(parent, name) <==> parent == ROOT && name is Some && !fs.entries.contains_key(
            name->0,
        ),
        parent != ROOT ==> fs.create(parent, name, mode, owner) == (
            fs,
            StepView::Done(Err::<Reply, i32>(ENOENT)),
        ),
        parent == ROOT && name is None ==> fs.create(parent, name, mode, owner) == (
            fs,
            StepView::Done(Err::<Reply, i32>(EINVAL)),
        ),
        parent == ROOT && name is Some && fs.entries.contains_key(name->0) ==> fs.create(
            parent,
            name,
            mode,
            owner,
        ) == (fs, StepView::Done(Err::<Reply, i32>(EEXIST))),
        parent == ROOT && name is Some && !fs.entries.contains_key(name->0) ==> {
            let (next, step) = fs.create(parent, name, mode, owner);
            let made = next.entries[name->0];
            let (end, answer) = next.resume(step->then, Ok(()));
            let reply = answer->Done_0->Ok_0;
            &&& step is Perform
            &&& step->ops == metadata_steps(fs.store_dir)
            &&& next.entries.contains_key(name->0)
            &&& made.ino == fs.next_inode
            &&& made.mode == mode % 512
            &&& made.size == 0
            &&& made.blobs.len() == 0
            &&& forall|other: Seq<char>|
                other != name->0 ==> #[trigger] next.entries.contains_key(other)
                    == fs.entries.contains_key(other) && next.entries[other] == fs.entries[other]
            &&& next.next_inode == fs.next_inode + 1
            &&& next.next_blob == fs.next_blob
            &&& next.store_dir == fs.store_dir
            &&& next.staged == fs.staged
            &&& end == next
            &&& answer is Done
            &&& answer->Done_0 is Ok
            &&& reply is Created
            &&& tells_of_file(reply->attr, fs.next_inode, made.mode, 0, owner)
            &&& reply->opened == (Opened { fh: 0, flags: 1 })
        },
{
    assert((mode & 0o777) as u16 == mode % 512) by (bit_vector);
}

/// A file is renamed exactly where both names are valid names in the one directory, nothing special
/// is asked for, and the old name stands for a file. It then stands under the new name as it was,
/// whatever stood there before, and no more under the old; nothing else is changed.
pub proof fn rename_moves_one_entry(
    fs: FsView,
    parent: u64,
    name: Option<Seq<char>>,
    newparent: u64,
    newname: Option<Seq<char>>,
    flags: u32,
)
    ensures
        parent != ROOT || newparent != ROOT || flags != 0 || name is None || newname is None
            ==> fs.rename(parent, name, newparent, newname, flags) == (
            fs,
            StepView::Done(Err::<Reply, i32>(EINVAL)),
        ),
        parent == ROOT && newparent == ROOT && flags == 0 && name is Some && newname is Some
            && !fs.entries.contains_key(name->0) ==> fs.rename(
            parent,
            name,
            newparent,
            newname,
            flags,
        ) == (fs, StepView::Done(Err::<Reply, i32>(ENOENT))),
        parent == ROOT && newparent == ROOT && flags == 0 && name is Some && newname is Some
            && fs.entries.contains_key(name->0) ==> {
            let (next, step) = fs.rename(parent, name, newparent, newname, flags);
            &&& step is Perform
            &&& step->ops == metadata_steps(fs.store_dir)
            &&& next.entries.contains_key(newname->0)
            &&& next.entries[newname->0] == fs.entries[name->0]
            &&& name != newname ==> !next.entries.contains_key(name->0)
            &&& forall|other: Seq<char>|
                other != name->0 && other != newname->0 ==> #[trigger] next.entries.contains_key(
                    other,
                ) == fs.entries.contains_key(other) && next.entries[other] == fs.entries[other]
            &&& next.next_inode == fs.next_inode
            &&& next.next_blob == fs.next_blob
            &&& next.store_dir == fs.store_dir
            &&& next.staged == fs.staged
            &&& next.resume(step->then, Ok(())) == (
                next,
                StepView::Done(Ok::<Reply, i32>(Reply::Empty)),
            )
        },
{
}

/// A file is removed exactly where its name is valid and stands for a file in the one directory. It
/// then stands there no more, and what was staged for its inode is dropped; every other name, and
/// what is staged for every other inode, stays.
pub proof fn unlink_removes_one_entry(fs: FsView, parent: u64, name: Option<Seq<char>>)
    ensures
        parent != ROOT ==> fs.unlink(parent, name) == (
            fs,
            StepView::Done(Err::<Reply, i32>(ENOENT)),
        ),
        parent == ROOT && name is None ==> fs.unlink(parent, name) == (
            fs,
            StepView::Done(Err::<Reply, i32>(EINVAL)),
        ),
        parent == ROOT && name is Some && !fs.entries.contains_key(name->0) ==> fs.unlink(
            parent,
            name,
        ) == (fs, StepView::Done(Err::<Reply, i32>(ENOENT))),
        parent == ROOT && name is Some && fs.entries.contains_key(name->0) ==> {
            let ino = fs.entries[name->0].ino;
            let (next, step) = fs.unlink(parent, name);
            &&& step is Perform
            &&& step->ops == metadata_steps(fs.store_dir)
            &&& !next.entries.contains_key(name->0)
            &&& forall|other: Seq<char>|
                other != name->0 ==> #[trigger] next.entries.contains_key(other)
                    == fs.entries.contains_key(other) && next.entries[other] == fs.entries[other]
            &&& !next.staged.contains_key(ino)
            &&& forall|other: u64|
                other != ino ==> #[trigger] next.staged.contains_key(other)
                    == fs.staged.contains_key(other) && next.staged[other] == fs.staged[other]
            &&& next.next_inode == fs.next_inode
            &&& next.next_blob == fs.next_blob
            &&& next.store_dir == fs.store_dir
            &&& next.resume(step->then, Ok(())) == (
                next,
                StepView::Done(Ok::<Reply, i32>(Reply::Empty)),
            )
        },
{
}

/// Removing a file, whatever its size, leaves the bytes of every inode but its own as they are:
/// they are read from the same blobs and are the same, staged or committed.
pub proof fn unlink_spares_other_files(
    fs: FsView,
    name: Seq<char>,
    other: u64,
    offset: i64,
    size: u32,
    fetched: FetchedView,
    owner: Owner,
    s: Seq<u8>,
)
    requires
        fs.entries.contains_key(name),
        fs.entries[name].ino != other,
    ensures
        ({
            let next = fs.unlink(ROOT, Some(name)).0;
            &&& bytes_are(fs, other, fetched, s) ==> bytes_are(next, other, fetched, s)
            &&& bytes_are(fs, other, fetched, s) ==> next.contents(other, fetched) == Ok::<
                Seq<u8>,
                i32,
            >(s)
            &&& no_file(fs, other) ==> no_file(next, other)
            &&& next.staged.contains_key(other) == fs.staged.contains_key(other)
            &&& fs.staged.contains_key(other) ==> next.staged[other] == fs.staged[other]
            &&& forall|n: Seq<char>| #[trigger]
                first_name(fs, other, n) ==> {
                    &&& first_name(next, other, n)
                    &&& next.blobs_to_read(other) == fs.blobs_to_read(other)
                    &&& next.contents(other, fetched) == fs.contents(other, fetched)
                    &&& next.read(other, offset, size, fetched) == fs.read(
                        other,
                        offset,
                        size,
                        fetched,
                    )
                    &&& next.getattr(other, owner) == fs.getattr(other, owner)
                }
        }),
{
    let next = fs.unlink(ROOT, Some(name)).0;
    assert forall|n: Seq<char>| #[trigger] first_name(fs, other, n) implies {
        &&& first_name(next, other, n)
        &&& next.blobs_to_read(other) == fs.blobs_to_read(other)
        &&& next.contents(other, fetched) == fs.contents(other, fetched)
        &&& next.read(other, offset, size, fetched) == fs.read(other, offset, size, fetched)
        &&& next.getattr(other, owner) == fs.getattr(other, owner)
    } by {
        assert(next.entries.contains_key(n));
        assert forall|m: Seq<char>| #[trigger]
            next.entries.contains_key(m) && next.entries[m].ino == other implies m == n
            || name_before(n, m) by {
            assert(fs.entries.contains_key(m));
        }
        assert(first_name(next, other, n));
        file_is_found_by_first_name(fs, other, n);
        file_is_found_by_first_name(next, other, n);
        assert(next.blobs_to_read(other) =~= fs.blobs_to_read(other));
    }
    if bytes_are(fs, other, fetched, s) {
        if !fs.staged.contains_key(other) {
            let n = choose|n: Seq<char>| #[trigger]
                first_name(fs, other, n) && fetched is Ok && make_up(
                    fs.entries[n],
                    fetched->Ok_0,
                    s,
                );
            assert(first_name(next, other, n));
            assert(make_up(next.entries[n], fetched->Ok_0, s));
        }
        bytes_are_the_contents(next, other, fetched, s);
    }
    assert forall|n: Seq<char>| no_file(fs, other) && #[trigger] next.entries.contains_key(n) implies next.entries[n].ino
        != other by {
        assert(fs.entries.contains_key(n));
    }
}

/// A flush where nothing is staged is answered at once and changes nothing.
pub proof fn flush_of_nothing_changes_nothing(fs: FsView, ino: u64, datasync: bool)
    requires
        !fs.staged.contains_key(ino),
    ensures
        fs.flush(ino) == (fs, StepView::Done(Ok::<Reply, i32>(Reply::Empty))),
        fs.fsync(ino, datasync) == (fs, StepView::Done(Ok::<Reply, i32>(Reply::Empty))),
        fs.commit_inode(ino) == (fs, StepView::Done(Ok::<Reply, i32>(Reply::Empty))),
{
}

/// `end` is `fs` after the bytes `data` that were staged for the file `name` were committed: the file
/// has their size, keeps its inode and permissions, and has no blob where there are no bytes, else
/// one for them all. Nothing else is changed but that they are no longer staged.
pub open spec fn is_committed(
    fs: FsView,
    end: FsView,
    ino: u64,
    name: Seq<char>,
    data: Seq<u8>,
) -> bool {
    let entry = end.entries[name];
    &&& end.entries.contains_key(name)
    &&& entry.ino == ino
    &&& entry.mode == fs.entries[name].mode
    &&& entry.size == data.len()
    &&& if data.len() == 0 {
        entry.blobs.len() == 0 && end.next_blob == fs.next_blob
    } else {
        &&& entry.blobs.len() == 1
        &&& entry.blobs[0].offset == 0
        &&& entry.blobs[0].len == data.len()
        &&& entry.blobs[0].blob == blob_name_of(fs.next_blob as nat)
        &&& end.next_blob == fs.next_blob + 1
    }
    &&& forall|other: Seq<char>|
        other != name ==> #[trigger] end.entries.contains_key(other) == fs.entries.contains_key(
            other,
        ) && end.entries[other] == fs.entries[other]
    &&& !end.staged.contains_key(ino)
    &&& forall|other: u64|
        other != ino ==> #[trigger] end.staged.contains_key(other) == fs.staged.contains_key(other)
            && end.staged[other] == fs.staged[other]
    &&& end.next_inode == fs.next_inode
    &&& end.store_dir == fs.store_dir
}

/// A flush of a file for which bytes are staged first brings them to the file of a new blob, while
/// every entry stays as it is, then lets the file refer to it, and then replaces the metadata. A
/// file that was made empty needs no blob. Each of the two parts has to end well.
pub proof fn flush_commits_what_is_staged(
    fs: FsView,
    ino: u64,
    name: Seq<char>,
    datasync: bool,
    disk: Disk,
    json: Seq<u8>,
)
    requires
        fs.staged.contains_key(ino),
        fs.staged[ino].len() <= u64::MAX,
        fs.staged[ino].len() > 0 ==> fs.next_blob < u64::MAX,
        first_name(fs, ino, name),
    ensures
        fs.fsync(ino, datasync) == fs.flush(ino),
        fs.commit_inode(ino) == fs.flush(ino),
        fs.staged[ino].len() == 0 ==> {
            let (end, step) = fs.flush(ino);
            &&& is_committed(fs, end, ino, name, fs.staged[ino])
            &&& step is Perform
            &&& step->ops == metadata_steps(fs.store_dir)
            &&& end.resume(step->then, Ok(())) == (
                end,
                StepView::Done(Ok::<Reply, i32>(Reply::Empty)),
            )
        },
        fs.staged[ino].len() > 0 ==> {
            let (mid, step) = fs.flush(ino);
            let (end, rest) = mid.resume(step->then, Ok(()));
            let path = blob_path_of(fs.store_dir, blob_name_of(fs.next_blob as nat));
            let after = after_steps(disk, step->ops, json);
            &&& step is Perform
            &&& mid.entries == fs.entries
            &&& after.contains_key(path)
            &&& after[path] == fs.staged[ino]
            &&& is_committed(fs, end, ino, name, fs.staged[ino])
            &&& rest is Perform
            &&& rest->ops == metadata_steps(fs.store_dir)
            &&& end.resume(rest->then, Ok(())) == (
                end,
                StepView::Done(Ok::<Reply, i32>(Reply::Empty)),
            )
        },
{
    file_is_found_by_first_name(fs, ino, name);
    let data = fs.staged[ino];
    let (mid, step) = fs.flush(ino);
    if data.len() > 0 {
        assert(first_name(mid, ino, name));
        file_is_found_by_first_name(mid, ino, name);
        let blob = blob_name_of(fs.next_blob as nat);
        let blobs = blobs_dir_of(fs.store_dir);
        let dir = blob_dir_of(fs.store_dir, blob);
        let path = blob_path_of(fs.store_dir, blob);
        all_steps_are_cut_off_last(disk, step->ops, json);
        blob_is_kept_atomically(
            disk,
            blobs,
            dir,
            path,
            data,
            json,
            step->ops.len() as int,
            after_steps(disk, step->ops, json),
        );
    }
}

/// A flush of bytes that are staged for an inode that no file has any more is refused, and drops
/// them; no entry is changed.
pub proof fn flush_without_a_file_is_refused(fs: FsView, ino: u64)
    requires
        fs.staged.contains_key(ino),
        no_file(fs, ino),
    ensures
        ({
            let (mid, step) = fs.flush(ino);
            let (end, answer) = if fs.staged[ino].len() == 0 {
                (mid, step)
            } else {
                mid.resume(step->then, Ok(()))
            };
            &&& fs.staged[ino].len() > 0 ==> step is Perform
            &&& answer == StepView::Done(Err::<Reply, i32>(ENOENT))
            &&& end.entries == fs.entries
            &&& end.next_inode == fs.next_inode
            &&& end.store_dir == fs.store_dir
            &&& !end.staged.contains_key(ino)
            &&& forall|other: u64|
                other != ino ==> #[trigger] end.staged.contains_key(other)
                    == fs.staged.contains_key(other) && end.staged[other] == fs.staged[other]
        }),
{
    let mid = fs.flush(ino).0;
    no_file_is_not_found(fs, ino);
    assert(no_file(fs.without_staged(ino), ino));
    no_file_is_not_found(fs.without_staged(ino), ino);
    assert(no_file(mid, ino));
    no_file_is_not_found(mid, ino);
}

/// Once the blob that was kept for a file is there, the file refers to it, and to nothing else, from
/// its first byte on; its inode and permissions, and everything else, stay as they are.
pub proof fn kept_blob_is_referred_to(
    fs: FsView,
    ino: u64,
    name: Seq<char>,
    blob: Seq<char>,
    len: u64,
)
    ensures
        first_name(fs, ino, name) ==> {
            let (end, step) = fs.resume(TaskView::Install { ino, blob, len }, Ok(()));
            let entry = end.entries[name];
            &&& step is Perform
            &&& step->ops == metadata_steps(fs.store_dir)
            &&& step->then == TaskView::Finish
            &&& end.entries.contains_key(name)
            &&& entry.ino == ino
            &&& entry.mode == fs.entries[name].mode
            &&& entry.size == len
            &&& entry.blobs.len() == 1
            &&& entry.blobs[0].blob == blob
            &&& entry.blobs[0].offset == 0
            &&& entry.blobs[0].len == len
            &&& forall|other: Seq<char>|
                other != name ==> #[trigger] end.entries.contains_key(other)
                    == fs.entries.contains_key(other) && end.entries[other] == fs.entries[other]
            &&& end.staged == fs.staged
            &&& end.next_inode == fs.next_inode
            &&& end.next_blob == fs.next_blob
            &&& end.store_dir == fs.store_dir
        },
        no_file(fs, ino) ==> fs.resume(TaskView::Install { ino, blob, len }, Ok(())) == (
            fs,
            StepView::Done(Err::<Reply, i32>(ENOENT)),
        ),
{
    if no_file(fs, ino) {
        no_file_is_not_found(fs, ino);
    }
    if first_name(fs, ino, name) {
        file_is_found_by_first_name(fs, ino, name);
    }
}

/// Bytes that are to be kept get a blob with the next number, whatever bytes they are. The steps
/// bring them, complete, to its file, and no other file is changed but the one in which they are
/// gathered. Nothing else of the filesystem is changed.
pub proof fn new_blob_holds_its_bytes(
    fs: FsView,
    data: Seq<u8>,
    disk: Disk,
    json: Seq<u8>,
    other: Seq<char>,
)
    requires
        fs.next_blob < u64::MAX,
    ensures
        ({
            let (next, blob, ops) = fs.put_blob(data);
            let path = blob_path_of(fs.store_dir, blob);
            let after = after_steps(disk, ops, json);
            &&& blob == blob_name_of(fs.next_blob as nat)
            &&& next.next_blob == fs.next_blob + 1
            &&& next.next_inode == fs.next_inode
            &&& next.store_dir == fs.store_dir
            &&& next.entries == fs.entries
            &&& next.staged == fs.staged
            &&& fs.blob_path(blob) == path
            &&& after.contains_key(path)
            &&& after[path] == data
            &&& other != path && other != scratch_of(path) ==> {
                &&& after.contains_key(other) == disk.contains_key(other)
                &&& after[other] == disk[other]
            }
        }),
{
    let (next, blob, ops) = fs.put_blob(data);
    let path = blob_path_of(fs.store_dir, blob);
    let after = after_steps(disk, ops, json);
    all_steps_are_cut_off_last(disk, ops, json);
    blob_is_kept_atomically(
        disk,
        blobs_dir_of(fs.store_dir),
        blob_dir_of(fs.store_dir, blob),
        path,
        data,
        json,
        ops.len() as int,
        after,
    );
    if other != path && other != scratch_of(path) {
        assert(same_file(disk, after, other));
    }
}

/// Replacing the metadata changes nothing of the filesystem. The steps bring the metadata, complete
/// and with the end of its line, to its file, and no other file is changed but the one in which it
/// is gathered. What is left to do then is what was asked for.
pub proof fn replaced_metadata_is_in_its_file(
    fs: FsView,
    then: TaskView,
    disk: Disk,
    json: Seq<u8>,
    other: Seq<char>,
)
    ensures
        ({
            let (next, step) = fs.commit_metadata(then);
            let path = metadata_path_of(fs.store_dir);
            let after = after_steps(disk, step->ops, json);
            &&& next == fs
            &&& step is Perform
            &&& step->then == then
            &&& after.contains_key(path)
            &&& after[path] == json.push(10u8)
            &&& other != path && other != scratch_of(path) ==> {
                &&& after.contains_key(other) == disk.contains_key(other)
                &&& after[other] == disk[other]
            }
        }),
{
    let ops = metadata_steps(fs.store_dir);
    let path = metadata_path_of(fs.store_dir);
    let after = after_steps(disk, ops, json);
    all_steps_are_cut_off_last(disk, ops, json);
    metadata_is_replaced_atomically(disk, fs.store_dir, json, ops.len() as int, after);
    assert(json.push(10u8) =~= json + line_end());
    if other != path && other != scratch_of(path) {
        assert(same_file(disk, after, other));
    }
}

/// A request whose steps fail is refused with the system's error number, and changes nothing more.
pub proof fn failed_steps_refuse_the_request(fs: FsView, task: TaskView, raw: Option<i32>)
    ensures
        ({
            let (end, answer) = fs.resume(task, Err(raw));
            &&& end == fs
            &&& answer is Done
            &&& answer->Done_0 is Err
            &&& answers(answer->Done_0->Err_0, raw)
        }),
{
}

/// A store with metadata is opened with just that metadata, with nothing staged and without a step.
pub proof fn stored_store_is_taken_as_it_is(store_dir: Seq<char>, meta: MetadataView)
    ensures
        ({
            let (fs, step) = FsView::open(store_dir, Some(meta));
            &&& step == StepView::Done(Ok::<Reply, i32>(Reply::Empty))
            &&& fs.store_dir == store_dir
            &&& fs.next_inode == meta.next_inode
            &&& fs.next_blob == meta.next_blob
            &&& fs.entries == meta.entries
            &&& forall|ino: u64| !fs.staged.contains_key(ino)
            &&& fs.metadata() == meta
        }),
{
}

/// What is written down of a filesystem is its numbers and its entries.
pub proof fn metadata_tells_numbers_and_entries(fs: FsView)
    ensures
        fs.metadata().next_inode == fs.next_inode,
        fs.metadata().next_blob == fs.next_blob,
        fs.metadata().entries == fs.entries,
{
}

/// Filling a store first brings a greeting to the file of a new blob, while every entry stays as it
/// is, and then adds two files with the next two inodes: one that holds the greeting, and an empty
/// one. Then the metadata is written. Everything else stays as it is.
pub proof fn bootstrap_adds_two_files(fs: FsView, disk: Disk, json: Seq<u8>)
    requires
        fs.next_inode <= u64::MAX - 2,
        fs.next_blob < u64::MAX,
    ensures
        ({
            let greeting = encode_utf8("Hello from a tiny FUSE filesystem.\n"@);
            let (mid, step) = fs.bootstrap();
            let (end, rest) = mid.resume(step->then, Ok(()));
            let blob = blob_name_of(fs.next_blob as nat);
            let path = blob_path_of(fs.store_dir, blob);
            let after = after_steps(disk, step->ops, json);
            let hello = end.entries["hello.txt"@];
            let notes = end.entries["notes.txt"@];
            &&& step is Perform
            &&& mid.entries == fs.entries
            &&& after.contains_key(path)
            &&& after[path] == greeting
            &&& rest is Perform
            &&& rest->ops == metadata_steps(fs.store_dir)
            &&& end.resume(rest->then, Ok(())) == (
                end,
                StepView::Done(Ok::<Reply, i32>(Reply::Empty)),
            )
            &&& end.entries.contains_key("hello.txt"@)
            &&& hello.ino == fs.next_inode
            &&& hello.mode == 0o644
            &&& hello.size == greeting.len()
            &&& hello.blobs.len() == 1
            &&& hello.blobs[0].blob == blob
            &&& hello.blobs[0].offset == 0
            &&& hello.blobs[0].len == greeting.len()
            &&& end.entries.contains_key("notes.txt"@)
            &&& notes.ino == fs.next_inode + 1
            &&& notes.mode == 0o644
            &&& notes.size == 0
            &&& notes.blobs.len() == 0
            &&& forall|other: Seq<char>|
                other != "hello.txt"@ && other != "notes.txt"@
                    ==> #[trigger] end.entries.contains_key(other) == fs.entries.contains_key(other)
                    && end.entries[other] == fs.entries[other]
            &&& end.next_inode == fs.next_inode + 2
            &&& end.next_blob == fs.next_blob + 1
            &&& end.store_dir == fs.store_dir
            &&& end.staged == fs.staged
        }),
{
    let greeting = encode_utf8("Hello from a tiny FUSE filesystem.\n"@);
    let step = fs.bootstrap().1;
    let blob = blob_name_of(fs.next_blob as nat);
    hello_text_has_35_bytes();
    reveal_strlit("hello.txt");
    reveal_strlit("notes.txt");
    assert("hello.txt"@[0] != "notes.txt"@[0]);
    all_steps_are_cut_off_last(disk, step->ops, json);
    blob_is_kept_atomically(
        disk,
        blobs_dir_of(fs.store_dir),
        blob_dir_of(fs.store_dir, blob),
        blob_path_of(fs.store_dir, blob),
        greeting,
        json,
        step->ops.len() as int,
        after_steps(disk, step->ops, json),
    );
}

/// A store without metadata starts with nothing, the inode after that of the directory and the
/// first blob being next, and is then filled.
pub proof fn new_store_is_filled(store_dir: Seq<char>)
    ensures
        ({
            let empty = FsView {
                store_dir,
                next_inode: 2,
                next_blob: 1,
                entries: Map::empty(),
                staged: Map::empty(),
            };
            FsView::open(store_dir, None) == empty.bootstrap()
        }),
{
}

/// A blob's file lies two directories below that of the store, in one named by the first two
/// characters of the blob; the metadata file lies in the directory of the store.
pub proof fn files_lie_where_they_are_looked_for(store_dir: Seq<char>, blob: Seq<char>)
    requires
        blob.len() >= 2,
        blob[0] != '/',
        blob[1] != '/',
    ensures
        ({
            let lead = if store_dir.len() == 0 || store_dir.last() == '/' {
                store_dir
            } else {
                store_dir + "/"@
            };
            &&& blob_path_of(store_dir, blob) == lead + "blobs/"@ + blob.take(2) + "/"@ + blob
            &&& metadata_path_of(store_dir) == lead + "metadata.json"@
        }),
{
    reveal_strlit("/");
    reveal_strlit("blobs");
    reveal_strlit("blobs/");
    reveal_strlit("metadata.json");
    let lead = if store_dir.len() == 0 || store_dir.last() == '/' {
        store_dir
    } else {
        store_dir + "/"@
    };
    assert("blobs/"@ =~= "blobs"@ + "/"@);
    let blobs = blobs_dir_of(store_dir);
    assert(blobs =~= lead + "blobs"@);
    assert(blobs.last() == 's');
    let dir = blob_dir_of(store_dir, blob);
    assert(dir =~= lead + "blobs/"@ + blob.take(2));
    assert(dir.last() == blob[1]);
    assert(blob_path_of(store_dir, blob) =~= lead + "blobs/"@ + blob.take(2) + "/"@ + blob);
    assert(metadata_path_of(store_dir) =~= lead + "metadata.json"@);
}

/// What is said of entries, metadata and lines is what they hold, field by field.
pub proof fn views_tell_every_field(piece: BlobRef, entry: Entry, meta: Metadata, line: DirEntry)
    ensures
        piece@.blob == piece.blob@,
        piece@.offset == piece.offset,
        piece@.len == piece.len,
        entry@.ino == entry.ino,
        entry@.mode == entry.mode,
        entry@.size == entry.size,
        entry@.blobs.len() == entry.blobs@.len(),
        forall|i: int|
            0 <= i < entry.blobs@.len() ==> #[trigger] entry@.blobs[i] == entry.blobs@[i]@,
        meta@.next_inode == meta.next_inode,
        meta@.next_blob == meta.next_blob,
        meta@.entries == meta.entries@,
        line@.ino == line.ino,
        line@.offset == line.offset,
        line@.kind == line.kind,
        line@.name == line.name@,
{
}

/// What is said of the blobs that were read is their bytes, in order, or the error number; what is
/// said of a name is its characters; and what is said of a list of lines or steps is each of them,
/// in order.
pub proof fn views_tell_lists_in_order(
    fetched: Fetched,
    name: Option<&str>,
    list: Seq<DirEntry>,
    ops: Seq<FileOp>,
)
    ensures
        fetched matches Ok(blobs) ==> {
            &&& fetched_view(fetched) is Ok
            &&& (fetched_view(fetched)->Ok_0).len() == blobs@.len()
            &&& forall|i: int|
                0 <= i < blobs@.len() ==> #[trigger] (fetched_view(fetched)->Ok_0)[i] == blobs@[i]@
        },
        fetched matches Err(raw) ==> fetched_view(fetched) == Err::<Seq<Seq<u8>>, Option<i32>>(raw),
        name matches Some(text) ==> name_view(name) == Some(text@),
        name is None ==> name_view(name) is None,
        lines_view(list).len() == list.len(),
        forall|i: int| 0 <= i < list.len() ==> #[trigger] lines_view(list)[i] == list[i]@,
        steps_of(ops).len() == ops.len(),
        forall|i: int| 0 <= i < ops.len() ==> #[trigger] steps_of(ops)[i] == ops[i]@,
{
}

/// What is said of a step on the store is what it is to do, to which file, and with which bytes.
pub proof fn views_tell_steps(op: FileOp)
    ensures
        op matches FileOp::MakeDirs { path } ==> op@ == (FileOpView::MakeDirs { path: path@ }),
        op matches FileOp::Create { path } ==> op@ == (FileOpView::Create { path: path@ }),
        op matches FileOp::Write { path, data } ==> op@ == (FileOpView::Write {
            path: path@,
            data: data@,
        }),
        op matches FileOp::WriteMetadata { path } ==> op@ == (FileOpView::WriteMetadata {
            path: path@,
        }),
        op matches FileOp::SyncFile { path } ==> op@ == (FileOpView::SyncFile { path: path@ }),
        op matches FileOp::Rename { from, to } ==> op@ == (FileOpView::Rename {
            from: from@,
            to: to@,
        }),
        op matches FileOp::SyncDir { path } ==> op@ == (FileOpView::SyncDir { path: path@ }),
{
}

/// What is said of how far a request has come is its answer, or its steps and what is left to do.
pub proof fn views_tell_requests(step: Step, task: Task)
    ensures
        step matches Step::Done(answer) ==> step@ == StepView::Done(answer),
        step matches Step::Perform { ops, then } ==> step@ == (StepView::Perform {
            ops: steps_of(ops@),
            then: then@,
        }),
        task matches Task::Bootstrap { blob } ==> task@ == (TaskView::Bootstrap { blob: blob@ }),
        task matches Task::Install { ino, blob, len } ==> task@ == (TaskView::Install {
            ino,
            blob: blob@,
            len,
        }),
        task matches Task::Create { attr } ==> task@ == (TaskView::Create { attr }),
        task is Finish ==> task@ == TaskView::Finish,
{
}

} // verus!
