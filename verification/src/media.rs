//! The disk when the power may fail: what is seen of it, and what a power loss may leave of it.
//!
//! Bytes that were written are lost, or garbled, until their file is synced; a name that was
//! given, taken or made anew may be found as it was before, until its directory is synced; and a
//! directory that was made may be lost, with all in it, until the one that it lies in is synced.

use vstd::prelude::*;
use crate::disk::{after_step, after_steps, all_steps_are_cut_off_last, same_file, Disk};
use crate::disk::{blob_is_kept_atomically, metadata_is_replaced_atomically, scratch_file_differs};
use crate::names::joined;
use crate::store::{blob_steps, line_end, metadata_path_of, metadata_steps, scratch_of, FileOpView};

verus! {

/// A name without a separator.
pub open spec fn is_plain(name: Seq<char>) -> bool {
    name.len() > 0 && !name.contains('/')
}

/// `path` is a name in the directory `dir`, and not in one below it.
pub open spec fn lies_in(path: Seq<char>, dir: Seq<char>) -> bool {
    exists|name: Seq<char>| is_plain(name) && path == #[trigger] joined(dir, name)
}

/// `dir` is the part of `path` before the separator at `i`.
pub open spec fn is_above_at(dir: Seq<char>, path: Seq<char>, i: int) -> bool {
    0 < i < path.len() && path[i] == '/' && path[i - 1] != '/' && dir == path.take(i)
}

/// `dir` is one of the directories on the way to `path`.
pub open spec fn is_above(dir: Seq<char>, path: Seq<char>) -> bool {
    exists|i: int| is_above_at(dir, path, i)
}

/// `dir` is `path` or one of the directories on the way to it.
pub open spec fn leads_to(dir: Seq<char>, path: Seq<char>) -> bool {
    dir == path || is_above(dir, path)
}

/// What is found under `path`.
pub open spec fn found(disk: Disk, path: Seq<char>) -> Option<Seq<u8>> {
    if disk.contains_key(path) {
        Some(disk[path])
    } else {
        None
    }
}

/// A disk. Files are known by numbers.
#[verifier::ext_equal]
pub struct Media {
    /// The file that each name stands for.
    pub names: Map<Seq<char>, nat>,
    /// The bytes of each file.
    pub bytes: Map<nat, Seq<u8>>,
    /// The files whose bytes survive a power loss.
    pub synced: Set<nat>,
    /// What else a name may stand for after a power loss: what it stood for since its directory
    /// was last synced. `None` is for a name that did not stand for any file.
    pub past: Map<Seq<char>, Set<Option<nat>>>,
    /// The directories.
    pub dirs: Set<Seq<char>>,
    /// The directories that a power loss may take away, with all that is in them.
    pub loose: Set<Seq<char>>,
    /// The number of the next new file.
    pub next: nat,
}

impl Media {
    /// What is seen of the disk.
    pub open spec fn seen(self) -> Disk {
        Map::new(
            |path: Seq<char>| self.names.contains_key(path),
            |path: Seq<char>| self.bytes[self.names[path]],
        )
    }

    /// The file that `path` stands for.
    pub open spec fn stands_for(self, path: Seq<char>) -> Option<nat> {
        if self.names.contains_key(path) {
            Some(self.names[path])
        } else {
            None
        }
    }

    /// What `path` stood for since its directory was last synced.
    pub open spec fn stood_for(self, path: Seq<char>) -> Set<Option<nat>> {
        if self.past.contains_key(path) {
            self.past[path]
        } else {
            Set::empty()
        }
    }

    /// All that `path` may stand for after a power loss that spares its directory.
    pub open spec fn may_stand_for(self, path: Seq<char>) -> Set<Option<nat>> {
        self.stood_for(path).insert(self.stands_for(path))
    }

    /// A power loss may take away a directory on the way to `path`.
    pub open spec fn may_lose(self, path: Seq<char>) -> bool {
        exists|dir: Seq<char>| #[trigger] self.loose.contains(dir) && is_above(dir, path)
    }

    /// `content` is what may be found of `file` after a power loss.
    pub open spec fn may_be_of(self, file: Option<nat>, content: Option<Seq<u8>>) -> bool {
        match (file, content) {
            (None, None) => true,
            (Some(file), Some(bytes)) => self.synced.contains(file) ==> bytes == self.bytes[file],
            _ => false,
        }
    }

    /// `content` is what may be found under `path` after a power loss.
    pub open spec fn may_hold(self, path: Seq<char>, content: Option<Seq<u8>>) -> bool {
        ||| content is None && self.may_lose(path)
        ||| exists|file: Option<nat>| #[trigger]
            self.may_stand_for(path).contains(file) && self.may_be_of(file, content)
    }

    /// What is found under `path` after a power loss is what is seen there now.
    pub open spec fn keeps(self, path: Seq<char>) -> bool {
        forall|content: Option<Seq<u8>>| #[trigger]
            self.may_hold(path, content) ==> content == found(self.seen(), path)
    }

    /// The directory `dir`, and those on the way to it, are there and survive a power loss.
    pub open spec fn keeps_dir(self, dir: Seq<char>) -> bool {
        forall|d: Seq<char>| #[trigger]
            leads_to(d, dir) ==> self.dirs.contains(d) && !self.loose.contains(d)
    }

    /// The numbers of files are below the next one, and every name lies in directories that are
    /// there.
    pub open spec fn wf(self) -> bool {
        &&& forall|path: Seq<char>, file: nat| #[trigger]
            self.may_stand_for(path).contains(Some(file)) ==> file < self.next
        &&& forall|path: Seq<char>, dir: Seq<char>| #[trigger]
            self.names.contains_key(path) && #[trigger] is_above(dir, path) ==> self.dirs.contains(
                dir,
            )
    }

    /// No name may stand for the file that another name stands for.
    pub open spec fn is_clear(self) -> bool {
        forall|path: Seq<char>, other: Seq<char>| #[trigger]
            self.names.contains_key(path) && #[trigger] self.may_stand_for(other).contains(
                Some(self.names[path]),
            ) ==> path == other
    }

    /// The disk with other bytes in `file`, which are not synced.
    pub open spec fn with_bytes(self, file: nat, bytes: Seq<u8>) -> Media {
        Media { bytes: self.bytes.insert(file, bytes), synced: self.synced.remove(file), ..self }
    }

    /// The disk after one step, where `json` is the metadata in the form in which it is written.
    pub open spec fn after(self, op: FileOpView, json: Seq<u8>) -> Media {
        match op {
            FileOpView::MakeDirs { path } => {
                let made = Set::new(
                    |dir: Seq<char>| leads_to(dir, path) && !self.dirs.contains(dir),
                );
                Media { dirs: self.dirs.union(made), loose: self.loose.union(made), ..self }
            },
            FileOpView::Create { path } => if self.names.contains_key(path) {
                self.with_bytes(self.names[path], Seq::empty())
            } else {
                Media {
                    names: self.names.insert(path, self.next),
                    past: self.past.insert(path, self.may_stand_for(path)),
                    next: self.next + 1,
                    ..self
                }.with_bytes(self.next, Seq::empty())
            },
            FileOpView::Write { path, data } => self.with_bytes(
                self.names[path],
                self.bytes[self.names[path]] + data,
            ),
            FileOpView::WriteMetadata { path } => self.with_bytes(
                self.names[path],
                self.bytes[self.names[path]] + json,
            ),
            FileOpView::SyncFile { path } => Media {
                synced: self.synced.insert(self.names[path]),
                ..self
            },
            FileOpView::Rename { from, to } => Media {
                names: self.names.remove(from).insert(to, self.names[from]),
                past: self.past.insert(from, self.may_stand_for(from)).insert(
                    to,
                    self.may_stand_for(to),
                ),
                ..self
            },
            FileOpView::SyncDir { path } => Media {
                past: self.past.remove_keys(Set::new(|name: Seq<char>| lies_in(name, path))),
                loose: self.loose.difference(Set::new(|dir: Seq<char>| lies_in(dir, path))),
                ..self
            },
        }
    }

    /// The disk after a list of steps.
    pub open spec fn after_all(self, ops: Seq<FileOpView>, json: Seq<u8>) -> Media
        decreases ops.len(),
    {
        if ops.len() == 0 {
            self
        } else {
            self.after_all(ops.drop_last(), json).after(ops.last(), json)
        }
    }

    /// The disk after the first `k` steps of a list.
    pub open spec fn after_first(self, ops: Seq<FileOpView>, json: Seq<u8>, k: int) -> Media {
        self.after_all(ops.take(k), json)
    }

    /// `content` is what may be found under `path` when the power fails after `k` whole steps of
    /// `ops`, or in the middle of the next: of a step that is not done, any name may be found as
    /// it was before the step or as it may be after it.
    pub open spec fn may_leave(
        self,
        ops: Seq<FileOpView>,
        json: Seq<u8>,
        k: int,
        path: Seq<char>,
        content: Option<Seq<u8>>,
    ) -> bool {
        &&& 0 <= k <= ops.len()
        &&& {
            ||| self.after_first(ops, json, k).may_hold(path, content)
            ||| k < ops.len() && self.after_first(ops, json, k + 1).may_hold(path, content)
        }
    }

    /// `left` is what the disk may hold when the power fails after `k` whole steps of `ops`, or in
    /// the middle of the next.
    pub open spec fn may_leave_disk(
        self,
        ops: Seq<FileOpView>,
        json: Seq<u8>,
        k: int,
        left: Disk,
    ) -> bool {
        forall|path: Seq<char>| self.may_leave(ops, json, k, path, #[trigger] found(left, path))
    }
}

/// Every name stands for a file of its own, with a number below the next one.
pub open spec fn names_are_distinct(m: Media) -> bool {
    &&& forall|path: Seq<char>| #[trigger] m.names.contains_key(path) ==> m.names[path] < m.next
    &&& forall|path: Seq<char>, other: Seq<char>| #[trigger]
        m.names.contains_key(path) && #[trigger] m.names.contains_key(other) && m.names[path]
            == m.names[other] ==> path == other
}

/// The file that a step writes to, syncs or renames is there.
pub open spec fn finds_its_file(m: Media, op: FileOpView) -> bool {
    match op {
        FileOpView::Write { path, data } => m.names.contains_key(path),
        FileOpView::WriteMetadata { path } => m.names.contains_key(path),
        FileOpView::SyncFile { path } => m.names.contains_key(path),
        FileOpView::Rename { from, to } => m.names.contains_key(from),
        _ => true,
    }
}

/// As long as the power does not fail, a step makes of what is seen what it makes of a disk that
/// never loses anything.
pub proof fn step_is_seen(m: Media, op: FileOpView, json: Seq<u8>)
    requires
        names_are_distinct(m),
        finds_its_file(m, op),
    ensures
        names_are_distinct(m.after(op, json)),
        m.after(op, json).seen() == after_step(m.seen(), op, json),
{
    assert(m.after(op, json).seen() =~= after_step(m.seen(), op, json));
}

/// Where no name or directory has changed since it was last synced, and all bytes are synced, a
/// power loss changes nothing. So it is when a disk is first seen after a power loss.
pub proof fn rested_disk_keeps_all(m: Media, path: Seq<char>)
    requires
        m.past == Map::<Seq<char>, Set<Option<nat>>>::empty(),
        m.loose == Set::<Seq<char>>::empty(),
        forall|name: Seq<char>| #[trigger]
            m.names.contains_key(name) ==> m.synced.contains(m.names[name]),
    ensures
        m.keeps(path),
        m.dirs.contains(path) && (forall|dir: Seq<char>| #[trigger]
            is_above(dir, path) ==> m.dirs.contains(dir)) ==> m.keeps_dir(path),
        names_are_distinct(m) ==> m.is_clear(),
{
}

proof fn lemma_take_step(m: Media, ops: Seq<FileOpView>, json: Seq<u8>, k: int)
    requires
        0 <= k < ops.len(),
    ensures
        m.after_first(ops, json, k + 1) == m.after_first(ops, json, k).after(ops[k], json),
{
    assert(ops.take(k + 1).drop_last() =~= ops.take(k));
}

proof fn lemma_seen_step(m: Media, ops: Seq<FileOpView>, json: Seq<u8>, k: int)
    requires
        0 <= k < ops.len(),
        names_are_distinct(m.after_first(ops, json, k)),
        finds_its_file(m.after_first(ops, json, k), ops[k]),
        m.after_first(ops, json, k).seen() == after_steps(m.seen(), ops.take(k), json),
    ensures
        names_are_distinct(m.after_first(ops, json, k + 1)),
        m.after_first(ops, json, k + 1).seen() == after_steps(m.seen(), ops.take(k + 1), json),
{
    assert(ops.take(k + 1).drop_last() =~= ops.take(k));
    step_is_seen(m.after_first(ops, json, k), ops[k], json);
}

/// The directories on the way to a name in `dir` are `dir` and those on the way to it.
proof fn lemma_above_leads(path: Seq<char>, dir: Seq<char>, above: Seq<char>)
    requires
        lies_in(path, dir),
        is_above(above, path),
    ensures
        leads_to(above, dir),
{
    let name = choose|name: Seq<char>| is_plain(name) && path == #[trigger] joined(dir, name);
    let i = choose|i: int| is_above_at(above, path, i);
    assert(!name.contains(name[0]) || name[0] != '/');
    assert(name.contains(name[0]));
    if i >= dir.len() {
        let at = path.len() - name.len();
        if i >= at {
            assert(path[i] == name[i - at]);
            assert(name.contains(name[i - at]));
        }
        assert(i == dir.len());
        assert(above =~= dir);
    } else {
        assert(path[i] == dir[i]);
        assert(path[i - 1] == dir[i - 1]);
        assert(above =~= dir.take(i));
        assert(is_above_at(above, dir, i));
    }
}

/// The file in which the bytes of a file are gathered lies in the same directory.
proof fn lemma_scratch_lies_in(path: Seq<char>, dir: Seq<char>)
    requires
        lies_in(path, dir),
    ensures
        lies_in(scratch_of(path), dir),
        scratch_of(path) != path,
{
    reveal_strlit(".tmp");
    let name = choose|name: Seq<char>| is_plain(name) && path == #[trigger] joined(dir, name);
    let longer = name + ".tmp"@;
    assert(name.contains(name[0]));
    assert forall|i: int| 0 <= i < longer.len() implies longer[i] != '/' by {
        if i < name.len() {
            assert(name.contains(name[i]));
        }
    }
    assert(is_plain(longer));
    assert(scratch_of(path) =~= joined(dir, longer));
    scratch_file_differs(path);
}

/// Making directories changes nothing of what may be found after a power loss.
proof fn lemma_make_dirs(m: Media, dir: Seq<char>, json: Seq<u8>)
    requires
        m.wf(),
        m.is_clear(),
    ensures
        ({
            let made = m.after(FileOpView::MakeDirs { path: dir }, json);
            &&& made.wf()
            &&& made.is_clear()
            &&& made.names == m.names
            &&& forall|d: Seq<char>| #[trigger] leads_to(d, dir) ==> made.dirs.contains(d)
            &&& forall|path: Seq<char>, content: Option<Seq<u8>>| #[trigger]
                made.may_hold(path, content) ==> m.may_hold(path, content)
            &&& forall|d: Seq<char>| #[trigger] m.keeps_dir(d) ==> made.keeps_dir(d)
            &&& forall|d: Seq<char>| #[trigger]
                made.loose.contains(d) ==> m.loose.contains(d) || leads_to(d, dir) && !m.dirs.contains(d)
        }),
{
    let made = m.after(FileOpView::MakeDirs { path: dir }, json);
    assert forall|path: Seq<char>| #[trigger] made.may_stand_for(path) == m.may_stand_for(path) by {}
    assert forall|path: Seq<char>, content: Option<Seq<u8>>| #[trigger]
        made.may_hold(path, content) implies m.may_hold(path, content) by {
        if content is None && made.may_lose(path) {
            let d = choose|d: Seq<char>| #[trigger] made.loose.contains(d) && is_above(d, path);
            if !m.loose.contains(d) {
                assert(!m.names.contains_key(path));
                assert(m.may_stand_for(path).contains(None));
                assert(m.may_be_of(None, content));
            }
        } else {
            let file = choose|file: Option<nat>| #[trigger]
                made.may_stand_for(path).contains(file) && made.may_be_of(file, content);
            assert(m.may_stand_for(path).contains(file));
            assert(m.may_be_of(file, content));
        }
    }
}

/// `now` is the disk `m` after nothing was done but gather bytes in the file `scratch`, which no
/// other name may stand for.
spec fn gathers(m: Media, now: Media, scratch: Seq<char>) -> bool {
    let file = now.names[scratch];
    &&& now.names == m.names.insert(scratch, file)
    &&& now.dirs == m.dirs
    &&& now.loose == m.loose
    &&& file < now.next
    &&& m.next <= now.next
    &&& forall|path: Seq<char>|
        path != scratch ==> #[trigger] now.may_stand_for(path) == m.may_stand_for(path)
    &&& forall|path: Seq<char>|
        path != scratch ==> !(#[trigger] now.may_stand_for(path)).contains(Some(file))
    &&& forall|other: nat|
        now.may_stand_for(scratch).contains(Some(other)) ==> other < now.next
    &&& forall|other: nat|
        other != file ==> #[trigger] now.bytes[other] == m.bytes[other]
    &&& forall|other: nat|
        other != file ==> #[trigger] now.synced.contains(other) == m.synced.contains(other)
}

proof fn lemma_create(m: Media, scratch: Seq<char>, json: Seq<u8>)
    requires
        m.wf(),
        m.is_clear(),
    ensures
        ({
            let now = m.after(FileOpView::Create { path: scratch }, json);
            gathers(m, now, scratch) && now.bytes[now.names[scratch]] == Seq::<u8>::empty()
        }),
{
    let now = m.after(FileOpView::Create { path: scratch }, json);
    let file = now.names[scratch];
    assert(m.may_stand_for(scratch).contains(m.stands_for(scratch)));
    assert(now.names =~= m.names.insert(scratch, file));
    assert forall|path: Seq<char>| path != scratch implies #[trigger] now.may_stand_for(path)
        == m.may_stand_for(path) by {}
    assert forall|path: Seq<char>| path != scratch implies !(#[trigger] now.may_stand_for(
        path,
    )).contains(Some(file)) by {
        assert(now.may_stand_for(path) == m.may_stand_for(path));
        if m.names.contains_key(scratch) {
            assert(m.names[scratch] == file);
        } else {
            assert(file == m.next);
        }
    }
    assert forall|other: nat| now.may_stand_for(scratch).contains(Some(other)) implies other
        < now.next by {
        assert(m.may_stand_for(scratch).contains(Some(other)) || other == file);
    }
}

proof fn lemma_gather(m: Media, now: Media, scratch: Seq<char>, bytes: Seq<u8>)
    requires
        gathers(m, now, scratch),
    ensures
        gathers(m, now.with_bytes(now.names[scratch], bytes), scratch),
{
    let later = now.with_bytes(now.names[scratch], bytes);
    assert forall|path: Seq<char>| #[trigger] later.may_stand_for(path) == now.may_stand_for(path) by {}
}

proof fn lemma_sync_file(m: Media, now: Media, scratch: Seq<char>, json: Seq<u8>)
    requires
        gathers(m, now, scratch),
    ensures
        gathers(m, now.after(FileOpView::SyncFile { path: scratch }, json), scratch),
{
    let later = now.after(FileOpView::SyncFile { path: scratch }, json);
    assert forall|path: Seq<char>| #[trigger] later.may_stand_for(path) == now.may_stand_for(path) by {}
}

/// While bytes are gathered, any other name is found as it was.
proof fn lemma_gathering_spares(
    m: Media,
    now: Media,
    scratch: Seq<char>,
    path: Seq<char>,
    content: Option<Seq<u8>>,
)
    requires
        gathers(m, now, scratch),
        path != scratch,
        now.may_hold(path, content),
    ensures
        m.may_hold(path, content),
{
    if !(content is None && now.may_lose(path)) {
        let file = choose|file: Option<nat>| #[trigger]
            now.may_stand_for(path).contains(file) && now.may_be_of(file, content);
        assert(now.may_stand_for(path) == m.may_stand_for(path));
        assert(m.may_stand_for(path).contains(file));
        assert(m.may_be_of(file, content));
    }
}

/// Once bytes that are synced get the name `path`, they are found under it, or what was found
/// there before; and any other name is found as it was.
proof fn lemma_rename(
    m: Media,
    now: Media,
    scratch: Seq<char>,
    path: Seq<char>,
    json: Seq<u8>,
    other: Seq<char>,
    content: Option<Seq<u8>>,
)
    requires
        gathers(m, now, scratch),
        now.synced.contains(now.names[scratch]),
        path != scratch,
        other != scratch,
        now.after(FileOpView::Rename { from: scratch, to: path }, json).may_hold(other, content),
    ensures
        m.may_hold(other, content) || other == path && content == Some(now.bytes[now.names[scratch]]),
{
    let later = now.after(FileOpView::Rename { from: scratch, to: path }, json);
    let file = now.names[scratch];
    if !(content is None && later.may_lose(other)) {
        let f = choose|f: Option<nat>| #[trigger]
            later.may_stand_for(other).contains(f) && later.may_be_of(f, content);
        if other == path && f == Some(file) {
        } else {
            assert(now.may_stand_for(other).contains(f));
            assert(now.may_be_of(f, content));
            lemma_gathering_spares(m, now, scratch, other, content);
        }
    }
}

/// Syncing a directory only takes from what may be found after a power loss.
proof fn lemma_sync_dir(m: Media, dir: Seq<char>, json: Seq<u8>)
    ensures
        ({
            let later = m.after(FileOpView::SyncDir { path: dir }, json);
            &&& later.names == m.names
            &&& later.dirs == m.dirs
            &&& later.loose.subset_of(m.loose)
            &&& later.next == m.next
            &&& later.bytes == m.bytes
            &&& later.synced == m.synced
            &&& forall|path: Seq<char>| #[trigger]
                later.may_stand_for(path) == if lies_in(path, dir) {
                    set![m.stands_for(path)]
                } else {
                    m.may_stand_for(path)
                }
            &&& forall|path: Seq<char>, content: Option<Seq<u8>>| #[trigger]
                later.may_hold(path, content) ==> m.may_hold(path, content)
        }),
{
    let later = m.after(FileOpView::SyncDir { path: dir }, json);
    assert forall|path: Seq<char>| #[trigger] later.may_stand_for(path) == if lies_in(path, dir) {
        set![m.stands_for(path)]
    } else {
        m.may_stand_for(path)
    } by {
        assert(later.may_stand_for(path) =~= if lies_in(path, dir) {
            set![m.stands_for(path)]
        } else {
            m.may_stand_for(path)
        });
    }
    assert forall|path: Seq<char>, content: Option<Seq<u8>>| #[trigger]
        later.may_hold(path, content) implies m.may_hold(path, content) by {
        if content is None && later.may_lose(path) {
            let d = choose|d: Seq<char>| #[trigger] later.loose.contains(d) && is_above(d, path);
            assert(m.loose.contains(d));
        } else {
            let file = choose|file: Option<nat>| #[trigger]
                later.may_stand_for(path).contains(file) && later.may_be_of(file, content);
            assert(m.may_stand_for(path).contains(file));
            assert(m.may_be_of(file, content));
        }
    }
}

/// Once the directory of a name that bytes got is synced, they are found under that name, unless
/// the directory is lost; and the disk is as clear as before.
proof fn lemma_replaced(
    m: Media,
    now: Media,
    scratch: Seq<char>,
    path: Seq<char>,
    dir: Seq<char>,
    json: Seq<u8>,
)
    requires
        m.wf(),
        m.is_clear(),
        gathers(m, now, scratch),
        now.synced.contains(now.names[scratch]),
        path != scratch,
        lies_in(path, dir),
        lies_in(scratch, dir),
        forall|d: Seq<char>| #[trigger] leads_to(d, dir) ==> m.dirs.contains(d),
    ensures
        ({
            let later = now.after(FileOpView::Rename { from: scratch, to: path }, json);
            let end = later.after(FileOpView::SyncDir { path: dir }, json);
            &&& end.wf()
            &&& end.is_clear()
            &&& end.may_stand_for(path) == set![Some(now.names[scratch])]
            &&& end.names.contains_key(path)
            &&& end.bytes[end.names[path]] == now.bytes[now.names[scratch]]
            &&& end.synced.contains(now.names[scratch])
        }),
{
    let later = now.after(FileOpView::Rename { from: scratch, to: path }, json);
    let end = later.after(FileOpView::SyncDir { path: dir }, json);
    let file = now.names[scratch];
    lemma_sync_dir(later, dir, json);
    assert forall|p: Seq<char>| p != path && p != scratch implies #[trigger] later.may_stand_for(p)
        == m.may_stand_for(p) by {
        assert(later.may_stand_for(p) =~= now.may_stand_for(p));
    }
    assert forall|p: Seq<char>, f: nat| #[trigger] end.may_stand_for(p).contains(Some(f)) implies f
        < end.next by {
        if p == path {
        } else if p == scratch {
        } else {
            assert(later.may_stand_for(p) == m.may_stand_for(p));
            assert(later.may_stand_for(p).contains(Some(f)));
            assert(m.may_stand_for(p).contains(Some(f)));
        }
    }
    assert forall|p: Seq<char>, d: Seq<char>| #[trigger]
        end.names.contains_key(p) && #[trigger] is_above(d, p) implies end.dirs.contains(d) by {
        if p == path {
            lemma_above_leads(path, dir, d);
        } else {
            assert(m.names.contains_key(p));
        }
    }
    assert forall|p: Seq<char>, q: Seq<char>| #[trigger]
        end.names.contains_key(p) && #[trigger] end.may_stand_for(q).contains(Some(end.names[p])) implies p
        == q by {
        if q != path && q != scratch {
            assert(later.may_stand_for(q) == m.may_stand_for(q));
            assert(later.may_stand_for(q).contains(Some(end.names[p])));
            assert(m.may_stand_for(q).contains(Some(end.names[p])));
            assert(now.may_stand_for(q) == m.may_stand_for(q));
            assert(!now.may_stand_for(q).contains(Some(file)));
            if p != path {
                assert(m.names.contains_key(p));
                assert(end.names[p] == m.names[p]);
            }
        } else if q == scratch {
            assert(later.stands_for(scratch) is None);
        } else if p != path {
            assert(m.names.contains_key(p) && end.names[p] == m.names[p]);
            assert(now.may_stand_for(p).contains(now.stands_for(p)));
        }
    }
}

proof fn lemma_metadata_lies_in(store_dir: Seq<char>)
    ensures
        lies_in(metadata_path_of(store_dir), store_dir),
{
    reveal_strlit("metadata.json");
    let name = "metadata.json"@;
    assert(is_plain(name)) by {
        assert forall|i: int| 0 <= i < name.len() implies name[i] != '/' by {}
    }
}

/// What is found under `path` after all the steps is there, unless its directory is lost.
proof fn lemma_found_at_last(end: Media, path: Seq<char>, content: Option<Seq<u8>>)
    requires
        end.names.contains_key(path),
        end.may_stand_for(path) == set![Some(end.names[path])],
        end.synced.contains(end.names[path]),
        end.may_hold(path, content),
        !end.may_lose(path),
    ensures
        content == Some(end.bytes[end.names[path]]),
        content == found(end.seen(), path),
{
}

/// The steps that replace the metadata gather it, sync it, and only then give it its name.
proof fn lemma_metadata_steps(m: Media, store_dir: Seq<char>, json: Seq<u8>)
    requires
        m.wf(),
        m.is_clear(),
    ensures
        ({
            let ops = metadata_steps(store_dir);
            let path = metadata_path_of(store_dir);
            let ready = m.after_first(ops, json, 5);
            &&& replaces(m, ops, json, 5, store_dir, path)
            &&& ready.bytes[ready.names[scratch_of(path)]] == json + line_end()
            &&& m.after_first(ops, json, 7) == m.after_first(ops, json, 6).after(
                FileOpView::SyncDir { path: store_dir },
                json,
            )
            &&& m.after_all(ops, json) == m.after_first(ops, json, 7)
            &&& m.after_all(ops, json).seen() == after_steps(m.seen(), ops, json)
        }),
{
    let ops = metadata_steps(store_dir);
    let path = metadata_path_of(store_dir);
    let scratch = scratch_of(path);
    assert(ops.take(0) =~= Seq::empty());
    assert(ops.take(7) =~= ops);
    lemma_take_step(m, ops, json, 0);
    lemma_take_step(m, ops, json, 1);
    lemma_take_step(m, ops, json, 2);
    lemma_take_step(m, ops, json, 3);
    lemma_take_step(m, ops, json, 4);
    lemma_take_step(m, ops, json, 5);
    lemma_take_step(m, ops, json, 6);
    lemma_make_dirs(m, store_dir, json);
    let made = m.after_first(ops, json, 1);
    let empty = m.after_first(ops, json, 2);
    let begun = m.after_first(ops, json, 3);
    let whole = m.after_first(ops, json, 4);
    lemma_create(made, scratch, json);
    lemma_gather(made, empty, scratch, empty.bytes[empty.names[scratch]] + json);
    lemma_gather(made, begun, scratch, begun.bytes[begun.names[scratch]] + line_end());
    lemma_sync_file(made, whole, scratch, json);
    assert(Seq::<u8>::empty() + json =~= json);
    assert forall|i: int| 2 <= i <= 5 implies gathers(
        made,
        #[trigger] m.after_first(ops, json, i),
        scratch,
    ) by {
        assert(i == 2 || i == 3 || i == 4 || i == 5);
    }
    lemma_distinct(m);
    lemma_seen_step(m, ops, json, 0);
    lemma_seen_step(m, ops, json, 1);
    lemma_seen_step(m, ops, json, 2);
    lemma_seen_step(m, ops, json, 3);
    lemma_seen_step(m, ops, json, 4);
    lemma_seen_step(m, ops, json, 5);
    lemma_seen_step(m, ops, json, 6);
}

/// Wherever the power fails while the metadata is being replaced, the metadata file is found as
/// it might have been found before, or holds the new metadata complete; the latter for sure once
/// all the steps are taken, where the directory of the store survives. Every other name is found
/// as it might have been found before, but the file in which the metadata is gathered.
pub proof fn metadata_survives_power_loss(
    m: Media,
    store_dir: Seq<char>,
    json: Seq<u8>,
    k: int,
    path: Seq<char>,
    content: Option<Seq<u8>>,
)
    requires
        m.wf(),
        m.is_clear(),
        m.may_leave(metadata_steps(store_dir), json, k, path, content),
        path != scratch_of(metadata_path_of(store_dir)),
    ensures
        m.may_hold(path, content) || path == metadata_path_of(store_dir) && content == Some(
            json + line_end(),
        ),
        k < 5 ==> m.may_hold(path, content),
        k >= 7 && m.keeps_dir(store_dir) && path == metadata_path_of(store_dir) ==> content == Some(
            json + line_end(),
        ),
{
    let ops = metadata_steps(store_dir);
    let target = metadata_path_of(store_dir);
    lemma_metadata_steps(m, store_dir, json);
    lemma_metadata_lies_in(store_dir);
    assert forall|i: int| 0 <= i <= 7 && #[trigger] m.after_first(ops, json, i).may_hold(path, content) implies {
        ||| m.may_hold(path, content)
        ||| i > 5 && path == target && content == Some(json + line_end())
    } by {
        lemma_replacing(m, ops, json, 5, store_dir, target, i, path, content);
    }
    if k == 7 && m.keeps_dir(store_dir) && path == target {
        metadata_is_kept(m, store_dir, json);
    }
}

/// Where a file is replaced in steps that make its directory, gather its bytes up to step `n`,
/// give it its name, and sync directories, then, whatever number of them are taken, names are found
/// after a power loss as they might have been found before, but for the new bytes under their name.
proof fn lemma_replacing(
    m: Media,
    ops: Seq<FileOpView>,
    json: Seq<u8>,
    n: int,
    dir: Seq<char>,
    target: Seq<char>,
    i: int,
    path: Seq<char>,
    content: Option<Seq<u8>>,
)
    requires
        m.wf(),
        m.is_clear(),
        lies_in(target, dir),
        replaces(m, ops, json, n, dir, target),
        0 <= i <= ops.len(),
        path != scratch_of(target),
        m.after_first(ops, json, i).may_hold(path, content),
    ensures
        ({
            let ready = m.after_first(ops, json, n);
            ||| m.may_hold(path, content)
            ||| i > n && path == target && content == Some(
                ready.bytes[ready.names[scratch_of(target)]],
            )
        }),
    decreases i,
{
    let scratch = scratch_of(target);
    let made = m.after_first(ops, json, 1);
    let ready = m.after_first(ops, json, n);
    let now = m.after_first(ops, json, i);
    lemma_scratch_lies_in(target, dir);
    lemma_make_dirs(m, dir, json);
    if i == 0 {
    } else if i == 1 {
        assert(made.may_hold(path, content));
    } else if i <= n {
        lemma_gathering_spares(made, now, scratch, path, content);
        assert(made.may_hold(path, content));
    } else if i == n + 1 {
        lemma_rename(made, ready, scratch, target, json, path, content);
        if made.may_hold(path, content) {
        }
    } else {
        let before = m.after_first(ops, json, i - 1);
        lemma_take_step(m, ops, json, i - 1);
        assert(ops[i - 1] is SyncDir);
        lemma_sync_dir(before, ops[i - 1]->SyncDir_path, json);
        assert(before.may_hold(path, content));
        lemma_replacing(m, ops, json, n, dir, target, i - 1, path, content);
    }
}

/// The steps `ops` make the directory `dir`, gather bytes in the scratch file of `target` and sync
/// them, up to step `n`, then give them the name `target`, and then sync directories.
spec fn replaces(
    m: Media,
    ops: Seq<FileOpView>,
    json: Seq<u8>,
    n: int,
    dir: Seq<char>,
    target: Seq<char>,
) -> bool {
    let scratch = scratch_of(target);
    let made = m.after_first(ops, json, 1);
    let ready = m.after_first(ops, json, n);
    &&& 1 < n < ops.len()
    &&& m.after_first(ops, json, 0) == m
    &&& made == m.after(FileOpView::MakeDirs { path: dir }, json)
    &&& forall|i: int| 2 <= i <= n ==> gathers(made, #[trigger] m.after_first(ops, json, i), scratch)
    &&& ready.synced.contains(ready.names[scratch])
    &&& m.after_first(ops, json, n + 1) == ready.after(
        FileOpView::Rename { from: scratch, to: target },
        json,
    )
    &&& forall|i: int| n < i < ops.len() ==> #[trigger] ops[i] is SyncDir
}

/// Where all the steps that replace the metadata are taken, what is seen is what they make of a
/// disk that never loses anything; the metadata file survives a power loss, where the directory of
/// the store does; and so do all other names and directories that did before, but the file in
/// which the metadata is gathered.
pub proof fn metadata_is_kept(m: Media, store_dir: Seq<char>, json: Seq<u8>)
    requires
        m.wf(),
        m.is_clear(),
    ensures
        ({
            let path = metadata_path_of(store_dir);
            let ops = metadata_steps(store_dir);
            let end = m.after_all(ops, json);
            &&& end.wf()
            &&& end.is_clear()
            &&& end.seen() == after_steps(m.seen(), ops, json)
            &&& found(end.seen(), path) == Some(json + line_end())
            &&& m.keeps_dir(store_dir) ==> end.keeps(path)
            &&& forall|dir: Seq<char>| #[trigger] m.keeps_dir(dir) ==> end.keeps_dir(dir)
            &&& forall|other: Seq<char>|
                other != path && other != scratch_of(path) ==> #[trigger] found(end.seen(), other)
                    == found(m.seen(), other)
            &&& forall|other: Seq<char>|
                other != path && other != scratch_of(path) && #[trigger] m.keeps(other)
                    ==> end.keeps(other)
        }),
{
    let ops = metadata_steps(store_dir);
    let path = metadata_path_of(store_dir);
    let scratch = scratch_of(path);
    let end = m.after_all(ops, json);
    lemma_metadata_steps(m, store_dir, json);
    lemma_metadata_lies_in(store_dir);
    lemma_scratch_lies_in(path, store_dir);
    lemma_make_dirs(m, store_dir, json);
    let made = m.after_first(ops, json, 1);
    let ready = m.after_first(ops, json, 5);
    lemma_sync_dir(m.after_first(ops, json, 6), store_dir, json);
    lemma_replaced(made, ready, scratch, path, store_dir, json);
    assert forall|dir: Seq<char>| #[trigger] m.keeps_dir(dir) implies end.keeps_dir(dir) by {
        assert(made.keeps_dir(dir));
    }
    if m.keeps_dir(store_dir) {
        assert(end.keeps_dir(store_dir));
        lemma_kept_dir_is_not_lost(end, path, store_dir);
        assert forall|content: Option<Seq<u8>>| #[trigger] end.may_hold(path, content) implies content
            == found(end.seen(), path) by {
            lemma_found_at_last(end, path, content);
        }
    }
    all_steps_are_cut_off_last(m.seen(), ops, json);
    metadata_is_replaced_atomically(m.seen(), store_dir, json, 7, end.seen());
    assert forall|other: Seq<char>| other != path && other != scratch implies #[trigger] found(
        end.seen(),
        other,
    ) == found(m.seen(), other) by {
        assert(same_file(m.seen(), end.seen(), other));
    }
    assert forall|other: Seq<char>|
        other != path && other != scratch && #[trigger] m.keeps(other) implies end.keeps(other) by {
        assert(found(end.seen(), other) == found(m.seen(), other));
        lemma_others_are_kept(m, ops, json, 5, store_dir, path, other);
    }
}

proof fn lemma_distinct(m: Media)
    requires
        m.wf(),
        m.is_clear(),
    ensures
        names_are_distinct(m),
{
    assert forall|path: Seq<char>| #[trigger] m.names.contains_key(path) implies m.may_stand_for(
        path,
    ).contains(Some(m.names[path])) by {}
}

proof fn lemma_kept_dir_is_not_lost(m: Media, path: Seq<char>, dir: Seq<char>)
    requires
        lies_in(path, dir),
        m.keeps_dir(dir),
    ensures
        !m.may_lose(path),
{
    if m.may_lose(path) {
        let d = choose|d: Seq<char>| #[trigger] m.loose.contains(d) && is_above(d, path);
        lemma_above_leads(path, dir, d);
    }
}

/// Names that have no part in a file being replaced survive a power loss if they did before.
proof fn lemma_others_are_kept(
    m: Media,
    ops: Seq<FileOpView>,
    json: Seq<u8>,
    n: int,
    dir: Seq<char>,
    target: Seq<char>,
    other: Seq<char>,
)
    requires
        m.wf(),
        m.is_clear(),
        lies_in(target, dir),
        replaces(m, ops, json, n, dir, target),
        other != target,
        other != scratch_of(target),
        found(m.after_all(ops, json).seen(), other) == found(m.seen(), other),
        m.keeps(other),
    ensures
        m.after_all(ops, json).keeps(other),
{
    let end = m.after_all(ops, json);
    let last = ops.len() as int;
    assert(ops.take(last) =~= ops);
    assert forall|content: Option<Seq<u8>>| #[trigger] end.may_hold(other, content) implies content
        == found(end.seen(), other) by {
        assert(m.after_first(ops, json, last) == end);
        lemma_replacing(m, ops, json, n, dir, target, last, other, content);
        assert(m.may_hold(other, content));
    }
}

/// The steps that keep a blob gather its bytes, sync them, and only then give them their name.
proof fn lemma_blob_steps(
    m: Media,
    blobs: Seq<char>,
    dir: Seq<char>,
    path: Seq<char>,
    data: Seq<u8>,
    json: Seq<u8>,
)
    requires
        m.wf(),
        m.is_clear(),
    ensures
        ({
            let ops = blob_steps(blobs, dir, path, data);
            let ready = m.after_first(ops, json, 4);
            &&& replaces(m, ops, json, 4, dir, path)
            &&& ready.bytes[ready.names[scratch_of(path)]] == data
            &&& m.after_first(ops, json, 6) == m.after_first(ops, json, 5).after(
                FileOpView::SyncDir { path: dir },
                json,
            )
            &&& m.after_first(ops, json, 7) == m.after_first(ops, json, 6).after(
                FileOpView::SyncDir { path: blobs },
                json,
            )
            &&& m.after_all(ops, json) == m.after_first(ops, json, 7)
            &&& m.after_all(ops, json).seen() == after_steps(m.seen(), ops, json)
        }),
{
    let ops = blob_steps(blobs, dir, path, data);
    let scratch = scratch_of(path);
    assert(ops.take(0) =~= Seq::empty());
    assert(ops.take(7) =~= ops);
    lemma_take_step(m, ops, json, 0);
    lemma_take_step(m, ops, json, 1);
    lemma_take_step(m, ops, json, 2);
    lemma_take_step(m, ops, json, 3);
    lemma_take_step(m, ops, json, 4);
    lemma_take_step(m, ops, json, 5);
    lemma_take_step(m, ops, json, 6);
    lemma_make_dirs(m, dir, json);
    let made = m.after_first(ops, json, 1);
    let empty = m.after_first(ops, json, 2);
    let whole = m.after_first(ops, json, 3);
    lemma_create(made, scratch, json);
    lemma_gather(made, empty, scratch, empty.bytes[empty.names[scratch]] + data);
    lemma_sync_file(made, whole, scratch, json);
    assert(Seq::<u8>::empty() + data =~= data);
    assert forall|i: int| 2 <= i <= 4 implies gathers(
        made,
        #[trigger] m.after_first(ops, json, i),
        scratch,
    ) by {
        assert(i == 2 || i == 3 || i == 4);
    }
    lemma_distinct(m);
    lemma_seen_step(m, ops, json, 0);
    lemma_seen_step(m, ops, json, 1);
    lemma_seen_step(m, ops, json, 2);
    lemma_seen_step(m, ops, json, 3);
    lemma_seen_step(m, ops, json, 4);
    lemma_seen_step(m, ops, json, 5);
    lemma_seen_step(m, ops, json, 6);
}

/// Wherever the power fails while a blob is being kept, the file of the blob is found as it might
/// have been found before, or holds all its bytes; the latter for sure once all the steps are
/// taken, where the directory of the blobs survives. Every other name is found as it might have
/// been found before, but the file in which the bytes are gathered.
pub proof fn blob_survives_power_loss(
    m: Media,
    blobs: Seq<char>,
    dir: Seq<char>,
    target: Seq<char>,
    data: Seq<u8>,
    json: Seq<u8>,
    k: int,
    path: Seq<char>,
    content: Option<Seq<u8>>,
)
    requires
        m.wf(),
        m.is_clear(),
        lies_in(target, dir),
        dir == blobs || lies_in(dir, blobs),
        m.may_leave(blob_steps(blobs, dir, target, data), json, k, path, content),
        path != scratch_of(target),
    ensures
        m.may_hold(path, content) || path == target && content == Some(data),
        k < 4 ==> m.may_hold(path, content),
        k >= 7 && m.keeps_dir(blobs) && path == target ==> content == Some(data),
{
    let ops = blob_steps(blobs, dir, target, data);
    lemma_blob_steps(m, blobs, dir, target, data, json);
    assert forall|i: int| 0 <= i <= 7 && #[trigger] m.after_first(ops, json, i).may_hold(path, content) implies {
        ||| m.may_hold(path, content)
        ||| i > 4 && path == target && content == Some(data)
    } by {
        lemma_replacing(m, ops, json, 4, dir, target, i, path, content);
    }
    if k == 7 && m.keeps_dir(blobs) && path == target {
        blob_is_kept(m, blobs, dir, target, data, json);
    }
}

/// Where all the steps that keep a blob are taken, what is seen is what they make of a disk that
/// never loses anything; the file of the blob survives a power loss, where the directory of the
/// blobs does; and so do all other names and directories that did before, but the file in which
/// the bytes are gathered.
pub proof fn blob_is_kept(
    m: Media,
    blobs: Seq<char>,
    dir: Seq<char>,
    path: Seq<char>,
    data: Seq<u8>,
    json: Seq<u8>,
)
    requires
        m.wf(),
        m.is_clear(),
        lies_in(path, dir),
        dir == blobs || lies_in(dir, blobs),
    ensures
        ({
            let ops = blob_steps(blobs, dir, path, data);
            let end = m.after_all(ops, json);
            &&& end.wf()
            &&& end.is_clear()
            &&& end.seen() == after_steps(m.seen(), ops, json)
            &&& found(end.seen(), path) == Some(data)
            &&& m.keeps_dir(blobs) ==> end.keeps(path) && end.keeps_dir(dir)
            &&& forall|d: Seq<char>| #[trigger] m.keeps_dir(d) ==> end.keeps_dir(d)
            &&& forall|other: Seq<char>|
                other != path && other != scratch_of(path) ==> #[trigger] found(end.seen(), other)
                    == found(m.seen(), other)
            &&& forall|other: Seq<char>|
                other != path && other != scratch_of(path) && #[trigger] m.keeps(other)
                    ==> end.keeps(other)
        }),
{
    let ops = blob_steps(blobs, dir, path, data);
    let scratch = scratch_of(path);
    let end = m.after_all(ops, json);
    lemma_blob_steps(m, blobs, dir, path, data, json);
    lemma_scratch_lies_in(path, dir);
    lemma_make_dirs(m, dir, json);
    let made = m.after_first(ops, json, 1);
    let ready = m.after_first(ops, json, 4);
    let synced = m.after_first(ops, json, 6);
    lemma_sync_dir(m.after_first(ops, json, 5), dir, json);
    lemma_sync_dir(synced, blobs, json);
    lemma_replaced(made, ready, scratch, path, dir, json);
    lemma_sync_dir_keeps_clear(synced, blobs, json);
    assert forall|d: Seq<char>| #[trigger] m.keeps_dir(d) implies end.keeps_dir(d) by {
        assert(made.keeps_dir(d));
    }
    if m.keeps_dir(blobs) {
        assert(end.keeps_dir(blobs));
        assert forall|d: Seq<char>| #[trigger] leads_to(d, dir) implies end.dirs.contains(d)
            && !end.loose.contains(d) by {
            assert(made.dirs.contains(d));
            if dir != blobs && d != dir {
                lemma_above_leads(dir, blobs, d);
            }
            assert(leads_to(d, blobs) || lies_in(d, blobs));
        }
        assert(end.keeps_dir(dir));
        lemma_kept_dir_is_not_lost(end, path, dir);
        assert forall|content: Option<Seq<u8>>| #[trigger] end.may_hold(path, content) implies content
            == found(end.seen(), path) by {
            assert(end.may_stand_for(path) =~= set![Some(end.names[path])]);
            lemma_found_at_last(end, path, content);
        }
    }
    all_steps_are_cut_off_last(m.seen(), ops, json);
    blob_is_kept_atomically(m.seen(), blobs, dir, path, data, json, 7, end.seen());
    assert forall|other: Seq<char>| other != path && other != scratch implies #[trigger] found(
        end.seen(),
        other,
    ) == found(m.seen(), other) by {
        assert(same_file(m.seen(), end.seen(), other));
    }
    assert forall|other: Seq<char>|
        other != path && other != scratch && #[trigger] m.keeps(other) implies end.keeps(other) by {
        assert(found(end.seen(), other) == found(m.seen(), other));
        lemma_others_are_kept(m, ops, json, 4, dir, path, other);
    }
}

proof fn lemma_sync_dir_keeps_clear(m: Media, dir: Seq<char>, json: Seq<u8>)
    requires
        m.wf(),
        m.is_clear(),
    ensures
        m.after(FileOpView::SyncDir { path: dir }, json).wf(),
        m.after(FileOpView::SyncDir { path: dir }, json).is_clear(),
{
    let later = m.after(FileOpView::SyncDir { path: dir }, json);
    lemma_sync_dir(m, dir, json);
    assert forall|path: Seq<char>, file: Option<nat>| #[trigger]
        later.may_stand_for(path).contains(file) implies m.may_stand_for(path).contains(file) by {}
}

} // verus!
