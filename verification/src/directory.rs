//! The directory: entries kept in the order of their names.

use vstd::prelude::*;
use crate::names::{order_names, NameOrder};
use crate::names::{name_before, name_before_is_asymmetric, name_before_is_transitive};

verus! {

/// A run of bytes of a file that is kept in a blob.
#[derive(Clone, Debug)]
pub struct BlobRef {
    pub blob: String,
    pub offset: u64,
    pub len: u64,
}

/// What a [`BlobRef`] says.
#[verifier::ext_equal]
pub struct BlobRefView {
    pub blob: Seq<char>,
    pub offset: u64,
    pub len: u64,
}

impl View for BlobRef {
    type V = BlobRefView;

    open spec fn view(&self) -> BlobRefView {
        BlobRefView { blob: self.blob@, offset: self.offset, len: self.len }
    }
}

/// A file: its inode, its permissions, its committed size and where its bytes are kept.
#[derive(Clone, Debug)]
pub struct Entry {
    pub ino: u64,
    pub mode: u16,
    pub size: u64,
    pub blobs: Vec<BlobRef>,
}

/// What an [`Entry`] says.
#[verifier::ext_equal]
pub struct EntryView {
    pub ino: u64,
    pub mode: u16,
    pub size: u64,
    pub blobs: Seq<BlobRefView>,
}

impl View for Entry {
    type V = EntryView;

    open spec fn view(&self) -> EntryView {
        EntryView {
            ino: self.ino,
            mode: self.mode,
            size: self.size,
            blobs: self.blobs@.map_values(|b: BlobRef| b@),
        }
    }
}

/// Entries under their names.
pub type Entries = Map<Seq<char>, EntryView>;

/// `rows` holds exactly the entries of `entries`, in the order of their names.
pub open spec fn is_listing(rows: Seq<(Seq<char>, EntryView)>, entries: Entries) -> bool {
    &&& forall|i: int, j: int|
        0 <= i < j < rows.len() ==> name_before(#[trigger] rows[i].0, #[trigger] rows[j].0)
    &&& forall|i: int|
        0 <= i < rows.len() ==> entries.contains_key(#[trigger] rows[i].0)
            && entries[rows[i].0] == rows[i].1
    &&& forall|name: Seq<char>| #[trigger]
        entries.contains_key(name) ==> exists|i: int|
            0 <= i < rows.len() && #[trigger] rows[i].0 == name
}

/// The entries in the order of their names.
pub open spec fn listing(entries: Entries) -> Seq<(Seq<char>, EntryView)> {
    choose|rows: Seq<(Seq<char>, EntryView)>| is_listing(rows, entries)
}

/// `name` is the first name whose entry has inode `ino`.
pub open spec fn is_holder(entries: Entries, ino: u64, name: Seq<char>) -> bool {
    &&& entries.contains_key(name)
    &&& entries[name].ino == ino
    &&& forall|other: Seq<char>| #[trigger]
        entries.contains_key(other) && entries[other].ino == ino ==> other == name
            || name_before(name, other)
}

/// The first name whose entry has inode `ino`.
pub open spec fn holder(entries: Entries, ino: u64) -> Option<Seq<char>> {
    if exists|name: Seq<char>| is_holder(entries, ino, name) {
        Some(choose|name: Seq<char>| is_holder(entries, ino, name))
    } else {
        None
    }
}

/// There is at most one first name for an inode.
pub proof fn holder_is_unique(entries: Entries, ino: u64, name: Seq<char>)
    requires
        is_holder(entries, ino, name),
    ensures
        holder(entries, ino) == Some(name),
{
    let chosen = choose|n: Seq<char>| is_holder(entries, ino, n);
    assert(is_holder(entries, ino, chosen));
    if chosen != name {
        name_before_is_asymmetric(name, chosen);
    }
}

/// Entries have only one listing.
pub proof fn listing_is_unique(rows: Seq<(Seq<char>, EntryView)>, entries: Entries)
    requires
        is_listing(rows, entries),
    ensures
        listing(entries) == rows,
{
    lemma_listings_agree(rows, listing(entries), entries);
}

proof fn lemma_listings_agree(
    a: Seq<(Seq<char>, EntryView)>,
    b: Seq<(Seq<char>, EntryView)>,
    entries: Entries,
)
    requires
        is_listing(a, entries),
        is_listing(b, entries),
    ensures
        a == b,
    decreases a.len(),
{
    if a.len() == 0 {
        if b.len() > 0 {
            assert(entries.contains_key(b[0].0));
        }
        assert(a =~= b);
    } else {
        assert(entries.contains_key(a.last().0));
        let i = choose|i: int| 0 <= i < b.len() && #[trigger] b[i].0 == a.last().0;
        assert(entries.contains_key(b.last().0));
        let j = choose|j: int| 0 <= j < a.len() && #[trigger] a[j].0 == b.last().0;
        if a.last().0 != b.last().0 {
            assert(name_before(b[i].0, b[b.len() - 1].0));
            assert(name_before(a[j].0, a[a.len() - 1].0));
            name_before_is_asymmetric(a.last().0, b.last().0);
        }
        let name = a.last().0;
        let rest = entries.remove(name);
        lemma_listing_without_last(a, entries);
        lemma_listing_without_last(b, entries);
        lemma_listings_agree(a.drop_last(), b.drop_last(), rest);
        assert(a.last() == b.last());
        assert(a =~= a.drop_last().push(a.last()));
        assert(b =~= b.drop_last().push(b.last()));
    }
}

proof fn lemma_listing_without_last(rows: Seq<(Seq<char>, EntryView)>, entries: Entries)
    requires
        is_listing(rows, entries),
        rows.len() > 0,
    ensures
        is_listing(rows.drop_last(), entries.remove(rows.last().0)),
{
    let name = rows.last().0;
    let rest = entries.remove(name);
    let init = rows.drop_last();
    assert forall|i: int| 0 <= i < init.len() implies rest.contains_key(#[trigger] init[i].0)
        && rest[init[i].0] == init[i].1 by {
        assert(init[i] == rows[i]);
        assert(name_before(rows[i].0, rows[rows.len() - 1].0));
        name_before_is_asymmetric(rows[i].0, name);
    }
    assert forall|n: Seq<char>| #[trigger] rest.contains_key(n) implies exists|i: int|
        0 <= i < init.len() && #[trigger] init[i].0 == n by {
        assert(entries.contains_key(n));
        let i = choose|i: int| 0 <= i < rows.len() && #[trigger] rows[i].0 == n;
        assert(init[i].0 == n);
    }
}

/// The entries of the one directory, found by name and walked in the order of the names.
#[derive(Clone, Debug)]
pub struct Directory {
    rows: Vec<(String, Entry)>,
}

impl View for Directory {
    type V = Entries;

    closed spec fn view(&self) -> Entries {
        Map::new(
            |name: Seq<char>| exists|i: int| 0 <= i < self.rows@.len() && #[trigger] self.rows@[i].0@ == name,
            |name: Seq<char>|
                self.rows@[choose|i: int| 0 <= i < self.rows@.len() && #[trigger] self.rows@[i].0@ == name].1@,
        )
    }
}

impl Directory {
    /// The names are in order, so none occurs twice.
    pub closed spec fn wf(self) -> bool {
        forall|i: int, j: int|
            0 <= i < j < self.rows@.len() ==> name_before(
                #[trigger] self.rows@[i].0@,
                #[trigger] self.rows@[j].0@,
            )
    }

    /// The entries in the order in which they are kept.
    pub closed spec fn listed(self) -> Seq<(Seq<char>, EntryView)> {
        self.rows@.map_values(|row: (String, Entry)| (row.0@, row.1@))
    }

    proof fn lemma_row(self, i: int)
        requires
            self.wf(),
            0 <= i < self.rows@.len(),
        ensures
            self@.contains_key(self.rows@[i].0@),
            self@[self.rows@[i].0@] == self.rows@[i].1@,
    {
        let name = self.rows@[i].0@;
        let k = choose|k: int| 0 <= k < self.rows@.len() && #[trigger] self.rows@[k].0@ == name;
        if k < i {
            name_before_is_asymmetric(self.rows@[k].0@, self.rows@[i].0@);
        } else if i < k {
            name_before_is_asymmetric(self.rows@[i].0@, self.rows@[k].0@);
        }
    }

    /// A directory keeps its entries as the listing of what it holds.
    pub proof fn lemma_listed(self)
        requires
            self.wf(),
        ensures
            is_listing(self.listed(), self@),
            self.listed() == listing(self@),
    {
        assert forall|i: int| 0 <= i < self.listed().len() implies self@.contains_key(
            #[trigger] self.listed()[i].0,
        ) && self@[self.listed()[i].0] == self.listed()[i].1 by {
            self.lemma_row(i);
        }
        assert forall|name: Seq<char>| #[trigger] self@.contains_key(name) implies exists|i: int|
            0 <= i < self.listed().len() && #[trigger] self.listed()[i].0 == name by {
            let i = choose|i: int| 0 <= i < self.rows@.len() && #[trigger] self.rows@[i].0@ == name;
            assert(self.listed()[i].0 == name);
        }
        listing_is_unique(self.listed(), self@);
    }

    /// Every inode in a directory has a first name.
    pub proof fn lemma_holder_exists(self, name: Seq<char>)
        requires
            self.wf(),
            self@.contains_key(name),
        ensures
            holder(self@, self@[name].ino) is Some,
    {
        let k = choose|k: int| 0 <= k < self.rows@.len() && #[trigger] self.rows@[k].0@ == name;
        self.lemma_row(k);
        self.lemma_first_holds(self@[name].ino, 0, k);
    }

    proof fn lemma_first_holds(self, ino: u64, from: int, k: int)
        requires
            self.wf(),
            0 <= from <= k < self.rows@.len(),
            self.rows@[k].1.ino == ino,
            forall|j: int| 0 <= j < from ==> (#[trigger] self.rows@[j]).1.ino != ino,
        ensures
            holder(self@, ino) is Some,
        decreases k - from,
    {
        if self.rows@[from].1.ino == ino {
            self.lemma_first_row_holds(ino, from);
        } else {
            self.lemma_first_holds(ino, from + 1, k);
        }
    }

    /// The first row with an inode gives that inode its name.
    proof fn lemma_first_row_holds(self, ino: u64, i: int)
        requires
            self.wf(),
            0 <= i < self.rows@.len(),
            self.rows@[i].1.ino == ino,
            forall|j: int| 0 <= j < i ==> (#[trigger] self.rows@[j]).1.ino != ino,
        ensures
            holder(self@, ino) == Some(self.rows@[i].0@),
    {
        let name = self.rows@[i].0@;
        self.lemma_row(i);
        assert forall|other: Seq<char>| #[trigger]
            self@.contains_key(other) && self@[other].ino == ino implies other == name
            || name_before(name, other) by {
            let k = choose|k: int| 0 <= k < self.rows@.len() && #[trigger] self.rows@[k].0@ == other;
            self.lemma_row(k);
        }
        holder_is_unique(self@, ino, name);
    }

    /// A directory without entries.
    pub fn new() -> (r: Self)
        ensures
            r.wf(),
            r@ == Entries::empty(),
    {
        let r = Directory { rows: Vec::new() };
        assert(r@ =~= Entries::empty());
        r
    }

    /// The number of entries.
    pub fn len(&self) -> (r: usize)
        requires
            self.wf(),
        ensures
            is_listing(listing(self@), self@),
            r == listing(self@).len(),
    {
        proof { self.lemma_listed(); }
        self.rows.len()
    }

    /// Entry number `i` in the order of the names, with its name.
    pub fn row(&self, i: usize) -> (r: (&str, &Entry))
        requires
            self.wf(),
            i < listing(self@).len(),
        ensures
            r.0@ == listing(self@)[i as int].0,
            r.1@ == listing(self@)[i as int].1,
    {
        proof { self.lemma_listed(); }
        let row = &self.rows[i];
        (row.0.as_str(), &row.1)
    }

    /// Where `name` stands, or where it would have to be put.
    fn locate(&self, name: &str) -> (r: (usize, bool))
        requires
            self.wf(),
        ensures
            r.0 <= self.rows@.len(),
            r.1 == self@.contains_key(name@),
            r.1 ==> r.0 < self.rows@.len() && self.rows@[r.0 as int].0@ == name@,
            forall|j: int| 0 <= j < r.0 ==> name_before(#[trigger] self.rows@[j].0@, name@),
            !r.1 ==> forall|j: int|
                r.0 <= j < self.rows@.len() ==> name_before(name@, #[trigger] self.rows@[j].0@),
    {
        let mut i: usize = 0;
        while i < self.rows.len()
            invariant
                self.wf(),
                i <= self.rows@.len(),
                forall|j: int| 0 <= j < i ==> name_before(#[trigger] self.rows@[j].0@, name@),
            decreases self.rows@.len() - i,
        {
            match order_names(name, self.rows[i].0.as_str()) {
                NameOrder::Same => {
                    proof { self.lemma_row(i as int); }
                    return (i, true);
                },
                NameOrder::Before => {
                    proof {
                        assert forall|j: int| i <= j < self.rows@.len() implies name_before(
                            name@,
                            #[trigger] self.rows@[j].0@,
                        ) by {
                            if i < j {
                                name_before_is_transitive(
                                    name@,
                                    self.rows@[i as int].0@,
                                    self.rows@[j].0@,
                                );
                            }
                        }
                        self.lemma_absent(name@, i as int);
                    }
                    return (i, false);
                },
                NameOrder::After => {},
            }
            i += 1;
        }
        proof { self.lemma_absent(name@, i as int); }
        (i, false)
    }

    proof fn lemma_absent(self, name: Seq<char>, i: int)
        requires
            0 <= i <= self.rows@.len(),
            forall|j: int| 0 <= j < i ==> name_before(#[trigger] self.rows@[j].0@, name),
            forall|j: int| i <= j < self.rows@.len() ==> name_before(name, #[trigger] self.rows@[j].0@),
        ensures
            !self@.contains_key(name),
    {
        if self@.contains_key(name) {
            let k = choose|k: int| 0 <= k < self.rows@.len() && #[trigger] self.rows@[k].0@ == name;
            name_before_is_asymmetric(name, name);
        }
    }

    /// The entry under `name`.
    pub fn get(&self, name: &str) -> (r: Option<&Entry>)
        requires
            self.wf(),
        ensures
            r is Some <==> self@.contains_key(name@),
            r is Some ==> (r->0)@ == self@[name@],
    {
        let (i, found) = self.locate(name);
        if found {
            proof { self.lemma_row(i as int); }
            Some(&self.rows[i].1)
        } else {
            None
        }
    }

    /// Whether there is an entry under `name`.
    pub fn contains_key(&self, name: &str) -> (r: bool)
        requires
            self.wf(),
        ensures
            r == self@.contains_key(name@),
    {
        self.locate(name).1
    }

    /// Puts `entry` under `name`, in place of what stood there.
    pub fn insert(&mut self, name: String, entry: Entry)
        requires
            old(self).wf(),
        ensures
            final(self).wf(),
            final(self)@ == old(self)@.insert(name@, entry@),
    {
        let ghost before = *self;
        let (i, found) = self.locate(name.as_str());
        let ghost shown = (name@, entry@);
        if found {
            let _ = self.rows.remove(i);
        }
        let ghost middle = *self;
        proof {
            if found {
                before.lemma_removed(middle, i as int);
            }
            middle.lemma_absent(shown.0, i as int);
        }
        self.rows.insert(i, (name, entry));
        proof {
            middle.lemma_inserted(*self, i as int);
            assert(self@ =~= before@.insert(shown.0, shown.1));
        }
    }

    /// Takes the entry under `name` away.
    pub fn remove(&mut self, name: &str) -> (r: Option<Entry>)
        requires
            old(self).wf(),
        ensures
            final(self).wf(),
            final(self)@ == old(self)@.remove(name@),
            r is Some <==> old(self)@.contains_key(name@),
            r is Some ==> (r->0)@ == old(self)@[name@],
    {
        let ghost before = *self;
        let (i, found) = self.locate(name);
        if found {
            proof { self.lemma_row(i as int); }
            let row = self.rows.remove(i);
            proof { before.lemma_removed(*self, i as int); }
            Some(row.1)
        } else {
            assert(self@ =~= before@.remove(name@));
            None
        }
    }

    proof fn lemma_removed(self, after: Directory, i: int)
        requires
            self.wf(),
            0 <= i < self.rows@.len(),
            after.rows@ == self.rows@.remove(i),
        ensures
            after.wf(),
            after@ == self@.remove(self.rows@[i].0@),
            forall|j: int| 0 <= j < i ==> #[trigger] after.rows@[j] == self.rows@[j],
            forall|j: int| i <= j < after.rows@.len() ==> #[trigger] after.rows@[j] == self.rows@[j + 1],
            forall|j: int|
                i <= j < after.rows@.len() ==> name_before(
                    self.rows@[i].0@,
                    #[trigger] after.rows@[j].0@,
                ),
    {
        let name = self.rows@[i].0@;
        assert forall|j: int, k: int| 0 <= j < k < after.rows@.len() implies name_before(
            #[trigger] after.rows@[j].0@,
            #[trigger] after.rows@[k].0@,
        ) by {
            let a = if j < i { j } else { j + 1 };
            let b = if k < i { k } else { k + 1 };
            assert(after.rows@[j] == self.rows@[a]);
            assert(after.rows@[k] == self.rows@[b]);
        }
        assert forall|n: Seq<char>| #[trigger] after@.contains_key(n) <==> self@.remove(
            name,
        ).contains_key(n) by {
            if after@.contains_key(n) {
                let j = choose|j: int| 0 <= j < after.rows@.len() && #[trigger] after.rows@[j].0@ == n;
                let a = if j < i { j } else { j + 1 };
                assert(after.rows@[j] == self.rows@[a]);
                self.lemma_row(a);
                if a < i {
                    name_before_is_asymmetric(self.rows@[a].0@, self.rows@[i].0@);
                } else {
                    name_before_is_asymmetric(self.rows@[i].0@, self.rows@[a].0@);
                }
            }
            if self@.contains_key(n) && n != name {
                let a = choose|a: int| 0 <= a < self.rows@.len() && #[trigger] self.rows@[a].0@ == n;
                let j = if a < i { a } else { a - 1 };
                assert(after.rows@[j] == self.rows@[a]);
            }
        }
        assert forall|n: Seq<char>| #[trigger] after@.contains_key(n) implies after@[n] == self@[n] by {
            let j = choose|j: int| 0 <= j < after.rows@.len() && #[trigger] after.rows@[j].0@ == n;
            let a = if j < i { j } else { j + 1 };
            assert(after.rows@[j] == self.rows@[a]);
            after.lemma_row(j);
            self.lemma_row(a);
        }
        assert(after@ =~= self@.remove(name));
    }

    proof fn lemma_inserted(self, after: Directory, i: int)
        requires
            self.wf(),
            0 <= i <= self.rows@.len(),
            after.rows@.len() == self.rows@.len() + 1,
            after.rows@ == self.rows@.insert(i, after.rows@[i]),
            forall|j: int| 0 <= j < i ==> name_before(#[trigger] self.rows@[j].0@, after.rows@[i].0@),
            forall|j: int|
                i <= j < self.rows@.len() ==> name_before(
                    after.rows@[i].0@,
                    #[trigger] self.rows@[j].0@,
                ),
        ensures
            after.wf(),
            after@ == self@.insert(after.rows@[i].0@, after.rows@[i].1@),
    {
        assert forall|j: int, k: int| 0 <= j < k < after.rows@.len() implies name_before(
            #[trigger] after.rows@[j].0@,
            #[trigger] after.rows@[k].0@,
        ) by {
            let a = if j < i { j } else { j - 1 };
            let b = if k < i { k } else { k - 1 };
            assert(j != i ==> after.rows@[j] == self.rows@[a]);
            assert(k != i ==> after.rows@[k] == self.rows@[b]);
        }
        assert(after.rows@.remove(i) =~= self.rows@);
        after.lemma_removed(self, i);
        after.lemma_row(i);
        assert(after@ =~= self@.insert(after.rows@[i].0@, after.rows@[i].1@));
    }

    /// Where the first entry with inode `ino` stands.
    fn locate_inode(&self, ino: u64) -> (r: Option<usize>)
        requires
            self.wf(),
        ensures
            r is Some ==> r->0 < self.rows@.len() && self.rows@[r->0 as int].1.ino == ino && holder(
                self@,
                ino,
            ) == Some(self.rows@[r->0 as int].0@),
            r is None ==> holder(self@, ino) is None,
            r is None ==> forall|name: Seq<char>| #[trigger]
                self@.contains_key(name) ==> self@[name].ino != ino,
    {
        let mut i: usize = 0;
        while i < self.rows.len()
            invariant
                self.wf(),
                i <= self.rows@.len(),
                forall|j: int| 0 <= j < i ==> (#[trigger] self.rows@[j]).1.ino != ino,
            decreases self.rows@.len() - i,
        {
            if self.rows[i].1.ino == ino {
                proof { self.lemma_first_row_holds(ino, i as int); }
                return Some(i);
            }
            i += 1;
        }
        proof {
            assert forall|name: Seq<char>| #[trigger] self@.contains_key(name) implies self@[name].ino
                != ino by {
                let k = choose|k: int| 0 <= k < self.rows@.len() && #[trigger] self.rows@[k].0@ == name;
                self.lemma_row(k);
            }
        }
        None
    }

    /// The first entry with inode `ino`, with its name.
    pub fn find(&self, ino: u64) -> (r: Option<(&str, &Entry)>)
        requires
            self.wf(),
        ensures
            r is Some <==> holder(self@, ino) is Some,
            r is Some ==> holder(self@, ino) == Some((r->0).0@) && (r->0).1@ == self@[(r->0).0@],
            r is None ==> forall|name: Seq<char>| #[trigger]
                self@.contains_key(name) ==> self@[name].ino != ino,
    {
        match self.locate_inode(ino) {
            Some(i) => {
                proof { self.lemma_row(i as int); }
                let row = &self.rows[i];
                Some((row.0.as_str(), &row.1))
            },
            None => None,
        }
    }

    /// The first entry with inode `ino`, with its name, to be changed in place.
    pub fn find_mut(&mut self, ino: u64) -> (r: Option<(&str, &mut Entry)>)
        requires
            old(self).wf(),
        ensures
            final(self).wf(),
            r is Some <==> holder(old(self)@, ino) is Some,
            r is Some ==> holder(old(self)@, ino) == Some((r->0).0@),
            r is Some ==> (*(r->0).1)@ == old(self)@[(r->0).0@],
            r is Some ==> final(self)@ == old(self)@.insert((r->0).0@, (*final((r->0).1))@),
            r is None ==> final(self)@ == old(self)@,
            r is None ==> forall|name: Seq<char>| #[trigger]
                old(self)@.contains_key(name) ==> old(self)@[name].ino != ino,
    {
        match self.locate_inode(ino) {
            Some(i) => {
                let ghost before = *self;
                proof {
                    self.lemma_row(i as int);
                    assert forall|after: Directory|
                        after.rows@.len() == before.rows@.len() && after.rows@[i as int].0
                            == before.rows@[i as int].0 && after.rows@
                            == #[trigger] before.rows@.update(i as int, after.rows@[i as int]) implies after.wf()
                        && after@ == before@.insert(
                        before.rows@[i as int].0@,
                        after.rows@[i as int].1@,
                    ) by {
                        before.lemma_updated(after, i as int);
                    }
                }
                let row = &mut self.rows[i];
                Some((row.0.as_str(), &mut row.1))
            },
            None => None,
        }
    }

    proof fn lemma_updated(self, after: Directory, i: int)
        requires
            self.wf(),
            0 <= i < self.rows@.len(),
            after.rows@ == self.rows@.update(i, after.rows@[i]),
            after.rows@[i].0@ == self.rows@[i].0@,
        ensures
            after.wf(),
            after@ == self@.insert(self.rows@[i].0@, after.rows@[i].1@),
    {
        assert forall|j: int| 0 <= j < self.rows@.len() implies #[trigger] after.rows@[j].0@
            == self.rows@[j].0@ by {}
        assert forall|n: Seq<char>| #[trigger] after@.contains_key(n) <==> self@.contains_key(n) by {
            if after@.contains_key(n) {
                let j = choose|j: int| 0 <= j < after.rows@.len() && #[trigger] after.rows@[j].0@ == n;
                assert(self.rows@[j].0@ == n);
            }
            if self@.contains_key(n) {
                let j = choose|j: int| 0 <= j < self.rows@.len() && #[trigger] self.rows@[j].0@ == n;
                assert(after.rows@[j].0@ == n);
            }
        }
        self.lemma_row(i);
        assert forall|n: Seq<char>| #[trigger] after@.contains_key(n) implies after@[n] == self@.insert(
            self.rows@[i].0@,
            after.rows@[i].1@,
        )[n] by {
            let j = choose|j: int| 0 <= j < after.rows@.len() && #[trigger] after.rows@[j].0@ == n;
            after.lemma_row(j);
            self.lemma_row(j);
        }
        assert(after@ =~= self@.insert(self.rows@[i].0@, after.rows@[i].1@));
    }
}

/// All that a store keeps of its files beside their bytes.
#[derive(Clone, Debug)]
pub struct Metadata {
    pub next_inode: u64,
    pub next_blob: u64,
    pub entries: Directory,
}

/// What a [`Metadata`] says.
#[verifier::ext_equal]
pub struct MetadataView {
    pub next_inode: u64,
    pub next_blob: u64,
    pub entries: Entries,
}

impl View for Metadata {
    type V = MetadataView;

    open spec fn view(&self) -> MetadataView {
        MetadataView {
            next_inode: self.next_inode,
            next_blob: self.next_blob,
            entries: self.entries@,
        }
    }
}

} // verus!
