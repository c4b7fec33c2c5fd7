//! The bytes of a file: put together from blobs, written, cut or extended, and read.

use vstd::prelude::*;
use vstd::slice::{slice_subrange, slice_to_vec};
use crate::directory::Entry;
use crate::directory::{BlobRefView, EntryView};
use crate::fs::MagicFS;

verus! {

/// `n` zero bytes.
pub open spec fn zeros(n: nat) -> Seq<u8> {
    Seq::new(n, |i: int| 0u8)
}

/// The bytes `s` cut, or extended with zeros, to `n` bytes.
pub open spec fn resized(s: Seq<u8>, n: nat) -> Seq<u8> {
    Seq::new(n, |i: int| if i < s.len() { s[i] } else { 0 })
}

/// The bytes `s` with `data` written over them at `at`; a gap between them is filled with zeros.
pub open spec fn written(s: Seq<u8>, at: nat, data: Seq<u8>) -> Seq<u8> {
    Seq::new(
        if s.len() < at + data.len() { at + data.len() } else { s.len() },
        |i: int|
            if at <= i < at + data.len() {
                data[i - at]
            } else if i < s.len() {
                s[i]
            } else {
                0
            },
    )
}

/// Where a request that names `offset` starts: negative offsets count as the beginning.
pub open spec fn position(offset: i64) -> nat {
    if offset < 0 { 0 } else { offset as nat }
}

/// At most `size` bytes of `s` from `offset` on; none where `offset` is past the end.
pub open spec fn window(s: Seq<u8>, offset: i64, size: u32) -> Seq<u8> {
    let start = if position(offset) < s.len() { position(offset) } else { s.len() };
    let end = if start + size < s.len() { start + size } else { s.len() as int };
    s.subrange(start as int, end)
}

/// The bytes of a file of `size` bytes whose blobs hold `blobs`: each blob in turn is laid over
/// the file, which starts out as zeros.
pub open spec fn assembled(size: nat, refs: Seq<BlobRefView>, blobs: Seq<Seq<u8>>) -> Seq<u8>
    decreases refs.len(),
{
    if refs.len() == 0 {
        zeros(size)
    } else {
        written(
            assembled(size, refs.drop_last(), blobs.drop_last()),
            refs.last().offset as nat,
            blobs.last().take(refs.last().len as int),
        )
    }
}

/// The blobs of `entry` are all there: each holds what is taken from it, which lies within the
/// file, and the file is no longer than memory can hold.
pub open spec fn fits(entry: EntryView, blobs: Seq<Seq<u8>>) -> bool {
    &&& entry.size <= isize::MAX
    &&& blobs.len() == entry.blobs.len()
    &&& forall|i: int|
        0 <= i < entry.blobs.len() ==> {
            &&& (#[trigger] entry.blobs[i]).offset + entry.blobs[i].len <= entry.size
            &&& entry.blobs[i].len <= blobs[i].len()
        }
}

/// The bytes in a list of blobs.
pub open spec fn bytes_of(blobs: Seq<Vec<u8>>) -> Seq<Seq<u8>> {
    blobs.map_values(|b: Vec<u8>| b@)
}

/// What was written is read back, and everything else stays as it was.
pub proof fn write_is_read_back(s: Seq<u8>, at: nat, data: Seq<u8>)
    ensures
        written(s, at, data).subrange(at as int, (at + data.len()) as int) == data,
        forall|i: int|
            0 <= i < s.len() && !(at <= i < at + data.len()) ==> #[trigger] written(s, at, data)[i]
                == s[i],
        forall|i: int| s.len() <= i < at ==> #[trigger] written(s, at, data)[i] == 0,
{
    assert(written(s, at, data).subrange(at as int, (at + data.len()) as int) =~= data);
}

/// Two reads one after the other give what one read over both ranges gives.
pub proof fn reads_join(s: Seq<u8>, offset: i64, first: u32, second: u32)
    requires
        0 <= offset,
        offset + first <= i64::MAX,
        first + second <= u32::MAX,
    ensures
        window(s, offset, first) + window(s, (offset + first) as i64, second) == window(
            s,
            offset,
            (first + second) as u32,
        ),
{
    assert(window(s, offset, first) + window(s, (offset + first) as i64, second) =~= window(
        s,
        offset,
        (first + second) as u32,
    ));
}

/// Laying blobs over a file that they fit in leaves its size as it is.
pub proof fn assembled_has_size(entry: EntryView, blobs: Seq<Seq<u8>>)
    requires
        fits(entry, blobs),
    ensures
        assembled(entry.size as nat, entry.blobs, blobs).len() == entry.size,
{
    lemma_assembled_len(entry, blobs, entry.blobs.len() as int);
    assert(entry.blobs.take(entry.blobs.len() as int) =~= entry.blobs);
    assert(blobs.take(entry.blobs.len() as int) =~= blobs);
}

proof fn lemma_assembled_len(entry: EntryView, blobs: Seq<Seq<u8>>, k: int)
    requires
        fits(entry, blobs),
        0 <= k <= entry.blobs.len(),
    ensures
        assembled(entry.size as nat, entry.blobs.take(k), blobs.take(k)).len() == entry.size,
    decreases k,
{
    if k > 0 {
        lemma_assembled_len(entry, blobs, k - 1);
        lemma_assembled_step(entry, blobs, k - 1);
    }
}

proof fn lemma_assembled_step(entry: EntryView, blobs: Seq<Seq<u8>>, k: int)
    requires
        fits(entry, blobs),
        0 <= k < entry.blobs.len(),
    ensures
        assembled(entry.size as nat, entry.blobs.take(k + 1), blobs.take(k + 1)) == written(
            assembled(entry.size as nat, entry.blobs.take(k), blobs.take(k)),
            entry.blobs[k].offset as nat,
            blobs[k].take(entry.blobs[k].len as int),
        ),
{
    assert(entry.blobs.take(k + 1).drop_last() =~= entry.blobs.take(k));
    assert(blobs.take(k + 1).drop_last() =~= blobs.take(k));
}

/// The byte at position `p` of a file is that of the last of its blobs that covers `p`, and zero
/// where none does. The proof gives the index of that blob, or -1.
pub proof fn assembled_at(entry: EntryView, blobs: Seq<Seq<u8>>, k: int, p: int) -> (r: int)
    requires
        fits(entry, blobs),
        0 <= k <= entry.blobs.len(),
        0 <= p < entry.size,
    ensures
        ({
            let refs = entry.blobs;
            let s = assembled(entry.size as nat, refs.take(k), blobs.take(k));
            &&& -1 <= r < k
            &&& s.len() == entry.size
            &&& forall|l: int|
                r < l < k ==> !((#[trigger] refs[l]).offset <= p < refs[l].offset + refs[l].len)
            &&& if r < 0 {
                s[p] == 0
            } else {
                refs[r].offset <= p < refs[r].offset + refs[r].len && s[p] == blobs[r][p
                    - refs[r].offset]
            }
        }),
    decreases k,
{
    let refs = entry.blobs;
    lemma_assembled_len(entry, blobs, k);
    if k == 0 {
        -1
    } else {
        lemma_assembled_len(entry, blobs, k - 1);
        lemma_assembled_step(entry, blobs, k - 1);
        let before = assembled_at(entry, blobs, k - 1, p);
        if refs[k - 1].offset <= p < refs[k - 1].offset + refs[k - 1].len {
            k - 1
        } else {
            before
        }
    }
}

/// Writes `data` over `buf` at `at`.
pub fn write_at(buf: &mut Vec<u8>, at: usize, data: &[u8])
    requires
        at + data@.len() <= isize::MAX,
    ensures
        final(buf)@ == written(old(buf)@, at as nat, data@),
{
    let end: usize = at + data.len();
    if buf.len() < end {
        let ghost shorter = buf@;
        buf.resize(end, 0);
        assert forall|i: int| 0 <= i < shorter.len() implies buf@[i] == shorter[i] by {
            assert(buf@.subrange(0, shorter.len() as int)[i] == buf@[i]);
        }
    }
    let ghost sized = buf@;
    let mut i: usize = 0;
    while i < data.len()
        invariant
            i <= data@.len(),
            at + data@.len() == end,
            end <= sized.len(),
            buf@.len() == sized.len(),
            forall|j: int| 0 <= j < i ==> #[trigger] buf@[at + j] == data@[j],
            forall|j: int|
                0 <= j < sized.len() && !(at <= j < at + i) ==> #[trigger] buf@[j] == sized[j],
        decreases data@.len() - i,
    {
        buf.set(at + i, data[i]);
        i += 1;
    }
    assert forall|j: int| at <= j < end implies #[trigger] buf@[j] == data@[j - at] by {
        assert(buf@[at + (j - at)] == data@[j - at]);
    }
    assert(buf@ =~= written(old(buf)@, at as nat, data@));
}

/// Cuts or extends `buf` to `len` bytes.
pub fn set_len(buf: &mut Vec<u8>, len: usize)
    requires
        len <= isize::MAX,
    ensures
        final(buf)@ == resized(old(buf)@, len as nat),
{
    let ghost before = buf@;
    buf.resize(len, 0);
    assert(len > before.len() ==> forall|i: int| #![auto]
        0 <= i < before.len() ==> buf@.subrange(0, before.len() as int)[i] == buf@[i]);
    assert(buf@ =~= resized(before, len as nat));
}

/// Reads at most `size` bytes of `data` from `offset` on.
pub fn read_window(data: &Vec<u8>, offset: i64, size: u32) -> (r: Vec<u8>)
    ensures
        r@ == window(data@, offset, size),
{
    let len: usize = data.len();
    let start: usize = if offset <= 0 {
        0
    } else if offset as u64 >= len as u64 {
        len
    } else {
        offset as usize
    };
    let rest: usize = len - start;
    let end: usize = if (size as u64) < rest as u64 {
        start + size as usize
    } else {
        len
    };
    slice_to_vec(slice_subrange(data.as_slice(), start, end))
}

/// Whether the blobs of `entry` are all there, as [`MagicFS::read_committed`] needs them.
pub fn blobs_fit(entry: &Entry, blobs: &Vec<Vec<u8>>) -> (r: bool)
    ensures
        r == fits(entry@, bytes_of(blobs@)),
{
    if entry.size > isize::MAX as u64 || blobs.len() != entry.blobs.len() {
        return false;
    }
    let mut i: usize = 0;
    while i < entry.blobs.len()
        invariant
            i <= entry.blobs@.len(),
            entry.size <= isize::MAX,
            blobs@.len() == entry.blobs@.len(),
            forall|j: int|
                0 <= j < i ==> {
                    &&& (#[trigger] entry@.blobs[j]).offset + entry@.blobs[j].len <= entry.size
                    &&& entry@.blobs[j].len <= bytes_of(blobs@)[j].len()
                },
        decreases entry.blobs@.len() - i,
    {
        let piece = &entry.blobs[i];
        assert(entry@.blobs[i as int] == piece@);
        assert(bytes_of(blobs@)[i as int] == blobs@[i as int]@);
        if piece.offset > entry.size || piece.len > entry.size - piece.offset || piece.len
            > blobs[i].len() as u64 {
            return false;
        }
        i += 1;
    }
    true
}

impl MagicFS {
    /// Puts the bytes of a file together from the contents of its blobs.
    pub fn read_committed(&self, entry: &Entry, blobs: &Vec<Vec<u8>>) -> (r: Vec<u8>)
        requires
            fits(entry@, bytes_of(blobs@)),
        ensures
            r@ == assembled(entry@.size as nat, entry@.blobs, bytes_of(blobs@)),
    {
        let ghost held = bytes_of(blobs@);
        let mut data: Vec<u8> = vec![0u8; entry.size as usize];
        assert(data@ =~= zeros(entry.size as nat));
        let mut i: usize = 0;
        while i < entry.blobs.len()
            invariant
                i <= entry.blobs@.len(),
                fits(entry@, held),
                held == bytes_of(blobs@),
                data@ == assembled(entry.size as nat, entry@.blobs.take(i as int), held.take(i as int)),
                data@.len() == entry.size,
            decreases entry.blobs@.len() - i,
        {
            let piece = &entry.blobs[i];
            assert(entry@.blobs[i as int] == piece@);
            assert(held[i as int] == blobs@[i as int]@);
            let bytes = slice_subrange(blobs[i].as_slice(), 0, piece.len as usize);
            write_at(&mut data, piece.offset as usize, bytes);
            proof {
                lemma_assembled_step(entry@, held, i as int);
                assert(bytes@ =~= held[i as int].take(piece.len as int));
            }
            i += 1;
        }
        proof {
            assert(entry@.blobs.take(i as int) =~= entry@.blobs);
            assert(held.take(i as int) =~= held);
        }
        data
    }
}

} // verus!
