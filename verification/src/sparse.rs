//! The sparse container: block store, insert algorithm and queries.

use crate::range_index::{
    ent_has, rm_contents, rm_entries, rm_get_entry, rm_insert, rm_new, rm_overlaps,
};
use core::ops::Range;
use rangemap::RangeMap;
use vstd::prelude::*;

verus! {

broadcast use vstd::set::group_set_axioms, vstd::map::group_map_axioms;

/// One stored block: a half-open address range and the buffer holding the
/// element written at each of its addresses.
pub(crate) struct Block<T> {
    pub key: usize,
    pub start: u64,
    pub end: u64,
    pub buf: Vec<T>,
}

/// A sparse, range-indexed container over a 64-bit linear address space.
///
/// Only the sub-ranges that have actually been written are stored; touching
/// writes coalesce into single blocks and overlapping writes win over older
/// data address by address.  The abstract state (the view `@`) is the partial
/// map from addresses to the element last written there.
pub struct SparseVec<T> {
    map: RangeMap<u64, usize>,
    data: Vec<Block<T>>,
    key_counter: usize,
}

/// The error reported when `addr + data.len()` would leave the 64-bit
/// address space.
#[derive(Debug, PartialEq, Eq, Structural)]
pub struct AddressOverflow;

/// A block is internally consistent: a non-empty range whose buffer holds
/// exactly one element per address.
pub(crate) open spec fn block_wf<T>(b: Block<T>) -> bool {
    &&& b.start < b.end
    &&& b.buf@.len() == b.end - b.start
}

/// The block `b` covers the address `a`.
pub(crate) open spec fn blk_has<T>(b: Block<T>, a: u64) -> bool {
    b.start <= a < b.end
}

/// The `(start, end)` pair covers the address `a`.
pub open spec fn span_has(t: (u64, u64), a: u64) -> bool {
    t.0 <= a < t.1
}

/// The total number of addresses covered by a sequence of `(start, end)`
/// pairs.
pub open spec fn span_sum(s: Seq<(u64, u64)>) -> int
    decreases s.len(),
{
    if s.len() == 0 {
        0
    } else {
        span_sum(s.drop_last()) + (s.last().1 - s.last().0)
    }
}

/// All addresses of `[start, end)` are present in `m`, and so is `start`
/// itself (which matters only for an empty query range).
pub open spec fn covered<T>(m: Map<u64, T>, start: u64, end: u64) -> bool {
    &&& m.dom().contains(start)
    &&& start <= end
    &&& forall|a: u64| start <= a < end ==> m.dom().contains(a)
}

/// The partial map written by storing the sequence `d` at address `addr`.
pub open spec fn written<T>(addr: u64, d: Seq<T>) -> Map<u64, T> {
    Map::new(|a: u64| addr <= a < addr + d.len(), |a: u64| d[a - addr])
}

impl<T> SparseVec<T> {
    /// The pointwise contents of the range index.
    pub(crate) closed spec fn rm(self) -> Map<u64, usize> {
        rm_contents(self.map)
    }

    pub(crate) closed spec fn blocks(self) -> Seq<Block<T>> {
        self.data@
    }

    /// How many storage keys have been allocated so far.
    pub closed spec fn key_count(self) -> nat {
        self.key_counter as nat
    }

    /// The stored ranges, ascending, as `(start, end)` pairs.
    pub closed spec fn range_seq(self) -> Seq<(u64, u64)> {
        self.data@.map(|i: int, b: Block<T>| (b.start, b.end))
    }

    /// Well-formedness: blocks are consistent, strictly ordered and never
    /// touching, their keys are distinct and below the key counter, and the
    /// range index associates exactly the blocks' addresses with the blocks'
    /// keys.
    pub closed spec fn wf(self) -> bool {
        let rm = rm_contents(self.map);
        let bs = self.data@;
        &&& forall|i: int| 0 <= i < bs.len() ==> block_wf(#[trigger] bs[i])
        &&& forall|i: int, j: int|
            0 <= i < j < bs.len() ==> (#[trigger] bs[i]).end < (#[trigger] bs[j]).start
        &&& forall|i: int, j: int|
            0 <= i < bs.len() && 0 <= j < bs.len() && i != j ==> (#[trigger] bs[i]).key != (
            #[trigger] bs[j]).key
        &&& forall|i: int| 0 <= i < bs.len() ==> (#[trigger] bs[i]).key < self.key_counter
        &&& forall|i: int, a: u64|
            0 <= i < bs.len() && #[trigger] blk_has(bs[i], a) ==> rm.dom().contains(a) && rm[a]
                == bs[i].key
        &&& forall|a: u64| #[trigger]
            rm.dom().contains(a) ==> exists|i: int| 0 <= i < bs.len() && blk_has(#[trigger] bs[i], a)
    }

    /// The abstract state: the element stored at each covered address.
    pub closed spec fn contents(self) -> Map<u64, T> {
        Map::new(
            |a: u64| rm_contents(self.map).dom().contains(a),
            |a: u64|
                {
                    let i = choose|i: int|
                        0 <= i < self.data@.len() && blk_has(#[trigger] self.data@[i], a);
                    self.data@[i].buf@[a - self.data@[i].start]
                },
        )
    }
}

impl<T> View for SparseVec<T> {
    type V = Map<u64, T>;

    closed spec fn view(&self) -> Map<u64, T> {
        self.contents()
    }
}

/// Under `wf`, the block covering an address determines the contents there.
pub(crate) proof fn lemma_contents_at<T>(v: SparseVec<T>, i: int, a: u64)
    requires
        v.wf(),
        0 <= i < v.blocks().len(),
        v.blocks()[i].start <= a < v.blocks()[i].end,
    ensures
        v@.dom().contains(a),
        v@[a] == v.blocks()[i].buf@[a - v.blocks()[i].start],
{
    let bs = v.blocks();
    assert(blk_has(bs[i], a));
    assert(v@.dom().contains(a));
    let j = choose|j: int| 0 <= j < bs.len() && blk_has(#[trigger] bs[j], a);
    if i != j {
        if i < j {
            assert(bs[i].end < bs[j].start);
        } else {
            assert(bs[j].end < bs[i].start);
        }
        assert(false);
    }
}

/// Under `wf`, two consecutive covered addresses carry the same key: stored
/// blocks never touch.
pub(crate) proof fn lemma_adjacent_same_key<T>(v: SparseVec<T>, a: u64)
    requires
        v.wf(),
        a < u64::MAX,
        v.rm().dom().contains(a),
        v.rm().dom().contains((a + 1) as u64),
    ensures
        v.rm()[a] == v.rm()[(a + 1) as u64],
{
    let bs = v.blocks();
    let b = (a + 1) as u64;
    let i = choose|i: int| 0 <= i < bs.len() && blk_has(#[trigger] bs[i], a);
    let j = choose|j: int| 0 <= j < bs.len() && blk_has(#[trigger] bs[j], b);
    assert(blk_has(bs[i], a) && blk_has(bs[j], b));
    if i != j {
        if i < j {
            assert(bs[i].end < bs[j].start);
        } else {
            assert(bs[j].end < bs[i].start);
        }
        assert(false);
    }
}

/// Under `wf`, a block coincides with the stored entry of any address it
/// covers: entries are maximal runs of one key, and a block's addresses are
/// exactly the addresses carrying its key.
pub(crate) proof fn lemma_block_extent<T>(v: SparseVec<T>, i: int, t: (u64, u64, usize))
    requires
        v.wf(),
        0 <= i < v.blocks().len(),
        v.blocks()[i].key == t.2,
        t.0 < t.1,
        forall|a: u64|
            #![trigger v.rm().dom().contains(a)]
            #![trigger v.rm()[a]]
            t.0 <= a < t.1 ==> v.rm().dom().contains(a) && v.rm()[a] == t.2,
        t.0 > 0 ==> !(v.rm().dom().contains((t.0 - 1) as u64) && v.rm()[(t.0 - 1) as u64] == t.2),
        !(v.rm().dom().contains(t.1) && v.rm()[t.1] == t.2),
        exists|a: u64| t.0 <= a < t.1 && blk_has(v.blocks()[i], a),
    ensures
        v.blocks()[i].start == t.0,
        v.blocks()[i].end == t.1,
{
    let bs = v.blocks();
    let b = bs[i];
    let a0 = choose|a: u64| t.0 <= a < t.1 && blk_has(v.blocks()[i], a);
    assert(blk_has(b, a0));
    if b.start < t.0 {
        assert(blk_has(b, (t.0 - 1) as u64));
        assert(false);
    }
    if b.start > t.0 {
        let x = (b.start - 1) as u64;
        assert(t.0 <= x);
        assert(x < t.1);
        assert(v.rm().dom().contains(x) && v.rm()[x] == t.2);
        let j = choose|j: int| 0 <= j < bs.len() && blk_has(#[trigger] bs[j], x);
        assert(bs[j].key == t.2);
        assert(j == i);
        assert(false);
    }
    if b.end < t.1 {
        let x = b.end;
        assert(v.rm().dom().contains(x) && v.rm()[x] == t.2);
        let j = choose|j: int| 0 <= j < bs.len() && blk_has(#[trigger] bs[j], x);
        assert(bs[j].key == t.2);
        assert(j == i);
        assert(false);
    }
    if b.end > t.1 {
        assert(blk_has(b, t.1));
        assert(false);
    }
}

/// Mid-insert consistency: every indexed address has a block carrying its
/// key whose buffer holds the intended element for that address.  Blocks may
/// still overlap the freshly inserted range here; only the association
/// key-to-block must be right.
pub(crate) open spec fn loose_inv<T>(
    rm: Map<u64, usize>,
    bs: Seq<Block<T>>,
    vals: Map<u64, T>,
    counter: nat,
) -> bool {
    &&& forall|i: int| 0 <= i < bs.len() ==> block_wf(#[trigger] bs[i])
    &&& forall|i: int, j: int|
        0 <= i < bs.len() && 0 <= j < bs.len() && i != j ==> (#[trigger] bs[i]).key != (
        #[trigger] bs[j]).key
    &&& forall|i: int| 0 <= i < bs.len() ==> (#[trigger] bs[i]).key < counter
    &&& forall|a: u64| #[trigger]
        rm.dom().contains(a) ==> exists|i: int|
            0 <= i < bs.len() && (#[trigger] bs[i]).key == rm[a] && blk_has(bs[i], a)
                && bs[i].buf@[a - bs[i].start] == vals[a]
}

/// Consistency during the adjacency-merge pass: blocks and index are in
/// exact lockstep, blocks are ordered and hold the intended elements, but
/// consecutive blocks may still touch.
pub(crate) open spec fn merge_inv<T>(
    rm: Map<u64, usize>,
    bs: Seq<Block<T>>,
    tgt: Map<u64, T>,
    counter: nat,
) -> bool {
    &&& forall|i: int| 0 <= i < bs.len() ==> block_wf(#[trigger] bs[i])
    &&& forall|i: int, j: int|
        0 <= i < bs.len() && 0 <= j < bs.len() && i != j ==> (#[trigger] bs[i]).key != (
        #[trigger] bs[j]).key
    &&& forall|i: int| 0 <= i < bs.len() ==> (#[trigger] bs[i]).key < counter
    &&& forall|i: int, a: u64|
        0 <= i < bs.len() && #[trigger] blk_has(bs[i], a) ==> rm.dom().contains(a) && rm[a]
            == bs[i].key
    &&& forall|a: u64| #[trigger]
        rm.dom().contains(a) ==> exists|i: int| 0 <= i < bs.len() && blk_has(#[trigger] bs[i], a)
    &&& forall|i: int, x: int|
        #![trigger bs[i].buf@[x]]
        0 <= i < bs.len() && 0 <= x < bs[i].buf@.len() ==> bs[i].buf@[x] == tgt[(bs[i].start
            + x) as u64]
    &&& forall|a: u64|
        #![trigger rm.dom().contains(a)]
        #![trigger tgt.dom().contains(a)]
        rm.dom().contains(a) == tgt.dom().contains(a)
    &&& forall|i: int| 0 <= i && i + 1 < bs.len() ==> (#[trigger] bs[i]).end <= bs[i + 1].start
}

/// Key runs are convex: if one key appears at two addresses, it covers
/// everything in between.
pub(crate) open spec fn keys_convex(rm: Map<u64, usize>) -> bool {
    forall|a: u64, b: u64, c: u64|
        #![trigger rm.dom().contains(a), rm.dom().contains(b), rm.dom().contains(c)]
        a < b < c && rm.dom().contains(a) && rm.dom().contains(c) && rm[a] == rm[c]
            ==> rm.dom().contains(b) && rm[b] == rm[a]
}

/// No key appears both strictly below `lo` and at or above `hi`.
pub(crate) open spec fn split_safe(rm: Map<u64, usize>, lo: u64, hi: u64) -> bool {
    forall|a: u64, c: u64|
        a < lo && c >= hi && #[trigger] rm.dom().contains(a) && #[trigger] rm.dom().contains(c)
            ==> rm[a] != rm[c]
}

/// A well-formed container has convex key runs: each key's addresses are
/// exactly one block's range.
pub(crate) proof fn lemma_wf_convex<T>(v: SparseVec<T>)
    requires
        v.wf(),
    ensures
        keys_convex(v.rm()),
{
    let bs = v.blocks();
    let rm = v.rm();
    assert forall|a: u64, b: u64, c: u64|
        #![trigger rm.dom().contains(a), rm.dom().contains(b), rm.dom().contains(c)]
        a < b < c && rm.dom().contains(a) && rm.dom().contains(c) && rm[a] == rm[c] implies
        rm.dom().contains(b) && rm[b] == rm[a] by {
        let i = choose|i: int| 0 <= i < bs.len() && blk_has(#[trigger] bs[i], a);
        let j = choose|j: int| 0 <= j < bs.len() && blk_has(#[trigger] bs[j], c);
        assert(blk_has(bs[i], a) && blk_has(bs[j], c));
        assert(bs[i].key == rm[a] && bs[j].key == rm[c]);
        assert(i == j);
        assert(blk_has(bs[i], b));
    }
}

/// A well-formed container satisfies the loose mid-insert invariant with its
/// own contents as the intended values.
pub(crate) proof fn lemma_wf_loose<T>(v: SparseVec<T>, counter: nat)
    requires
        v.wf(),
        v.key_count() <= counter,
    ensures
        loose_inv(v.rm(), v.blocks(), v@, counter),
{
    let bs = v.blocks();
    let rm = v.rm();
    assert forall|a: u64| #[trigger] rm.dom().contains(a) implies exists|i: int|
        0 <= i < bs.len() && (#[trigger] bs[i]).key == rm[a] && blk_has(bs[i], a)
            && bs[i].buf@[a - bs[i].start] == v@[a] by {
        let i = choose|i: int| 0 <= i < bs.len() && blk_has(#[trigger] bs[i], a);
        assert(blk_has(bs[i], a));
        lemma_contents_at(v, i, a);
        assert(0 <= i < bs.len() && bs[i].key == rm[a] && blk_has(bs[i], a) && bs[i].buf@[a
            - bs[i].start] == v@[a]);
    }
}

/// Overwriting one contiguous range with a fresh key keeps key runs convex,
/// provided no single key straddles the overwritten range.
pub(crate) proof fn lemma_override_convex(
    rm0: Map<u64, usize>,
    rm1: Map<u64, usize>,
    lo: u64,
    hi: u64,
    nk: usize,
)
    requires
        lo < hi,
        keys_convex(rm0),
        split_safe(rm0, lo, hi),
        forall|a: u64| #[trigger] rm0.dom().contains(a) ==> rm0[a] != nk,
        forall|a: u64|
            #![trigger rm1.dom().contains(a)]
            #![trigger rm1[a]]
            lo <= a < hi ==> rm1.dom().contains(a) && rm1[a] == nk,
        forall|a: u64|
            #![trigger rm1.dom().contains(a)]
            #![trigger rm1[a]]
            #![trigger rm0.dom().contains(a)]
            #![trigger rm0[a]]
            !(lo <= a < hi) ==> (rm1.dom().contains(a) == rm0.dom().contains(a) && (
            rm0.dom().contains(a) ==> rm1[a] == rm0[a])),
    ensures
        keys_convex(rm1),
{
    assert forall|a: u64, b: u64, c: u64|
        #![trigger rm1.dom().contains(a), rm1.dom().contains(b), rm1.dom().contains(c)]
        a < b < c && rm1.dom().contains(a) && rm1.dom().contains(c) && rm1[a] == rm1[c] implies
        rm1.dom().contains(b) && rm1[b] == rm1[a] by {
        if rm1[a] == nk {
            assert(lo <= a < hi);
            assert(lo <= c < hi);
            assert(lo <= b < hi);
        } else {
            assert(!(lo <= a < hi));
            assert(!(lo <= c < hi));
            assert(rm0.dom().contains(a) && rm0[a] == rm1[a]);
            assert(rm0.dom().contains(c) && rm0[c] == rm1[c]);
            assert(!(a < lo && c >= hi));
            assert(rm0.dom().contains(b) && rm0[b] == rm0[a]);
            assert(!(lo <= b < hi));
        }
    }
}

/// Stored entries are pairwise ordered, not only consecutively.
pub(crate) proof fn lemma_entries_chain(es: Seq<(u64, u64, usize)>, i: int, j: int)
    requires
        forall|q: int| 0 <= q < es.len() ==> (#[trigger] es[q]).0 < es[q].1,
        forall|q: int| 0 <= q && q + 1 < es.len() ==> (#[trigger] es[q]).1 <= es[q + 1].0,
        0 <= i < j < es.len(),
    ensures
        es[i].1 <= es[j].0,
    decreases j - i,
{
    if i + 1 < j {
        lemma_entries_chain(es, i, j - 1);
    }
}

/// Ordered blocks are pairwise separated, not only consecutively.
pub(crate) proof fn lemma_blocks_chain<T>(bs: Seq<Block<T>>, i: int, j: int)
    requires
        forall|q: int| 0 <= q < bs.len() ==> block_wf(#[trigger] bs[q]),
        forall|q: int| 0 <= q && q + 1 < bs.len() ==> (#[trigger] bs[q]).end < bs[q + 1].start,
        0 <= i < j < bs.len(),
    ensures
        bs[i].end < bs[j].start,
    decreases j - i,
{
    if i + 1 < j {
        lemma_blocks_chain(bs, i, j - 1);
    }
}

/// When key runs are convex, no two stored entries carry the same key:
/// a key's run is one maximal entry.
pub(crate) proof fn lemma_entries_distinct(rm: Map<u64, usize>, es: Seq<(u64, u64, usize)>)
    requires
        keys_convex(rm),
        forall|q: int| 0 <= q < es.len() ==> (#[trigger] es[q]).0 < es[q].1,
        forall|q: int| 0 <= q && q + 1 < es.len() ==> (#[trigger] es[q]).1 <= es[q + 1].0,
        forall|q: int, a: u64|
            0 <= q < es.len() && #[trigger] ent_has(es[q], a) ==> rm.dom().contains(a) && rm[a]
                == es[q].2,
        forall|q: int|
            0 <= q < es.len() ==> !(rm.dom().contains((#[trigger] es[q]).1) && rm[es[q].1]
                == es[q].2),
    ensures
        forall|j1: int, j2: int|
            0 <= j1 < j2 < es.len() ==> (#[trigger] es[j1]).2 != (#[trigger] es[j2]).2,
{
    assert forall|j1: int, j2: int| 0 <= j1 < j2 < es.len() implies (#[trigger] es[j1]).2 != (
    #[trigger] es[j2]).2 by {
        if es[j1].2 == es[j2].2 {
            lemma_entries_chain(es, j1, j2);
            let x = es[j1].1;
            let a = es[j1].0;
            let c = es[j2].0;
            assert(ent_has(es[j1], a));
            assert(ent_has(es[j2], c));
            assert(rm.dom().contains(a) && rm[a] == es[j1].2);
            assert(rm.dom().contains(c) && rm[c] == es[j2].2);
            if x == c {
                assert(false);
            } else {
                assert(a < x < c);
                assert(rm[a] == rm[c]);
                assert(rm.dom().contains(a) && !(rm.dom().contains(x) && rm[x] == es[j1].2)
                    && rm.dom().contains(c));
                assert(rm.dom().contains(x) && rm[x] == rm[a]);
                assert(false);
            }
        }
    }
}

/// One step of the adjacency merge: replacing two touching blocks by their
/// concatenation, and pointing the index at the surviving key across the
/// union, preserves the merge invariant.
#[verifier::rlimit(100)]
pub(crate) proof fn lemma_merge_step<T>(
    rma: Map<u64, usize>,
    rmb: Map<u64, usize>,
    bsa: Seq<Block<T>>,
    bsb: Seq<Block<T>>,
    nb: Block<T>,
    tgt: Map<u64, T>,
    counter: nat,
    m: int,
)
    requires
        merge_inv(rma, bsa, tgt, counter),
        0 <= m,
        m + 1 < bsa.len(),
        bsa[m].end == bsa[m + 1].start,
        nb.key == bsa[m].key,
        nb.start == bsa[m].start,
        nb.end == bsa[m + 1].end,
        nb.buf@ == bsa[m].buf@ + bsa[m + 1].buf@,
        bsb == bsa.remove(m + 1).remove(m).insert(m, nb),
        forall|i: int| 0 <= i < m ==> (#[trigger] bsa[i]).end < bsa[i + 1].start,
        forall|a: u64|
            #![trigger rmb.dom().contains(a)]
            #![trigger rmb[a]]
            bsa[m].start <= a < bsa[m + 1].end ==> rmb.dom().contains(a) && rmb[a] == bsa[m].key,
        forall|a: u64|
            #![trigger rmb.dom().contains(a)]
            #![trigger rmb[a]]
            #![trigger rma.dom().contains(a)]
            #![trigger rma[a]]
            !(bsa[m].start <= a < bsa[m + 1].end) ==> (rmb.dom().contains(a) == rma.dom().contains(
                a,
            ) && (rma.dom().contains(a) ==> rmb[a] == rma[a])),
    ensures
        merge_inv(rmb, bsb, tgt, counter),
        bsb.len() == bsa.len() - 1,
        forall|i: int| 0 <= i < m ==> (#[trigger] bsb[i]).end < bsb[i + 1].start,
{
    let s1 = bsa[m].start;
    let e1 = bsa[m].end;
    let s2 = bsa[m + 1].start;
    let e2 = bsa[m + 1].end;
    let k1 = bsa[m].key;
    let k2 = bsa[m + 1].key;
    assert(bsb.len() == bsa.len() - 1);
    assert forall|i: int| 0 <= i < m implies (#[trigger] bsb[i]) == bsa[i] by {
        assert(bsa.remove(m + 1)[i] == bsa[i]);
        assert(bsa.remove(m + 1).remove(m)[i] == bsa[i]);
    }
    assert forall|i: int| m < i < bsb.len() implies (#[trigger] bsb[i]) == bsa[i + 1] by {
        assert(bsa.remove(m + 1).remove(m)[i - 1] == bsa.remove(m + 1)[i]);
        assert(bsa.remove(m + 1)[i] == bsa[i + 1]);
    }
    assert(bsb[m] == nb);
    assert(block_wf(bsa[m]) && block_wf(bsa[m + 1]));
    assert(block_wf(bsb[m]));
    // Blocks other than the merged pair avoid the merged span.
    assert forall|i: int, a: u64|
        0 <= i < bsb.len() && i != m && #[trigger] blk_has(bsb[i], a) implies !(s1 <= a < e2) by {
        let iold: int = if i < m {
            i
        } else {
            i + 1
        };
        assert(blk_has(bsa[iold], a));
        assert(rma[a] == bsa[iold].key);
        if s1 <= a < e1 {
            assert(blk_has(bsa[m], a));
            assert(rma[a] == k1);
            assert(false);
        }
        if s2 <= a < e2 {
            assert(blk_has(bsa[m + 1], a));
            assert(rma[a] == k2);
            assert(false);
        }
    }
    assert forall|i: int, j: int|
        0 <= i < bsb.len() && 0 <= j < bsb.len() && i != j implies (#[trigger] bsb[i]).key != (
    #[trigger] bsb[j]).key by {
        let iold: int = if i <= m {
            i
        } else {
            i + 1
        };
        let jold: int = if j <= m {
            j
        } else {
            j + 1
        };
        assert(bsb[i].key == bsa[iold].key);
        assert(bsb[j].key == bsa[jold].key);
    }
    assert forall|i: int, a: u64|
        0 <= i < bsb.len() && #[trigger] blk_has(bsb[i], a) implies rmb.dom().contains(a) && rmb[a]
        == bsb[i].key by {
        if i == m {
            assert(rmb.dom().contains(a) && rmb[a] == k1);
        } else {
            let iold: int = if i < m {
                i
            } else {
                i + 1
            };
            assert(blk_has(bsa[iold], a));
            assert(rma.dom().contains(a) && rma[a] == bsa[iold].key);
            assert(!(s1 <= a < e2));
            assert(rmb.dom().contains(a) && rmb[a] == rma[a]);
        }
    }
    assert forall|a: u64| #[trigger] rmb.dom().contains(a) implies exists|i: int|
        0 <= i < bsb.len() && blk_has(#[trigger] bsb[i], a) by {
        if !(s1 <= a < e2) {
            assert(rma.dom().contains(a));
        } else {
            if a < e1 {
                assert(blk_has(bsa[m], a));
            } else {
                assert(blk_has(bsa[m + 1], a));
            }
            assert(rma.dom().contains(a));
        }
        let iold = choose|iold: int| 0 <= iold < bsa.len() && blk_has(#[trigger] bsa[iold], a);
        assert(blk_has(bsa[iold], a));
        if iold == m || iold == m + 1 {
            assert(blk_has(bsb[m], a));
        } else {
            let inew: int = if iold < m {
                iold
            } else {
                iold - 1
            };
            assert(bsb[inew] == bsa[iold]);
            assert(blk_has(bsb[inew], a));
        }
    }
    assert forall|i: int, x: int|
        #![trigger bsb[i].buf@[x]]
        0 <= i < bsb.len() && 0 <= x < bsb[i].buf@.len() implies bsb[i].buf@[x] == tgt[(bsb[i].start
        + x) as u64] by {
        if i == m {
            if x < e1 - s1 {
                assert(bsb[m].buf@[x] == bsa[m].buf@[x]);
            } else {
                assert(bsb[m].buf@[x] == bsa[m + 1].buf@[x - (e1 - s1)]);
                assert(bsa[m + 1].start + (x - (e1 - s1)) == s1 + x);
            }
        } else {
            let iold: int = if i < m {
                i
            } else {
                i + 1
            };
            assert(bsb[i] == bsa[iold]);
        }
    }
    assert forall|a: u64|
        #![trigger rmb.dom().contains(a)]
        #![trigger tgt.dom().contains(a)]
        rmb.dom().contains(a) == tgt.dom().contains(a) by {
        if s1 <= a < e2 {
            if a < e1 {
                assert(blk_has(bsa[m], a));
            } else {
                assert(blk_has(bsa[m + 1], a));
            }
            assert(rma.dom().contains(a));
        } else {
            assert(rmb.dom().contains(a) == rma.dom().contains(a));
        }
    }
    assert forall|i: int| 0 <= i < m implies (#[trigger] bsb[i]).end < bsb[i + 1].start by {
        assert(bsb[i] == bsa[i]);
        if i + 1 < m {
            assert(bsb[i + 1] == bsa[i + 1]);
        } else {
            assert(bsb[m].start == bsa[m].start);
        }
    }
    assert forall|i: int| 0 <= i && i + 1 < bsb.len() implies (#[trigger] bsb[i]).end <= bsb[i
        + 1].start by {
        if i == m {
            assert(bsb[i].end == bsa[m + 1].end);
            assert(bsb[i + 1] == bsa[i + 2]);
            assert(bsa[m + 1].end <= bsa[m + 2].start);
        } else if i + 1 == m {
            assert(bsb[i] == bsa[i]);
            assert(bsa[i].end <= bsa[i + 1].start);
        } else if i < m {
            assert(bsb[i] == bsa[i] && bsb[i + 1] == bsa[i + 1]);
        } else {
            assert(bsb[i] == bsa[i + 1] && bsb[i + 1] == bsa[i + 2]);
        }
    }
}

/// Coalescing: a fully covered non-empty span always lies within one single
/// stored range, never across two.
pub proof fn lemma_covered_single_range<T>(v: SparseVec<T>, s: u64, e: u64)
    requires
        v.wf(),
        covered(v@, s, e),
        s < e,
    ensures
        exists|i: int|
            0 <= i < v.range_seq().len() && (#[trigger] v.range_seq()[i]).0 <= s && e
                <= v.range_seq()[i].1,
{
    let bs = v.blocks();
    assert(v@.dom().contains(s));
    assert(v.rm().dom().contains(s));
    let i = choose|i: int| 0 <= i < bs.len() && blk_has(#[trigger] bs[i], s);
    assert(blk_has(bs[i], s));
    if e > bs[i].end {
        let x = bs[i].end;
        assert(s <= x < e);
        assert(v@.dom().contains(x));
        assert(v.rm().dom().contains(x));
        let j = choose|j: int| 0 <= j < bs.len() && blk_has(#[trigger] bs[j], x);
        assert(blk_has(bs[j], x));
        if j < i {
            assert(bs[j].end < bs[i].start);
        }
        if j > i {
            assert(bs[i].end < bs[j].start);
        }
        assert(false);
    }
    assert(v.range_seq()[i] == (bs[i].start, bs[i].end));
    assert(0 <= i < v.range_seq().len() && (v.range_seq()[i]).0 <= s && e <= v.range_seq()[i].1);
}

/// Relies on std's mutable slice indexing: the subslice `[i, j)` of `s`.
/// Writes through the returned slice land at the same positions of `s`, and
/// the rest of `s` stays as it was.
#[verifier::external_body]
fn slice_subrange_mut<'a, T>(s: &'a mut [T], i: usize, j: usize) -> (r: &'a mut [T])
    requires
        i <= j <= old(s)@.len(),
    ensures
        r@ == old(s)@.subrange(i as int, j as int),
        final(r)@.len() == j - i,
        final(s)@ == old(s)@.subrange(0, i as int) + final(r)@ + old(s)@.subrange(
            j as int,
            old(s)@.len() as int,
        ),
{
    &mut s[i..j]
}

/// Find the index of the first block holding the given key.
pub(crate) fn find_block<T>(data: &Vec<Block<T>>, key: usize) -> (r: Option<usize>)
    ensures
        match r {
            Some(i) => 0 <= i < data@.len() && data@[i as int].key == key && (forall|j: int|
                0 <= j < i ==> (#[trigger] data@[j]).key != key),
            None => forall|i: int| 0 <= i < data@.len() ==> (#[trigger] data@[i]).key != key,
        },
{
    let mut i: usize = 0;
    while i < data.len()
        invariant
            0 <= i <= data@.len(),
            forall|j: int| 0 <= j < i ==> (#[trigger] data@[j]).key != key,
        decreases data@.len() - i,
    {
        if data[i].key == key {
            return Some(i);
        }
        i = i + 1;
    }
    None
}

/// Shift a range down by an offset (the offset must not underflow either
/// endpoint, as when mapping an address range into a block-local range).
pub fn sub_range(range: &Range<u64>, offset: u64) -> (r: Range<u64>)
    requires
        offset <= range.start,
        offset <= range.end,
    ensures
        r.start == range.start - offset,
        r.end == range.end - offset,
{
    Range { start: range.start - offset, end: range.end - offset }
}

/// Convert an address-sized range into an index-sized one.
pub fn cast_range(range: &Range<u64>) -> (r: Range<usize>)
    requires
        range.start <= usize::MAX,
        range.end <= usize::MAX,
    ensures
        r.start == range.start,
        r.end == range.end,
{
    Range { start: range.start as usize, end: range.end as usize }
}

impl<T: Copy> SparseVec<T> {
    /// An empty container: no address is covered.
    pub fn new() -> (r: Self)
        ensures
            r.wf(),
            r@ == Map::<u64, T>::empty(),
            r.key_count() == 0,
    {
        let r = SparseVec { map: rm_new(), data: Vec::new(), key_counter: 0 };
        proof {
            assert(r@ =~= Map::<u64, T>::empty());
        }
        r
    }

    /// Store `data` at `addr`, overwriting whatever the range
    /// `[addr, addr + data.len())` previously held and leaving every other
    /// address unchanged.  Newly touching blocks are merged and orphaned
    /// blocks are dropped.  An empty `data` changes nothing; a write that
    /// would run past the end of the address space is reported and changes
    /// nothing.
    #[verifier::rlimit(100)]
    pub fn insert(&mut self, data: Vec<T>, addr: u64) -> (r: Result<(), AddressOverflow>)
        requires
            old(self).wf(),
            old(self).key_count() + 2 <= usize::MAX,
        ensures
            final(self).wf(),
            final(self).key_count() <= old(self).key_count() + 2,
            data@.len() == 0 ==> *final(self) == *old(self),
            match r {
                Ok(()) => addr + data@.len() <= u64::MAX && final(self)@ == old(
                    self,
                )@.union_prefer_right(written(addr, data@)),
                Err(_) => addr + data@.len() > u64::MAX && *final(self) == *old(self),
            },
    {
        let ghost m0 = old(self)@;
        let ghost dseq = data@;
        let ghost rm0 = rm_contents(self.map);
        let len: usize = data.len();
        if len == 0 {
            proof {
                assert(m0.union_prefer_right(written(addr, dseq)) =~= m0);
            }
            return Ok(());
        }
        if addr > u64::MAX - (len as u64) {
            return Err(AddressOverflow);
        }
        let iend: u64 = addr + (len as u64);
        let ghost tgt = m0.union_prefer_right(written(addr, dseq));
        let ghost counter0 = self.key_counter as nat;
        proof {
            lemma_wf_convex(*old(self));
            lemma_wf_loose(*old(self), counter0);
        }

        // Full-containment pre-split: when an existing block strictly covers
        // the end of the new range, carve its upper remainder into a block of
        // its own under a fresh key, so that no key is left covering ground
        // on both sides of the new range.
        let ent = rm_get_entry(&self.map, addr);
        let mut presplit = false;
        match ent {
            Some(t) => {
                if iend < t.1 {
                    presplit = true;
                }
            },
            None => {},
        }
        if presplit {
            let t = ent.unwrap();
            let (s, e, k) = t;
            let iopt = find_block(&self.data, k);
            proof {
                assert(self.rm().dom().contains(addr));
                let j = choose|j: int|
                    0 <= j < self.blocks().len() && blk_has(#[trigger] self.blocks()[j], addr);
                assert(self.blocks()[j].key == k);
                assert(iopt is Some);
                assert(iopt.unwrap() as int == j);
                lemma_block_extent(*self, j, t);
            }
            let i0 = iopt.unwrap();
            let bl0 = self.data[i0].buf.len();
            proof {
                assert(block_wf(self.blocks()[i0 as int]));
                assert(bl0 == e - s);
            }
            let off: usize = ((iend - s) as usize);
            let cnt: usize = ((e - iend) as usize);
            let mut tail: Vec<T> = Vec::new();
            let mut x: usize = 0;
            while x < cnt
                invariant
                    0 <= x <= cnt,
                    (i0 as int) < self.data@.len(),
                    self.data@[i0 as int].buf@.len() == off + cnt,
                    off + cnt <= usize::MAX,
                    tail@.len() == x,
                    forall|y: int|
                        0 <= y < x ==> #[trigger] tail@[y] == self.data@[i0 as int].buf@[off + y],
                decreases cnt - x,
            {
                let v = self.data[i0].buf[off + x];
                tail.push(v);
                x = x + 1;
            }
            let kc = self.key_counter;
            rm_insert(&mut self.map, iend, e, kc);
            self.data.push(Block { key: kc, start: iend, end: e, buf: tail });
            self.key_counter = kc + 1;
            proof {
                let rmc = rm_contents(self.map);
                let bs0 = old(self).blocks();
                let bsc = self.data@;
                let w = bsc.len() - 1;
                // The index covers the same addresses as before.
                assert forall|a: u64|
                    #![trigger rmc.dom().contains(a)]
                    #![trigger rm0.dom().contains(a)]
                    rmc.dom().contains(a) == rm0.dom().contains(a) by {
                    if iend <= a < e {
                        assert(rm0.dom().contains(a));
                        assert(rmc.dom().contains(a));
                    }
                }
                // No stored key is the fresh key.
                assert forall|a: u64| #[trigger] rm0.dom().contains(a) implies rm0[a] != kc by {
                    let j2 = choose|j2: int| 0 <= j2 < bs0.len() && blk_has(#[trigger] bs0[j2], a);
                    assert(blk_has(bs0[j2], a));
                    assert(bs0[j2].key == rm0[a]);
                }
                // No key straddles the carved-out upper range.
                assert forall|a: u64, c: u64|
                    a < iend && c >= e && #[trigger] rm0.dom().contains(a) && #[trigger]
                    rm0.dom().contains(c) implies rm0[a] != rm0[c] by {
                    if rm0[a] == rm0[c] {
                        assert(rm0.dom().contains(iend) && rm0[iend] == k);
                        assert(rm0.dom().contains(a) && rm0.dom().contains(iend)
                            && rm0.dom().contains(c));
                        assert(rm0[iend] == rm0[a]);
                        let j2 = choose|j2: int|
                            0 <= j2 < bs0.len() && blk_has(#[trigger] bs0[j2], c);
                        assert(blk_has(bs0[j2], c));
                        assert(bs0[j2].key == rm0[c]);
                        assert(j2 == choose|j3: int|
                            0 <= j3 < bs0.len() && blk_has(#[trigger] bs0[j3], addr)) by {
                            let j3 = choose|j3: int|
                                0 <= j3 < bs0.len() && blk_has(#[trigger] bs0[j3], addr);
                            assert(blk_has(bs0[j3], addr));
                            assert(bs0[j3].key == k);
                            assert(rm0[c] == k);
                        }
                        assert(false);
                    }
                }
                lemma_override_convex(rm0, rmc, iend, e, kc);
                // The loose invariant holds with the old contents as values.
                assert forall|a: u64| #[trigger] rmc.dom().contains(a) implies exists|i2: int|
                    0 <= i2 < bsc.len() && (#[trigger] bsc[i2]).key == rmc[a] && blk_has(
                        bsc[i2],
                        a,
                    ) && bsc[i2].buf@[a - bsc[i2].start] == m0[a] by {
                    if iend <= a < e {
                        assert(blk_has(bs0[i0 as int], a));
                        lemma_contents_at(*old(self), i0 as int, a);
                        assert(bsc[w].buf@[a - iend] == bs0[i0 as int].buf@[off + (a - iend)]);
                        assert(off + (a - iend) == a - s);
                        assert(rmc[a] == kc);
                        assert(0 <= w < bsc.len() && bsc[w].key == rmc[a] && blk_has(bsc[w], a)
                            && bsc[w].buf@[a - bsc[w].start] == m0[a]);
                    } else {
                        assert(rm0.dom().contains(a) && rmc[a] == rm0[a]);
                        let i2 = choose|i2: int|
                            0 <= i2 < bs0.len() && (#[trigger] bs0[i2]).key == rm0[a] && blk_has(
                                bs0[i2],
                                a,
                            ) && bs0[i2].buf@[a - bs0[i2].start] == m0[a];
                        assert(bsc[i2] == bs0[i2]);
                        assert(0 <= i2 < bsc.len() && bsc[i2].key == rmc[a] && blk_has(bsc[i2], a)
                            && bsc[i2].buf@[a - bsc[i2].start] == m0[a]);
                    }
                }
                // No key straddles the range about to be inserted.
                assert forall|a: u64, c: u64|
                    a < addr && c >= iend && #[trigger] rmc.dom().contains(a) && #[trigger]
                    rmc.dom().contains(c) implies rmc[a] != rmc[c] by {
                    assert(rm0.dom().contains(a) && rmc[a] == rm0[a]);
                    if iend <= c < e {
                        assert(rmc[c] == kc);
                    } else {
                        assert(rm0.dom().contains(c) && rmc[c] == rm0[c]);
                        if rm0[a] == rm0[c] {
                            assert(rm0.dom().contains(addr) && rm0[addr] == k);
                            assert(rm0.dom().contains(a) && rm0.dom().contains(addr)
                                && rm0.dom().contains(c));
                            assert(rm0[addr] == rm0[a]);
                            let j2 = choose|j2: int|
                                0 <= j2 < bs0.len() && blk_has(#[trigger] bs0[j2], c);
                            assert(blk_has(bs0[j2], c));
                            assert(bs0[j2].key == rm0[c]);
                            let j3 = choose|j3: int|
                                0 <= j3 < bs0.len() && blk_has(#[trigger] bs0[j3], addr);
                            assert(blk_has(bs0[j3], addr));
                            assert(bs0[j3].key == k);
                            assert(j2 == j3);
                            lemma_block_extent(*old(self), j3, t);
                            assert(false);
                        }
                    }
                }
                assert(loose_inv(rmc, bsc, m0, self.key_counter as nat));
                assert(split_safe(rmc, addr, iend));
            }
        } else {
            proof {
                let bs0 = old(self).blocks();
                assert(loose_inv(rm0, self.data@, m0, self.key_counter as nat));
                assert forall|a: u64, c: u64|
                    a < addr && c >= iend && #[trigger] rm0.dom().contains(a) && #[trigger]
                    rm0.dom().contains(c) implies rm0[a] != rm0[c] by {
                    if rm0[a] == rm0[c] {
                        match ent {
                            Some(t) => {
                                assert(rm0.dom().contains(addr) && rm0[addr] == t.2);
                                assert(rm0.dom().contains(a) && rm0.dom().contains(addr)
                                    && rm0.dom().contains(c));
                                assert(rm0[addr] == rm0[a]);
                                let j2 = choose|j2: int|
                                    0 <= j2 < bs0.len() && blk_has(#[trigger] bs0[j2], c);
                                assert(blk_has(bs0[j2], c));
                                assert(bs0[j2].key == rm0[c]);
                                let j3 = choose|j3: int|
                                    0 <= j3 < bs0.len() && blk_has(#[trigger] bs0[j3], addr);
                                assert(blk_has(bs0[j3], addr));
                                assert(bs0[j3].key == t.2);
                                assert(j2 == j3);
                                lemma_block_extent(*old(self), j3, t);
                                assert(c < t.1);
                                assert(false);
                            },
                            None => {
                                assert(rm0.dom().contains(a) && rm0.dom().contains(addr)
                                    && rm0.dom().contains(c));
                                assert(rm0.dom().contains(addr));
                                assert(false);
                            },
                        }
                    }
                }
                assert(split_safe(rm0, addr, iend));
            }
        }

        // Raw insert: the new range wins over everything it overlaps.
        proof {
            assert(loose_inv(rm_contents(self.map), self.data@, m0, self.key_counter as nat));
            assert(keys_convex(rm_contents(self.map)));
            assert(split_safe(rm_contents(self.map), addr, iend));
            assert(forall|a: u64|
                #![trigger rm_contents(self.map).dom().contains(a)]
                #![trigger rm0.dom().contains(a)]
                rm_contents(self.map).dom().contains(a) == rm0.dom().contains(a));
        }
        let ghost rmp = rm_contents(self.map);
        let ghost bsp = self.data@;
        let ghost counterp = self.key_counter as nat;
        let kn = self.key_counter;
        rm_insert(&mut self.map, addr, iend, kn);
        self.data.push(Block { key: kn, start: addr, end: iend, buf: data });
        self.key_counter = kn + 1;
        proof {
            let rm1 = rm_contents(self.map);
            let bs1 = self.data@;
            let w = bs1.len() - 1;
            assert forall|a: u64| #[trigger] rmp.dom().contains(a) implies rmp[a] != kn by {
                let i2 = choose|i2: int|
                    0 <= i2 < bsp.len() && (#[trigger] bsp[i2]).key == rmp[a] && blk_has(
                        bsp[i2],
                        a,
                    ) && bsp[i2].buf@[a - bsp[i2].start] == m0[a];
                assert(bsp[i2].key < counterp);
            }
            lemma_override_convex(rmp, rm1, addr, iend, kn);
            // The index now covers exactly the target contents.
            assert forall|a: u64|
                #![trigger rm1.dom().contains(a)]
                #![trigger tgt.dom().contains(a)]
                rm1.dom().contains(a) == tgt.dom().contains(a) by {
                if !(addr <= a < iend) {
                    assert(rm1.dom().contains(a) == rm0.dom().contains(a));
                    assert(tgt.dom().contains(a) == m0.dom().contains(a));
                }
            }
            // The loose invariant now holds with the target contents.
            assert forall|a: u64| #[trigger] rm1.dom().contains(a) implies exists|i2: int|
                0 <= i2 < bs1.len() && (#[trigger] bs1[i2]).key == rm1[a] && blk_has(bs1[i2], a)
                    && bs1[i2].buf@[a - bs1[i2].start] == tgt[a] by {
                if addr <= a < iend {
                    assert(written(addr, dseq).dom().contains(a));
                    assert(tgt[a] == dseq[a - addr]);
                    assert(0 <= w < bs1.len() && bs1[w].key == rm1[a] && blk_has(bs1[w], a)
                        && bs1[w].buf@[a - bs1[w].start] == tgt[a]);
                } else {
                    assert(rmp.dom().contains(a) && rm1[a] == rmp[a]);
                    let i2 = choose|i2: int|
                        0 <= i2 < bsp.len() && (#[trigger] bsp[i2]).key == rmp[a] && blk_has(
                            bsp[i2],
                            a,
                        ) && bsp[i2].buf@[a - bsp[i2].start] == m0[a];
                    assert(bs1[i2] == bsp[i2]);
                    assert(!written(addr, dseq).dom().contains(a));
                    assert(tgt[a] == m0[a]);
                    assert(0 <= i2 < bs1.len() && bs1[i2].key == rm1[a] && blk_has(bs1[i2], a)
                        && bs1[i2].buf@[a - bs1[i2].start] == tgt[a]);
                }
            }
            assert(loose_inv(rm1, bs1, tgt, self.key_counter as nat));
        }

        self.resync_and_merge(Ghost(tgt));
        proof {
            let bsf = self.data@;
            assert forall|a: u64| #[trigger] self@.dom().contains(a) implies self@[a] == tgt[a] by {
                let i = choose|i: int| 0 <= i < bsf.len() && blk_has(#[trigger] bsf[i], a);
                assert(blk_has(bsf[i], a));
                lemma_contents_at(*self, i, a);
                assert(bsf[i].buf@[a - bsf[i].start] == tgt[(bsf[i].start + (a
                    - bsf[i].start)) as u64]);
            }
            assert(self@ =~= tgt);
        }
        Ok(())
    }

    /// Rebuild every block to match its clipped index entry exactly (dropping
    /// blocks whose key no longer appears in the index), then merge adjacent
    /// blocks until none touch.
    #[verifier::rlimit(100)]
    fn resync_and_merge(&mut self, Ghost(tgt): Ghost<Map<u64, T>>)
        requires
            loose_inv(
                rm_contents(old(self).map),
                old(self).data@,
                tgt,
                old(self).key_counter as nat,
            ),
            keys_convex(rm_contents(old(self).map)),
            forall|a: u64|
                #![trigger rm_contents(old(self).map).dom().contains(a)]
                #![trigger tgt.dom().contains(a)]
                rm_contents(old(self).map).dom().contains(a) == tgt.dom().contains(a),
        ensures
            final(self).wf(),
            final(self).key_counter == old(self).key_counter,
            forall|a: u64|
                #![trigger rm_contents(final(self).map).dom().contains(a)]
                #![trigger tgt.dom().contains(a)]
                rm_contents(final(self).map).dom().contains(a) == tgt.dom().contains(a),
            forall|i: int, x: int|
                #![trigger final(self).data@[i].buf@[x]]
                0 <= i < final(self).data@.len() && 0 <= x < final(self).data@[i].buf@.len()
                    ==> final(self).data@[i].buf@[x] == tgt[(final(self).data@[i].start + x) as u64],
    {
        let ghost rm1 = rm_contents(self.map);
        let ghost bs1 = self.data@;
        let ghost counter1 = self.key_counter as nat;
        let es = rm_entries(&self.map);
        proof {
            lemma_entries_distinct(rm1, es@);
        }
        let mut nd: Vec<Block<T>> = Vec::new();
        let mut j: usize = 0;
        while j < es.len()
            invariant
                0 <= j <= es@.len(),
                self.data@ == bs1,
                self.key_counter == old(self).key_counter,
                rm1 == rm_contents(self.map),
                counter1 == self.key_counter as nat,
                loose_inv(rm1, bs1, tgt, counter1),
                forall|q: int| 0 <= q < es@.len() ==> (#[trigger] es@[q]).0 < es@[q].1,
                forall|q: int| 0 <= q && q + 1 < es@.len() ==> (#[trigger] es@[q]).1 <= es@[q + 1].0,
                forall|q: int, a: u64|
                    0 <= q < es@.len() && #[trigger] ent_has(es@[q], a) ==> rm1.dom().contains(a)
                        && rm1[a] == es@[q].2,
                forall|a: u64| #[trigger]
                    rm1.dom().contains(a) ==> exists|q: int|
                        0 <= q < es@.len() && ent_has(#[trigger] es@[q], a),
                forall|j1: int, j2: int|
                    0 <= j1 < j2 < es@.len() ==> (#[trigger] es@[j1]).2 != (#[trigger] es@[j2]).2,
                nd@.len() == j,
                forall|q: int|
                    0 <= q < j ==> (#[trigger] nd@[q]).key == es@[q].2 && nd@[q].start == es@[q].0
                        && nd@[q].end == es@[q].1 && block_wf(nd@[q]) && nd@[q].key < counter1,
                forall|q: int, x: int|
                    #![trigger nd@[q].buf@[x]]
                    0 <= q < j && 0 <= x < nd@[q].buf@.len() ==> nd@[q].buf@[x] == tgt[(nd@[q].start
                        + x) as u64],
            decreases es@.len() - j,
        {
            let t = es[j];
            proof {
                assert(ent_has(es@[j as int], t.0));
                assert forall|a: u64|
                    #![trigger rm1.dom().contains(a)]
                    #![trigger rm1[a]]
                    t.0 <= a < t.1 implies rm1.dom().contains(a) && rm1[a] == t.2 by {
                    assert(ent_has(es@[j as int], a));
                }
            }
            let nb = Self::rebuild_entry(
                &self.data,
                t,
                Ghost(rm1),
                Ghost(tgt),
                Ghost(counter1),
            );
            nd.push(nb);
            j = j + 1;
        }
        proof {
            assert(nd@.len() == es@.len());
            assert(merge_inv(rm1, nd@, tgt, counter1)) by {
                assert forall|i: int| 0 <= i < nd@.len() implies block_wf(#[trigger] nd@[i])
                    && nd@[i].key < counter1 by {}
                assert forall|i: int, j3: int|
                    0 <= i < nd@.len() && 0 <= j3 < nd@.len() && i != j3 implies (#[trigger]
                nd@[i]).key != (#[trigger] nd@[j3]).key by {
                    assert(nd@[i].key == es@[i].2 && nd@[j3].key == es@[j3].2);
                }
                assert forall|i: int, a: u64|
                    0 <= i < nd@.len() && #[trigger] blk_has(nd@[i], a) implies
                    rm1.dom().contains(a) && rm1[a] == nd@[i].key by {
                    assert(ent_has(es@[i], a));
                }
                assert forall|a: u64| #[trigger] rm1.dom().contains(a) implies exists|i: int|
                    0 <= i < nd@.len() && blk_has(#[trigger] nd@[i], a) by {
                    let q = choose|q: int| 0 <= q < es@.len() && ent_has(#[trigger] es@[q], a);
                    assert(ent_has(es@[q], a));
                    assert(blk_has(nd@[q], a));
                }
                assert forall|i: int| 0 <= i && i + 1 < nd@.len() implies (#[trigger] nd@[i]).end
                    <= nd@[i + 1].start by {
                    assert(nd@[i].end == es@[i].1 && nd@[i + 1].start == es@[i + 1].0);
                }
            }
        }
        self.data = nd;
        proof {
            assert(merge_inv(rm_contents(self.map), self.data@, tgt, counter1));
        }
        self.merge_adjacent(Ghost(tgt));
    }

    /// Copy one clipped index entry's elements out of the block carrying its
    /// key, producing the block that matches the entry exactly.
    #[verifier::rlimit(100)]
    fn rebuild_entry(
        data: &Vec<Block<T>>,
        t: (u64, u64, usize),
        Ghost(rm): Ghost<Map<u64, usize>>,
        Ghost(tgt): Ghost<Map<u64, T>>,
        Ghost(counter): Ghost<nat>,
    ) -> (r: Block<T>)
        requires
            loose_inv(rm, data@, tgt, counter),
            t.0 < t.1,
            forall|a: u64|
                #![trigger rm.dom().contains(a)]
                #![trigger rm[a]]
                t.0 <= a < t.1 ==> rm.dom().contains(a) && rm[a] == t.2,
        ensures
            r.key == t.2,
            r.start == t.0,
            r.end == t.1,
            block_wf(r),
            r.key < counter,
            forall|x: int| 0 <= x < r.buf@.len() ==> #[trigger] r.buf@[x] == tgt[(t.0 + x) as u64],
    {
        let (s, e, k) = t;
        proof {
            assert(rm.dom().contains(s) && rm[s] == k);
        }
        let iopt = find_block(data, k);
        proof {
            let i2 = choose|i2: int|
                0 <= i2 < data@.len() && (#[trigger] data@[i2]).key == rm[s] && blk_has(
                    data@[i2],
                    s,
                ) && data@[i2].buf@[s - data@[i2].start] == tgt[s];
            assert(iopt is Some);
            assert(iopt.unwrap() as int == i2);
            assert(data@[i2].key < counter);
            // That block covers the whole entry.
            assert forall|a: u64|
                #![trigger blk_has(data@[i2], a)]
                s <= a < e implies blk_has(data@[i2], a) && data@[i2].buf@[a - data@[i2].start]
                == tgt[a] by {
                assert(rm.dom().contains(a) && rm[a] == k);
                let i3 = choose|i3: int|
                    0 <= i3 < data@.len() && (#[trigger] data@[i3]).key == rm[a] && blk_has(
                        data@[i3],
                        a,
                    ) && data@[i3].buf@[a - data@[i3].start] == tgt[a];
                assert(i3 == i2);
            }
            assert(blk_has(data@[i2], s));
            assert(blk_has(data@[i2], (e - 1) as u64));
        }
        let i0 = iopt.unwrap();
        let bstart = data[i0].start;
        let bl = data[i0].buf.len();
        proof {
            assert(blk_has(data@[i0 as int], s));
            assert(block_wf(data@[i0 as int]));
            assert(bl == data@[i0 as int].end - bstart);
            assert(e <= data@[i0 as int].end);
        }
        let off: usize = ((s - bstart) as usize);
        let cnt: usize = ((e - s) as usize);
        let mut nb: Vec<T> = Vec::new();
        let mut x: usize = 0;
        while x < cnt
            invariant
                0 <= x <= cnt,
                (i0 as int) < data@.len(),
                off + cnt <= data@[i0 as int].buf@.len(),
                off + cnt <= usize::MAX,
                nb@.len() == x,
                forall|y: int| 0 <= y < x ==> #[trigger] nb@[y] == data@[i0 as int].buf@[off + y],
            decreases cnt - x,
        {
            let v = data[i0].buf[off + x];
            nb.push(v);
            x = x + 1;
        }
        proof {
            assert forall|y: int| 0 <= y < cnt implies #[trigger] nb@[y] == tgt[(s + y) as u64] by {
                assert(blk_has(data@[i0 as int], (s + y) as u64));
                assert(data@[i0 as int].buf@[(s + y) - data@[i0 as int].start] == tgt[(s
                    + y) as u64]);
                assert((s + y) - data@[i0 as int].start == off + y);
            }
        }
        Block { key: k, start: s, end: e, buf: nb }
    }

    /// Merge one pair of touching blocks: the one before position `j2` and
    /// the one at it.
    #[verifier::rlimit(100)]
    fn merge_once(&mut self, j2: usize, Ghost(tgt): Ghost<Map<u64, T>>, Ghost(counter): Ghost<nat>)
        requires
            1 <= j2 < old(self).data@.len(),
            merge_inv(rm_contents(old(self).map), old(self).data@, tgt, counter),
            old(self).data@[j2 - 1].end == old(self).data@[j2 as int].start,
            forall|i: int|
                0 <= i < j2 - 1 ==> (#[trigger] old(self).data@[i]).end < old(self).data@[i
                    + 1].start,
        ensures
            final(self).key_counter == old(self).key_counter,
            final(self).data@.len() == old(self).data@.len() - 1,
            merge_inv(rm_contents(final(self).map), final(self).data@, tgt, counter),
            forall|i: int|
                0 <= i < j2 - 1 ==> (#[trigger] final(self).data@[i]).end < final(self).data@[i
                    + 1].start,
    {
        let ghost rma = rm_contents(self.map);
        let ghost bsa = self.data@;
        let b2 = self.data.remove(j2);
        let b1 = self.data.remove(j2 - 1);
        let Block { key: k1, start: s1, end: e1, buf: mut buf1 } = b1;
        let Block { key: k2, start: s2, end: e2, buf: mut buf2 } = b2;
        buf1.append(&mut buf2);
        self.data.insert(j2 - 1, Block { key: k1, start: s1, end: e2, buf: buf1 });
        proof {
            assert(block_wf(bsa[j2 - 1]) && block_wf(bsa[j2 as int]));
        }
        rm_insert(&mut self.map, s1, e2, k1);
        proof {
            let rmb = rm_contents(self.map);
            let bsb = self.data@;
            let m = (j2 - 1) as int;
            let nb = bsb[m];
            assert(bsa.remove(m + 1)[m] == bsa[m]);
            assert(bsb == bsa.remove(m + 1).remove(m).insert(m, nb));
            lemma_merge_step(rma, rmb, bsa, bsb, nb, tgt, counter, m);
        }
    }

    /// Merge adjacent blocks until no two touch, keeping index and store in
    /// lockstep.
    #[verifier::rlimit(100)]
    fn merge_adjacent(&mut self, Ghost(tgt): Ghost<Map<u64, T>>)
        requires
            merge_inv(
                rm_contents(old(self).map),
                old(self).data@,
                tgt,
                old(self).key_counter as nat,
            ),
        ensures
            final(self).wf(),
            final(self).key_counter == old(self).key_counter,
            forall|a: u64|
                #![trigger rm_contents(final(self).map).dom().contains(a)]
                #![trigger tgt.dom().contains(a)]
                rm_contents(final(self).map).dom().contains(a) == tgt.dom().contains(a),
            forall|i: int, x: int|
                #![trigger final(self).data@[i].buf@[x]]
                0 <= i < final(self).data@.len() && 0 <= x < final(self).data@[i].buf@.len()
                    ==> final(self).data@[i].buf@[x] == tgt[(final(self).data@[i].start + x) as u64],
    {
        let ghost counter1 = self.key_counter as nat;
        if self.data.len() == 0 {
            proof {
                assert(self.wf());
            }
            return;
        }
        let mut j2: usize = 1;
        while j2 < self.data.len()
            invariant
                1 <= j2 <= self.data@.len(),
                self.key_counter == old(self).key_counter,
                merge_inv(rm_contents(self.map), self.data@, tgt, counter1),
                forall|i: int|
                    0 <= i < j2 - 1 ==> (#[trigger] self.data@[i]).end < self.data@[i + 1].start,
            decreases self.data@.len() - j2,
        {
            let pe = self.data[j2 - 1].end;
            let cs2 = self.data[j2].start;
            let ghost rma = rm_contents(self.map);
            let ghost bsa = self.data@;
            if pe == cs2 {
                self.merge_once(j2, Ghost(tgt), Ghost(counter1));
            } else {
                proof {
                    assert(self.data@[j2 - 1].end <= self.data@[j2 as int].start);
                }
                j2 = j2 + 1;
            }
        }
        proof {
            let rmf = rm_contents(self.map);
            let bsf = self.data@;
            assert forall|i: int, j3: int| 0 <= i < j3 < bsf.len() implies (#[trigger]
            bsf[i]).end < (#[trigger] bsf[j3]).start by {
                lemma_blocks_chain(bsf, i, j3);
            }
            assert(self.wf());
        }
    }

    /// Look up the elements stored across `range`.
    ///
    /// Succeeds exactly when every address of the query range is covered;
    /// since touching blocks always coalesce, such a query always falls
    /// within one block, and the returned view is a borrowed slice of that
    /// block's buffer.  A query spanning any unwritten address fails.
    pub fn get(&self, range: Range<u64>) -> (r: Option<&[T]>)
        requires
            self.wf(),
        ensures
            match r {
                Some(sl) => {
                    &&& covered(self@, range.start, range.end)
                    &&& sl@.len() == range.end - range.start
                    &&& forall|q: int|
                        0 <= q < sl@.len() ==> sl@[q] == self@[(range.start + q) as u64]
                },
                None => !covered(self@, range.start, range.end),
            },
    {
        if range.end < range.start {
            return None;
        }
        let ent = rm_get_entry(&self.map, range.start);
        match ent {
            None => {
                proof {
                    assert(!self.rm().dom().contains(range.start));
                    assert(!self@.dom().contains(range.start));
                    assert(!covered(self@, range.start, range.end));
                }
                None
            },
            Some(t) => {
                let (s, e, k) = t;
                if range.end > e {
                    proof {
                        if self.rm().dom().contains(e) {
                            assert(self.rm().dom().contains((e - 1) as u64));
                            lemma_adjacent_same_key(*self, (e - 1) as u64);
                            assert(false);
                        }
                        assert(!self@.dom().contains(e));
                        assert(range.start <= e < range.end);
                        assert(!covered(self@, range.start, range.end));
                    }
                    None
                } else {
                    let iopt = find_block(&self.data, k);
                    proof {
                        assert(self.rm().dom().contains(range.start));
                        let j = choose|j: int|
                            0 <= j < self.blocks().len() && blk_has(
                                #[trigger] self.blocks()[j],
                                range.start,
                            );
                        assert(self.blocks()[j].key == k);
                        assert(iopt is Some);
                        let i = iopt.unwrap() as int;
                        assert(i == j);
                        lemma_block_extent(*self, i, t);
                    }
                    let i = iopt.unwrap();
                    let bl = self.data[i].buf.len();
                    proof {
                        assert(block_wf(self.blocks()[i as int]));
                        assert(bl == e - s);
                    }
                    let sr = sub_range(&range, s);
                    let cr = cast_range(&sr);
                    let sl = &self.data[i].buf[cr];
                    proof {
                        let b = self.blocks()[i as int];
                        assert(sl@ == b.buf@.subrange(
                            range.start - s as int,
                            range.end - s as int,
                        ));
                        assert forall|q: int| 0 <= q < sl@.len() implies sl@[q] == self@[((
                        range.start + q) as u64)] by {
                            assert(blk_has(b, (range.start + q) as u64));
                            lemma_contents_at(*self, i as int, (range.start + q) as u64);
                        }
                        assert forall|a: u64| range.start <= a < range.end implies
                            self@.dom().contains(a) by {
                            assert(blk_has(b, a));
                            assert(self.rm().dom().contains(a));
                        }
                        assert(blk_has(b, range.start));
                        assert(self@.dom().contains(range.start));
                    }
                    Some(sl)
                }
            },
        }
    }

    /// Look up the elements stored across `range`, for writing in place.
    ///
    /// The lookup succeeds exactly as for `get`; on success the caller may
    /// write elements through the returned view, and the container afterwards
    /// holds those elements across `range`, everything else unchanged.  The
    /// view cannot change which addresses are covered.
    #[verifier::rlimit(100)]
    pub fn get_mut(&mut self, range: Range<u64>) -> (r: Option<&mut [T]>)
        requires
            old(self).wf(),
        ensures
            match r {
                Some(sl) => {
                    &&& covered(old(self)@, range.start, range.end)
                    &&& sl@.len() == range.end - range.start
                    &&& (forall|q: int|
                        0 <= q < sl@.len() ==> sl@[q] == old(self)@[((range.start + q) as u64)])
                    &&& final(self).wf()
                    &&& final(self)@ == old(self)@.union_prefer_right(
                        Map::new(
                            |a: u64| range.start <= a < range.end,
                            |a: u64| final(sl)@[a - range.start],
                        ),
                    )
                },
                None => !covered(old(self)@, range.start, range.end) && *final(self) == *old(
                    self,
                ),
            },
    {
        if range.end < range.start {
            return None;
        }
        let ent = rm_get_entry(&self.map, range.start);
        match ent {
            None => None,
            Some(t) => {
                let (s, e, k) = t;
                if range.end > e {
                    proof {
                        if self.rm().dom().contains(e) {
                            assert(self.rm().dom().contains((e - 1) as u64));
                            lemma_adjacent_same_key(*self, (e - 1) as u64);
                            assert(false);
                        }
                        assert(!self@.dom().contains(e));
                        assert(range.start <= e < range.end);
                        assert(!covered(self@, range.start, range.end));
                    }
                    None
                } else {
                    let iopt = find_block(&self.data, k);
                    proof {
                        assert(self.rm().dom().contains(range.start));
                        let j = choose|j: int|
                            0 <= j < self.blocks().len() && blk_has(
                                #[trigger] self.blocks()[j],
                                range.start,
                            );
                        assert(self.blocks()[j].key == k);
                        assert(iopt is Some);
                        assert(iopt.unwrap() as int == j);
                        lemma_block_extent(*self, j, t);
                    }
                    let i = iopt.unwrap();
                    let bl = self.data[i].buf.len();
                    let ghost bs0 = self.data@;
                    let ghost m0 = self@;
                    proof {
                        assert(block_wf(bs0[i as int]));
                        assert(bl == e - s);
                        assert forall|a: u64| range.start <= a < range.end implies
                            m0.dom().contains(a) by {
                            assert(blk_has(bs0[i as int], a));
                            assert(self.rm().dom().contains(a));
                        }
                        assert(blk_has(bs0[i as int], range.start));
                        assert(m0.dom().contains(range.start));
                        assert forall|a: u64| range.start <= a < range.end implies bs0[
                        i as int].buf@[a - s] == #[trigger] m0[a] by {
                            assert(blk_has(bs0[i as int], a));
                            lemma_contents_at(*self, i as int, a);
                        }
                    }
                    let off: usize = ((range.start - s) as usize);
                    let cnt: usize = ((range.end - range.start) as usize);
                    let ghost v0 = *self;
                    let b = &mut self.data[i];
                    let msl = b.buf.as_mut_slice();
                    let sl = slice_subrange_mut(msl, off, off + cnt);
                    proof {
                        let vf = after_borrow(*self);
                        let fs = vf.data@;
                        let fb = fs[i as int];
                        assert(fs == bs0.update(i as int, fb));
                        assert(fb.key == k && fb.start == s && fb.end == e);
                        assert(fb.buf@.len() == bl);
                        assert(rm_contents(vf.map) == v0.rm());
                        assert(vf.wf()) by {
                            assert forall|i2: int, a: u64|
                                0 <= i2 < fs.len() && #[trigger] blk_has(fs[i2], a) implies
                                v0.rm().dom().contains(a) && v0.rm()[a] == fs[i2].key by {
                                assert(blk_has(bs0[i2], a));
                            }
                            assert forall|a: u64| #[trigger]
                                v0.rm().dom().contains(a) implies exists|i2: int|
                                0 <= i2 < fs.len() && blk_has(#[trigger] fs[i2], a) by {
                                let i3 = choose|i3: int|
                                    0 <= i3 < bs0.len() && blk_has(#[trigger] bs0[i3], a);
                                assert(blk_has(fs[i3], a));
                            }
                        }
                        let w = Map::new(
                            |a: u64| range.start <= a < range.end,
                            |a: u64| final(sl)@[a - range.start],
                        );
                        assert forall|a: u64| #[trigger]
                            vf@.dom().contains(a) implies vf@[a] == m0.union_prefer_right(w)[a] by {
                            let i3 = choose|i3: int|
                                0 <= i3 < fs.len() && blk_has(#[trigger] fs[i3], a);
                            assert(blk_has(fs[i3], a));
                            lemma_contents_at(vf, i3, a);
                            assert(blk_has(bs0[i3], a));
                            if i3 == i as int {
                                if range.start <= a < range.end {
                                    assert(fb.buf@[a - s] == final(sl)@[a - range.start]);
                                    assert(w.dom().contains(a));
                                } else {
                                    assert(fb.buf@[a - s] == bs0[i as int].buf@[a - s]);
                                    lemma_contents_at(v0, i3, a);
                                }
                            } else {
                                lemma_contents_at(v0, i3, a);
                                if range.start <= a < range.end {
                                    assert(blk_has(bs0[i as int], a));
                                    assert(false);
                                }
                            }
                        }
                        assert(vf@ =~= m0.union_prefer_right(w));
                    }
                    Some(sl)
                }
            },
        }
    }

    /// The stored ranges, ascending, as `(start, end)` pairs: non-empty,
    /// strictly ordered, never touching, and covering exactly the stored
    /// addresses.
    pub fn ranges(&self) -> (r: Vec<(u64, u64)>)
        requires
            self.wf(),
        ensures
            r@ == self.range_seq(),
            forall|i: int| 0 <= i < r@.len() ==> (#[trigger] r@[i]).0 < r@[i].1,
            forall|i: int, j: int|
                0 <= i < j < r@.len() ==> (#[trigger] r@[i]).1 < (#[trigger] r@[j]).0,
            forall|i: int, a: u64|
                0 <= i < r@.len() && #[trigger] span_has(r@[i], a) ==> self@.dom().contains(a),
            forall|a: u64| #[trigger]
                self@.dom().contains(a) ==> exists|i: int|
                    0 <= i < r@.len() && span_has(#[trigger] r@[i], a),
    {
        let mut r: Vec<(u64, u64)> = Vec::new();
        let mut i: usize = 0;
        while i < self.data.len()
            invariant
                0 <= i <= self.data@.len(),
                r@ =~= self.range_seq().subrange(0, i as int),
            decreases self.data@.len() - i,
        {
            let b_start = self.data[i].start;
            let b_end = self.data[i].end;
            r.push((b_start, b_end));
            proof {
                assert(r@ =~= self.range_seq().subrange(0, i + 1 as int));
            }
            i = i + 1;
        }
        proof {
            assert(r@ =~= self.range_seq());
            assert forall|i2: int, a: u64|
                0 <= i2 < r@.len() && #[trigger] span_has(r@[i2], a) implies self@.dom().contains(
                a,
            ) by {
                assert(blk_has(self.blocks()[i2], a));
                assert(self.rm().dom().contains(a));
            }
            assert forall|a: u64| #[trigger] self@.dom().contains(a) implies exists|i2: int|
                0 <= i2 < r@.len() && span_has(#[trigger] r@[i2], a) by {
                let j = choose|j: int|
                    0 <= j < self.blocks().len() && blk_has(#[trigger] self.blocks()[j], a);
                assert(span_has(r@[j], a));
            }
        }
        r
    }

    /// The total number of stored elements: the sum of all block buffer
    /// lengths (one element per covered address).
    pub fn stored_len(&self) -> (r: u64)
        requires
            self.wf(),
        ensures
            r == span_sum(self.range_seq()),
    {
        let mut acc: u64 = 0;
        let mut i: usize = 0;
        while i < self.data.len()
            invariant
                self.wf(),
                0 <= i <= self.data@.len(),
                acc == span_sum(self.range_seq().subrange(0, i as int)),
                i > 0 ==> acc <= self.data@[i - 1].end,
            decreases self.data@.len() - i,
        {
            let b_start = self.data[i].start;
            let b_end = self.data[i].end;
            proof {
                if i > 0 {
                    assert(self.data@[i - 1].end < self.data@[i as int].start);
                }
                assert(self.range_seq().subrange(0, i + 1 as int).drop_last() =~= self.range_seq()
                    .subrange(0, i as int));
                assert(self.range_seq().subrange(0, i + 1 as int).last() == (b_start, b_end));
            }
            acc = acc + (b_end - b_start);
            i = i + 1;
        }
        proof {
            assert(self.range_seq().subrange(0, self.data@.len() as int) =~= self.range_seq());
        }
        acc
    }

    /// Re-derive the container's invariants and report whether they hold:
    /// every block is internally consistent, blocks are strictly ordered and
    /// never touch, no two blocks share a key, every block's range is an
    /// index entry under its key, and every index entry has its block.  The
    /// result is `true` exactly when the container is well formed; it is an
    /// explicit self-check for tests, not production code.
    #[verifier::rlimit(100)]
    pub fn check_invariants(&self) -> (r: bool)
        ensures
            r == self.wf(),
    {
        let ghost bs = self.blocks();
        let mut i: usize = 0;
        while i < self.data.len()
            invariant
                0 <= i <= self.data@.len(),
                bs == self.data@,
                forall|q: int| 0 <= q < i ==> block_wf(#[trigger] bs[q]),
                forall|q: int| 0 <= q < i ==> (#[trigger] bs[q]).key < self.key_counter,
                forall|q: int, q2: int|
                    0 <= q2 < q < i ==> (#[trigger] bs[q2]).key != (#[trigger] bs[q]).key,
                forall|q: int|
                    0 <= q < i && q + 1 < bs.len() ==> (#[trigger] bs[q]).end < bs[q + 1].start,
                forall|q: int, a: u64|
                    0 <= q < i && #[trigger] blk_has(bs[q], a) ==> self.rm().dom().contains(a)
                        && self.rm()[a] == bs[q].key,
            decreases self.data@.len() - i,
        {
            let bstart = self.data[i].start;
            let bend = self.data[i].end;
            let bkey = self.data[i].key;
            let blen = self.data[i].buf.len();
            if bstart >= bend || (bend - bstart > usize::MAX as u64) || blen as u64 != bend - bstart
            {
                proof {
                    if self.wf() {
                        assert(block_wf(bs[i as int]));
                        assert(false);
                    }
                }
                return false;
            }
            if bkey >= self.key_counter {
                proof {
                    if self.wf() {
                        assert(bs[i as int].key < self.key_counter);
                        assert(false);
                    }
                }
                return false;
            }
            if i + 1 < self.data.len() {
                if self.data[i + 1].start <= bend {
                    proof {
                        if self.wf() {
                            assert(bs[i as int].end < bs[i + 1].start);
                            assert(false);
                        }
                    }
                    return false;
                }
            }
            match find_block(&self.data, bkey) {
                Some(i2) => {
                    if i2 != i {
                        proof {
                            if self.wf() {
                                assert(bs[i2 as int].key != bs[i as int].key);
                                assert(false);
                            }
                        }
                        return false;
                    }
                },
                None => {
                    proof {
                        assert(bs[i as int].key == bkey);
                        assert(false);
                    }
                    return false;
                },
            }
            let ent = rm_get_entry(&self.map, bstart);
            match ent {
                Some(t) => {
                    if t.0 != bstart || t.1 != bend || t.2 != bkey {
                        proof {
                            if self.wf() {
                                assert(blk_has(bs[i as int], bstart));
                                assert(self.rm().dom().contains(bstart));
                                assert(self.rm()[bstart] == bkey);
                                assert(t.0 <= bstart < t.1);
                                assert(self.rm()[bstart] == t.2);
                                assert(t.2 == bkey);
                                lemma_block_extent(*self, i as int, t);
                                assert(false);
                            }
                        }
                        return false;
                    }
                    proof {
                        assert forall|a: u64| #[trigger] blk_has(bs[i as int], a) implies
                            self.rm().dom().contains(a) && self.rm()[a] == bs[i as int].key by {
                            assert(t.0 <= a < t.1);
                            assert(self.rm().dom().contains(a) && self.rm()[a] == t.2);
                        }
                    }
                },
                None => {
                    proof {
                        if self.wf() {
                            assert(blk_has(bs[i as int], bstart));
                            assert(self.rm().dom().contains(bstart));
                            assert(false);
                        }
                    }
                    return false;
                },
            }
            i = i + 1;
        }
        let es = rm_entries(&self.map);
        let mut j: usize = 0;
        while j < es.len()
            invariant
                0 <= j <= es@.len(),
                bs == self.data@,
                forall|q: int| 0 <= q < bs.len() ==> block_wf(#[trigger] bs[q]),
                forall|q: int| 0 <= q < bs.len() ==> (#[trigger] bs[q]).key < self.key_counter,
                forall|q: int, q2: int|
                    0 <= q2 < q < bs.len() ==> (#[trigger] bs[q2]).key != (#[trigger] bs[q]).key,
                forall|q: int|
                    0 <= q && q + 1 < bs.len() ==> (#[trigger] bs[q]).end < bs[q + 1].start,
                forall|q: int, a: u64|
                    0 <= q < bs.len() && #[trigger] blk_has(bs[q], a) ==> self.rm().dom().contains(
                        a,
                    ) && self.rm()[a] == bs[q].key,
                forall|q: int| 0 <= q < es@.len() ==> (#[trigger] es@[q]).0 < es@[q].1,
                forall|q: int, a: u64|
                    0 <= q < es@.len() && #[trigger] ent_has(es@[q], a) ==> self.rm().dom().contains(
                        a,
                    ) && self.rm()[a] == es@[q].2,
                forall|a: u64| #[trigger]
                    self.rm().dom().contains(a) ==> exists|q: int|
                        0 <= q < es@.len() && ent_has(#[trigger] es@[q], a),
                forall|q: int|
                    0 <= q < es@.len() && (#[trigger] es@[q]).0 > 0 ==> !(self.rm().dom().contains(
                        (es@[q].0 - 1) as u64,
                    ) && self.rm()[(es@[q].0 - 1) as u64] == es@[q].2),
                forall|q: int|
                    0 <= q < es@.len() ==> !(self.rm().dom().contains((#[trigger] es@[q]).1)
                        && self.rm()[es@[q].1] == es@[q].2),
                forall|q: int|
                    #![trigger es@[q]]
                    0 <= q < j ==> exists|i2: int|
                        0 <= i2 < bs.len() && (#[trigger] bs[i2]).key == es@[q].2 && bs[i2].start
                            == es@[q].0 && bs[i2].end == es@[q].1,
            decreases es@.len() - j,
        {
            let t = es[j];
            proof {
                assert(ent_has(es@[j as int], t.0));
                assert(self.rm().dom().contains(t.0) && self.rm()[t.0] == t.2);
            }
            match find_block(&self.data, t.2) {
                Some(i2) => {
                    let found_start = self.data[i2].start;
                    let found_end = self.data[i2].end;
                    if found_start != t.0 || found_end != t.1 {
                        proof {
                            if self.wf() {
                                let i3 = choose|i3: int|
                                    0 <= i3 < bs.len() && blk_has(#[trigger] bs[i3], t.0);
                                assert(blk_has(bs[i3], t.0));
                                assert(bs[i3].key == t.2);
                                assert(i3 == i2 as int);
                                assert forall|a: u64|
                                    #![trigger self.rm().dom().contains(a)]
                                    #![trigger self.rm()[a]]
                                    t.0 <= a < t.1 implies self.rm().dom().contains(a)
                                    && self.rm()[a] == t.2 by {
                                    assert(ent_has(es@[j as int], a));
                                    assert(self.rm().dom().contains(a) && self.rm()[a] == es@[
                                        j as int].2);
                                }
                                lemma_block_extent(*self, i2 as int, t);
                                assert(false);
                            }
                        }
                        return false;
                    }
                },
                None => {
                    proof {
                        if self.wf() {
                            let i3 = choose|i3: int|
                                0 <= i3 < bs.len() && blk_has(#[trigger] bs[i3], t.0);
                            assert(blk_has(bs[i3], t.0));
                            assert(bs[i3].key == t.2);
                            assert(false);
                        }
                    }
                    return false;
                },
            }
            j = j + 1;
        }
        proof {
            assert forall|i2: int, j2: int| 0 <= i2 < j2 < bs.len() implies (#[trigger]
            bs[i2]).end < (#[trigger] bs[j2]).start by {
                lemma_blocks_chain(bs, i2, j2);
            }
            assert forall|a: u64| #[trigger] self.rm().dom().contains(a) implies exists|i2: int|
                0 <= i2 < bs.len() && blk_has(#[trigger] bs[i2], a) by {
                let q = choose|q: int| 0 <= q < es@.len() && ent_has(#[trigger] es@[q], a);
                assert(ent_has(es@[q], a));
                let i3 = choose|i3: int|
                    0 <= i3 < bs.len() && (#[trigger] bs[i3]).key == es@[q].2 && bs[i3].start
                        == es@[q].0 && bs[i3].end == es@[q].1;
                assert(blk_has(bs[i3], a));
            }
            assert(self.wf());
        }
        true
    }

    /// True if any stored range intersects the query range.  An empty or
    /// reversed query range intersects nothing.
    pub fn overlaps(&self, range: &Range<u64>) -> (r: bool)
        requires
            self.wf(),
        ensures
            r == (exists|a: u64| range.start <= a < range.end && self@.dom().contains(a)),
    {
        if range.start >= range.end {
            return false;
        }
        let r = rm_overlaps(&self.map, range.start, range.end);
        proof {
            assert(self@.dom() =~= self.rm().dom());
        }
        r
    }
}

impl<T: Copy> Default for SparseVec<T> {
    /// An empty container: no address is covered.
    fn default() -> (r: Self)
        ensures
            r.wf(),
            r@ == Map::<u64, T>::empty(),
            r.key_count() == 0,
    {
        Self::new()
    }
}

} // verus!
