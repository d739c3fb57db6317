//! General properties of the container, proved once and for all.

use crate::sparse::{covered, written};
use vstd::prelude::*;

verus! {

/// Round trip: writing `d` at `addr` makes every address of the written
/// range covered, with exactly the elements of `d` stored there.
pub proof fn lemma_round_trip<T>(m: Map<u64, T>, d: Seq<T>, addr: u64)
    requires
        d.len() > 0,
        addr + d.len() <= u64::MAX,
    ensures
        covered(m.union_prefer_right(written(addr, d)), addr, (addr + d.len()) as u64),
        forall|q: int|
            0 <= q < d.len() ==> m.union_prefer_right(written(addr, d))[(addr + q) as u64] == d[q],
{
    let w = written(addr, d);
    let m2 = m.union_prefer_right(w);
    assert forall|q: int| 0 <= q < d.len() implies m2[(addr + q) as u64] == d[q] by {
        let a = (addr + q) as u64;
        assert(w.dom().contains(a));
        assert(w[a] == d[q]);
    }
    assert forall|a: u64| addr <= a < addr + d.len() implies m2.dom().contains(a) by {
        assert(w.dom().contains(a));
    }
}

/// Idempotent re-insert: writing the same data at the same address twice
/// leaves the same state as writing it once.
pub proof fn lemma_insert_idempotent<T>(m: Map<u64, T>, d: Seq<T>, addr: u64)
    ensures
        m.union_prefer_right(written(addr, d)).union_prefer_right(written(addr, d))
            == m.union_prefer_right(written(addr, d)),
{
    let w = written(addr, d);
    assert(m.union_prefer_right(w).union_prefer_right(w) =~= m.union_prefer_right(w));
}

/// Overwrite precedence: after writing `d` at `addr`, every address of the
/// written range holds the new element, and every other address keeps
/// exactly what it held before.
pub proof fn lemma_overwrite<T>(m: Map<u64, T>, d: Seq<T>, addr: u64)
    requires
        addr + d.len() <= u64::MAX,
    ensures
        forall|a: u64|
            addr <= a < addr + d.len() ==> m.union_prefer_right(written(addr, d))[a] == d[
                a - addr
            ],
        forall|a: u64|
            !(addr <= a < addr + d.len()) && m.dom().contains(a) ==> m.union_prefer_right(
                written(addr, d),
            ).dom().contains(a) && m.union_prefer_right(written(addr, d))[a] == m[a],
        forall|a: u64|
            !(addr <= a < addr + d.len()) && !m.dom().contains(a) ==> !m.union_prefer_right(
                written(addr, d),
            ).dom().contains(a),
{
    let w = written(addr, d);
    assert forall|a: u64| addr <= a < addr + d.len() implies m.union_prefer_right(w)[a] == d[
        a - addr
    ] by {
        assert(w.dom().contains(a));
    }
}

/// Coalescing: two writes laid end to end cover one contiguous range.
pub proof fn lemma_adjacent_inserts_cover<T>(m: Map<u64, T>, d1: Seq<T>, d2: Seq<T>, addr: u64)
    requires
        d1.len() > 0,
        d2.len() > 0,
        addr + d1.len() + d2.len() <= u64::MAX,
    ensures
        covered(
            m.union_prefer_right(written(addr, d1)).union_prefer_right(
                written((addr + d1.len()) as u64, d2),
            ),
            addr,
            (addr + d1.len() + d2.len()) as u64,
        ),
{
    let w1 = written(addr, d1);
    let w2 = written((addr + d1.len()) as u64, d2);
    let m2 = m.union_prefer_right(w1).union_prefer_right(w2);
    assert forall|a: u64| addr <= a < addr + d1.len() + d2.len() implies m2.dom().contains(a) by {
        if a < addr + d1.len() {
            assert(w1.dom().contains(a));
        } else {
            assert(w2.dom().contains(a));
        }
    }
    assert(m2.dom().contains(addr));
}

} // verus!
