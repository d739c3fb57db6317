//! Trusted view of the ordered range index.
//!
//! The range index is `rangemap::RangeMap<u64, usize>`: an ordered map from
//! non-overlapping half-open address ranges to storage keys.  Verified code
//! reasons about it through `rm_contents`, its pointwise contents: the partial
//! map that sends each covered address to the key of the range covering it.

use rangemap::RangeMap;
use vstd::prelude::*;

verus! {

#[verifier::external_type_specification]
#[verifier::external_body]
#[verifier::reject_recursive_types(K)]
#[verifier::reject_recursive_types(V)]
pub struct ExRangeMap<K, V>(RangeMap<K, V>);

/// The pointwise contents of a range index: which storage key, if any, is
/// associated with each address.
pub uninterp spec fn rm_contents(m: RangeMap<u64, usize>) -> Map<u64, usize>;

/// An entry `(start, end, key)` covers the address `a`.
pub open spec fn ent_has(t: (u64, u64, usize), a: u64) -> bool {
    t.0 <= a < t.1
}

/// Relies on `rangemap::RangeMap::new`: the new map associates no address
/// with any key.
#[verifier::external_body]
pub(crate) fn rm_new() -> (m: RangeMap<u64, usize>)
    ensures
        forall|a: u64| !rm_contents(m).dom().contains(a),
{
    RangeMap::new()
}

/// Relies on `rangemap::RangeMap::overlaps`: whether any stored range
/// overlaps the query range, i.e. whether some address in it is covered.
/// Only for proper queries: on an empty or reversed range the call can
/// report an overlap with a stored range that merely straddles its start,
/// so such queries are excluded here and handled by the caller.
#[verifier::external_body]
pub(crate) fn rm_overlaps(m: &RangeMap<u64, usize>, start: u64, end: u64) -> (r: bool)
    requires
        start < end,
    ensures
        r == (exists|a: u64| start <= a < end && rm_contents(*m).dom().contains(a)),
{
    m.overlaps(&(start..end))
}

/// Relies on `rangemap::RangeMap::insert`: every address in the inserted
/// range becomes associated with the new key, clipping whatever ranges
/// overlapped it; every other address keeps its association.
#[verifier::external_body]
pub(crate) fn rm_insert(m: &mut RangeMap<u64, usize>, start: u64, end: u64, key: usize)
    requires
        start < end,
    ensures
        forall|a: u64|
            #![trigger rm_contents(*final(m)).dom().contains(a)]
            #![trigger rm_contents(*final(m))[a]]
            start <= a < end ==> rm_contents(*final(m)).dom().contains(a)
                && rm_contents(*final(m))[a] == key,
        forall|a: u64|
            #![trigger rm_contents(*final(m)).dom().contains(a)]
            #![trigger rm_contents(*final(m))[a]]
            #![trigger rm_contents(*old(m)).dom().contains(a)]
            #![trigger rm_contents(*old(m))[a]]
            !(start <= a < end) ==> (rm_contents(*final(m)).dom().contains(a) == rm_contents(
                *old(m),
            ).dom().contains(a) && (rm_contents(*old(m)).dom().contains(a) ==> rm_contents(
                *final(m),
            )[a] == rm_contents(*old(m))[a])),
{
    m.insert(start..end, key);
}

/// Relies on `rangemap::RangeMap::get_key_value`: the stored range covering
/// the address, with its key.  A stored range is a maximal run of addresses
/// associated with one and the same key: the map coalesces touching ranges
/// with equal values, so the addresses just outside a stored range are either
/// uncovered or carry a different key.
#[verifier::external_body]
pub(crate) fn rm_get_entry(m: &RangeMap<u64, usize>, addr: u64) -> (r: Option<(u64, u64, usize)>)
    ensures
        match r {
            Some(t) => {
                &&& t.0 <= addr < t.1
                &&& forall|a: u64|
                    #![trigger rm_contents(*m).dom().contains(a)]
                    #![trigger rm_contents(*m)[a]]
                    t.0 <= a < t.1 ==> rm_contents(*m).dom().contains(a) && rm_contents(*m)[a]
                        == t.2
                &&& t.0 > 0 ==> !(rm_contents(*m).dom().contains((t.0 - 1) as u64) && rm_contents(
                    *m,
                )[(t.0 - 1) as u64] == t.2)
                &&& !(rm_contents(*m).dom().contains(t.1) && rm_contents(*m)[t.1] == t.2)
            },
            None => !rm_contents(*m).dom().contains(addr),
        },
{
    match m.get_key_value(&addr) {
        Some((r, k)) => Some((r.start, r.end, *k)),
        None => None,
    }
}

/// Relies on `rangemap::RangeMap::iter`: all stored entries in ascending
/// order.  Entries are non-empty, non-overlapping, exactly cover the
/// contents, and each is a maximal run of addresses with one key.
#[verifier::external_body]
pub(crate) fn rm_entries(m: &RangeMap<u64, usize>) -> (r: Vec<(u64, u64, usize)>)
    ensures
        forall|i: int| 0 <= i < r@.len() ==> (#[trigger] r@[i]).0 < r@[i].1,
        forall|i: int| 0 <= i && i + 1 < r@.len() ==> (#[trigger] r@[i]).1 <= r@[i + 1].0,
        forall|i: int, a: u64|
            0 <= i < r@.len() && #[trigger] ent_has(r@[i], a) ==> rm_contents(*m).dom().contains(
                a,
            ) && rm_contents(*m)[a] == r@[i].2,
        forall|a: u64| #[trigger]
            rm_contents(*m).dom().contains(a) ==> exists|i: int|
                0 <= i < r@.len() && ent_has(#[trigger] r@[i], a),
        forall|i: int|
            0 <= i < r@.len() && (#[trigger] r@[i]).0 > 0 ==> !(rm_contents(*m).dom().contains(
                (r@[i].0 - 1) as u64,
            ) && rm_contents(*m)[(r@[i].0 - 1) as u64] == r@[i].2),
        forall|i: int|
            0 <= i < r@.len() ==> !(rm_contents(*m).dom().contains((#[trigger] r@[i]).1)
                && rm_contents(*m)[r@[i].1] == r@[i].2),
{
    m.iter().map(|(r, k)| (r.start, r.end, *k)).collect()
}

} // verus!
