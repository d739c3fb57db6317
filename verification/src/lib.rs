//! A sparse, range-indexed container over a 64-bit address space.
//!
//! The container stores only the address ranges that have actually been
//! written, coalesces contiguous writes into single blocks, and resolves
//! overlapping writes with last-write-wins semantics while keeping the
//! untouched portions of older writes.

mod laws;
mod range_index;
mod sparse;

pub use laws::lemma_adjacent_inserts_cover;
pub use laws::lemma_insert_idempotent;
pub use laws::lemma_overwrite;
pub use laws::lemma_round_trip;
pub use sparse::cast_range;
pub use sparse::lemma_covered_single_range;
pub use sparse::covered;
pub use sparse::span_has;
pub use sparse::span_sum;
pub use sparse::sub_range;
pub use sparse::written;
pub use sparse::AddressOverflow;
pub use sparse::SparseVec;
