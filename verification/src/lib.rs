//! An indexed numeric accumulator over `u64` elements: logarithmic-time point
//! updates, prefix and range sums, and binary-lifting rank searches that find
//! an index by a target cumulative value.
//!
//! Out-of-range indices, malformed ranges and totals that would overflow a
//! slot are ruled out by each operation's contract: Verus proves that every
//! verified caller meets them, so no operation is ever left with undefined
//! behaviour. Unverified callers must check the same conditions before
//! calling.

pub mod bits;
mod fenwick;
mod iter;
pub mod laws;
pub mod sums;

pub use crate::fenwick::Fenwick;
pub use crate::iter::FenwickIntoIter;
pub use crate::iter::FenwickIter;
