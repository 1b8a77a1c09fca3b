//! The laws the accumulator obeys, stated over its model: the sequence of
//! element values and its prefix sums. Each law is proved here once and for
//! all; together with the exact contracts of the operations it pins down the
//! observable behaviour of every combination of calls.

use vstd::prelude::*;

verus! {

use crate::sums::psum;

/// After adding `added` at a valid index the value read back there is
/// greater by exactly `added`, and after subtracting `removed` it is smaller
/// by exactly `removed`: the model sequence left behind by `add` or `sub`
/// holds the adjusted element at that index, as `get` reports it.
pub proof fn lemma_update_read_back(s: Seq<u64>, idx: int, added: u64, removed: u64)
    requires
        0 <= idx < s.len(),
        s[idx] + added <= u64::MAX,
        removed <= s[idx],
    ensures
        s.update(idx, (s[idx] + added) as u64)[idx] == s[idx] + added,
        s.update(idx, (s[idx] - removed) as u64)[idx] == s[idx] - removed,
{
}

/// A range sum anchored at the first index is the prefix sum of its upper
/// end: what `range_sum(0, idx)` returns equals what `prefix_sum(idx)`
/// returns.
pub proof fn lemma_prefix_is_range_from_zero(s: Seq<u64>, idx: int)
    requires
        0 <= idx < s.len(),
    ensures
        psum(s, idx + 1) - psum(s, 0) == psum(s, idx + 1),
{
}

/// A range sum is a difference of prefix sums: what `range_sum(a, b)`
/// returns equals what `prefix_sum(b)` returns, less what `prefix_sum(a - 1)`
/// returns (less zero when the range starts at the first index).
pub proof fn lemma_range_from_prefixes(s: Seq<u64>, a: int, b: int)
    requires
        0 <= a <= b < s.len(),
    ensures
        psum(s, b + 1) - psum(s, a) == psum(s, b + 1) - (if a > 0 {
            psum(s, (a - 1) + 1)
        } else {
            0
        }),
{
}

/// The total of a non-empty accumulator is the prefix sum ending at its
/// last index: what `total` returns equals what `prefix_sum(len() - 1)`
/// returns.
pub proof fn lemma_total_is_last_prefix(s: Seq<u64>)
    requires
        s.len() >= 1,
    ensures
        psum(s, s.len() as int) == psum(s, (s.len() - 1) + 1),
{
}

/// Prefix sums are the running totals of the elements: the empty prefix
/// sums to zero and each longer prefix extends the previous one by the
/// element at the new index. Together with `from_vec` handing back exactly
/// the built-from values, `prefix_sum(i)` over a built accumulator is the
/// running sum of those values through index `i`.
pub proof fn lemma_psum_running(s: Seq<u64>, i: int)
    requires
        0 <= i < s.len(),
    ensures
        psum(s, 0) == 0,
        psum(s, i + 1) == psum(s, i) + s[i],
{
}

/// Writing a value and reading that index back yields the written value,
/// and writing the same value twice leaves the same state as writing it
/// once: `set` followed by `get` returns the value, and `set` is
/// idempotent on the model sequence.
pub proof fn lemma_set_idempotent(s: Seq<u64>, idx: int, v: u64)
    requires
        0 <= idx < s.len(),
    ensures
        s.update(idx, v)[idx] == v,
        s.update(idx, v).update(idx, v) == s.update(idx, v),
{
    assert(s.update(idx, v).update(idx, v) =~= s.update(idx, v));
}

} // verus!
