//! The mathematical model the accumulator is specified against: the running
//! sum of the first `k` elements of a sequence. Every contract of the
//! accumulator speaks of element values and of these prefix sums.

use vstd::prelude::*;

verus! {

use crate::bits::lsb_spec;
use crate::bits::np2;
use crate::bits::lemma_lsb_bounds;
use crate::bits::lemma_lsb_is_pow2;
use crate::bits::lemma_lsb_divides;
use crate::bits::lemma_lsb_raise;
use crate::bits::lemma_lsb_char;
use crate::bits::lemma_np2_bounds;
use crate::bits::lemma_np2_step;
use crate::bits::lemma_np2_of_pow2;
use crate::bits::lemma_pow2_le_divides;
use crate::bits::lemma_mod_trans;
use crate::bits::lemma_mod_minus;

/// The sum of the first `k` elements of `s` (0 for `k <= 0`).
pub open spec fn psum(s: Seq<u64>, k: int) -> int
    decreases k,
{
    if k <= 0 {
        0
    } else {
        psum(s, k - 1) + s[k - 1]
    }
}

/// The sum a slot at 1-based position `p` holds: the elements in the block
/// `(p - lsb(p), p]` of 1-based positions.
pub open spec fn slot_sum(s: Seq<u64>, p: int) -> int {
    psum(s, p) - psum(s, p - lsb_spec(p))
}

/// Prefix sums of a sequence of unsigned values grow with the prefix.
pub proof fn lemma_psum_monotone(s: Seq<u64>, a: int, b: int)
    requires
        0 <= a <= b <= s.len(),
    ensures
        psum(s, a) <= psum(s, b),
    decreases b,
{
    if a < b {
        lemma_psum_monotone(s, a, b - 1);
    }
}

/// An element is at most the sum of any block of the sequence it lies in.
pub proof fn lemma_psum_element(s: Seq<u64>, a: int, i: int, b: int)
    requires
        0 <= a <= i < b <= s.len(),
    ensures
        s[i] <= psum(s, b) - psum(s, a),
{
    lemma_psum_monotone(s, a, i);
    lemma_psum_monotone(s, i + 1, b);
}

/// Changing one element changes every prefix sum that covers it by exactly
/// the difference, and no other prefix sum.
pub proof fn lemma_psum_update(s: Seq<u64>, i: int, v: u64, k: int)
    requires
        0 <= i < s.len(),
        k <= s.len(),
    ensures
        psum(s.update(i, v), k) == psum(s, k) + if i < k {
            v - s[i]
        } else {
            0
        },
    decreases k,
{
    if k > 0 {
        lemma_psum_update(s, i, v, k - 1);
    }
}

/// The value the slot at 1-based position `p` holds after the linear build
/// pass has processed the first `k` positions: its own element, plus the
/// blocks of the children already folded into it — a contiguous run of
/// blocks just below its own element, reaching down by the least power of
/// two covering `p - k`, capped at the slot's full width.
pub open spec fn partial_slot(s: Seq<u64>, p: int, k: int) -> int {
    let w = if np2(p - k) <= lsb_spec(p) {
        np2(p - k)
    } else {
        lsb_spec(p)
    };
    psum(s, p) - psum(s, p - 1) + psum(s, p - w) - psum(s, p - lsb_spec(p))
}

/// Before the build pass has processed anything, a slot holds its own
/// element alone.
pub proof fn lemma_partial_slot_start(s: Seq<u64>, p: int)
    requires
        1 <= p,
    ensures
        partial_slot(s, p, 0) == psum(s, p) - psum(s, p - 1),
{
    lemma_lsb_bounds(p);
    lemma_np2_bounds(p);
    if np2(p) <= lsb_spec(p) {
        assert(np2(p) == lsb_spec(p));
    }
}

/// When the build pass reaches a position, its slot is already complete:
/// every child of the position has been folded in.
pub proof fn lemma_partial_slot_ready(s: Seq<u64>, p: int)
    requires
        1 <= p,
    ensures
        partial_slot(s, p, p - 1) == slot_sum(s, p),
{
    lemma_lsb_bounds(p);
}

/// Once the build pass has processed a position, its slot stays complete.
pub proof fn lemma_partial_slot_done(s: Seq<u64>, p: int, k: int)
    requires
        1 <= p <= k,
    ensures
        partial_slot(s, p, k) == slot_sum(s, p),
{
    lemma_lsb_bounds(p);
}

/// Processing position `i` folds its completed slot into the slot at
/// position `i + lsb(i)`, extending that slot's run of absorbed blocks
/// downward by exactly the block of `i`.
pub proof fn lemma_partial_slot_absorb(s: Seq<u64>, i: int)
    requires
        1 <= i,
    ensures
        partial_slot(s, i + lsb_spec(i), i) == partial_slot(s, i + lsb_spec(i), i - 1)
            + slot_sum(s, i),
{
    let l = lsb_spec(i);
    let p = i + l;
    lemma_lsb_bounds(i);
    lemma_lsb_is_pow2(i);
    lemma_np2_of_pow2(l);
    lemma_lsb_raise(i);
    assert(p - (i - 1) == l + 1);
}

/// Processing position `i` leaves every later slot other than `i + lsb(i)`
/// unchanged.
pub proof fn lemma_partial_slot_skip(s: Seq<u64>, p: int, i: int)
    requires
        1 <= i < p,
        p != i + lsb_spec(i),
    ensures
        partial_slot(s, p, i) == partial_slot(s, p, i - 1),
{
    let x = p - i;
    lemma_np2_step(x);
    if np2(x + 1) != np2(x) {
        lemma_np2_bounds(x);
        lemma_lsb_bounds(p);
        lemma_lsb_is_pow2(p);
        if lsb_spec(p) > x {
            lemma_pow2_le_divides(x, lsb_spec(p));
            lemma_lsb_divides(p);
            lemma_mod_trans(p, 2 * x, lsb_spec(p));
            lemma_mod_minus(p, x);
            lemma_lsb_char(p - x, x);
            assert(false);
        }
    }
}

/// A partially built slot lies between zero and the total of the sequence.
pub proof fn lemma_partial_slot_bounds(s: Seq<u64>, p: int, k: int)
    requires
        1 <= p <= s.len(),
    ensures
        0 <= partial_slot(s, p, k) <= psum(s, s.len() as int),
{
    lemma_lsb_bounds(p);
    lemma_np2_bounds(p - k);
    let l = lsb_spec(p);
    let w = if np2(p - k) <= l {
        np2(p - k)
    } else {
        l
    };
    lemma_psum_monotone(s, 0, p - l);
    lemma_psum_monotone(s, p - l, p - w);
    lemma_psum_monotone(s, p - w, p - 1);
    lemma_psum_monotone(s, p - 1, p);
    lemma_psum_monotone(s, p, s.len() as int);
}

/// The prefix sums of an all-zero sequence are zero.
pub proof fn lemma_psum_zero(s: Seq<u64>, k: int)
    requires
        k <= s.len(),
        forall|j: int| 0 <= j < s.len() ==> s[j] == 0,
    ensures
        psum(s, k) == 0,
    decreases k,
{
    if k > 0 {
        lemma_psum_zero(s, k - 1);
    }
}

} // verus!
