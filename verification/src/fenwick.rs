//! The indexed accumulator itself. A `Fenwick` owns a fixed-length buffer of
//! `u64` slots in the classic implicit-tree layout: the slot at 1-based
//! position `p` holds the sum of the logical elements at 0-based indices
//! `p - lsb(p) .. p - 1`. The structure is modelled by the sequence of its
//! logical element values, `self@`; every contract speaks of that sequence
//! and of its prefix sums `psum`.

use vstd::prelude::*;

verus! {

use crate::bits::lsb;
use crate::bits::lsb_spec;
use crate::bits::msb;
use crate::bits::msb_spec;
use crate::bits::is_pow2;
use crate::bits::lemma_lsb_bounds;
use crate::bits::lemma_lsb_raise;
use crate::bits::lemma_lsb_sum;
use crate::bits::lemma_mod_half_divisor;
use crate::bits::lemma_msb_is_pow2;
use crate::bits::lemma_msb_range;
use crate::sums::psum;
use crate::sums::slot_sum;
use crate::sums::lemma_psum_monotone;
use crate::sums::lemma_psum_element;
use crate::sums::lemma_psum_update;
use crate::sums::lemma_psum_zero;
use crate::sums::partial_slot;
use crate::sums::lemma_partial_slot_start;
use crate::sums::lemma_partial_slot_ready;
use crate::sums::lemma_partial_slot_done;
use crate::sums::lemma_partial_slot_absorb;
use crate::sums::lemma_partial_slot_skip;
use crate::sums::lemma_partial_slot_bounds;

/// A prefix-sum accumulator with logarithmic point updates, range sums and
/// rank searches over `u64` elements.
pub struct Fenwick {
    data: Vec<u64>,
    size: usize,
    max_idx_msb: usize,
    vals: Ghost<Seq<u64>>,
}

impl View for Fenwick {
    type V = Seq<u64>;

    closed spec fn view(&self) -> Seq<u64> {
        self.vals@
    }
}

impl Fenwick {
    /// The structural invariant: the buffer matches the logical size, the
    /// cached step seed is the highest power of two not above it, the total
    /// fits in a slot, and every slot holds the sum of its block.
    pub closed spec fn wf(self) -> bool {
        &&& self.vals@.len() == self.size as int
        &&& self.data@.len() == self.size as int
        &&& self.max_idx_msb as int == msb_spec(self.size as int)
        &&& psum(self.vals@, self.size as int) <= u64::MAX
        &&& forall|q: int|
            0 <= q < self.size as int ==> (#[trigger] self.data@[q]) as int == slot_sum(
                self.vals@,
                q + 1,
            )
    }

    /// Creates an accumulator of `size` zero-valued elements.
    pub fn new(size: usize) -> (r: Self)
        ensures
            r.wf(),
            r@.len() == size as int,
            forall|i: int| 0 <= i < size as int ==> r@[i] == 0u64,
            forall|k: int| 0 <= k <= size as int ==> psum(r@, k) == 0,
    {
        let mut data: Vec<u64> = Vec::new();
        while data.len() < size
            invariant
                data@.len() <= size as int,
                forall|j: int| 0 <= j < data@.len() ==> data@[j] == 0u64,
            decreases size as int - data@.len(),
        {
            data.push(0);
        }
        let max_idx_msb = msb(size);
        let r = Fenwick {
            data,
            size,
            max_idx_msb,
            vals: Ghost(Seq::new(size as nat, |i: int| 0u64)),
        };
        proof {
            assert forall|k: int| 0 <= k <= size as int implies psum(r.vals@, k) == 0 by {
                lemma_psum_zero(r.vals@, k);
            }
            assert forall|q: int| 0 <= q < size as int implies (#[trigger] r.data@[q]) as int
                == slot_sum(r.vals@, q + 1) by {
                lemma_lsb_bounds(q + 1);
                lemma_psum_zero(r.vals@, q + 1);
                lemma_psum_zero(r.vals@, q + 1 - lsb_spec(q + 1));
            }
        }
        r
    }

    /// Turns a buffer of unsummed values into the slot layout in one forward
    /// pass: each position's (by then complete) slot is folded into the next
    /// position that aggregates it, when that position is in bounds.
    fn build_tree(data: Vec<u64>) -> (r: Vec<u64>)
        requires
            psum(data@, data@.len() as int) <= u64::MAX,
        ensures
            r@.len() == data@.len(),
            forall|q: int|
                0 <= q < data@.len() ==> (#[trigger] r@[q]) as int == slot_sum(data@, q + 1),
    {
        let mut data = data;
        let ghost s = data@;
        let size = data.len();
        proof {
            assert forall|q: int| 0 <= q < size as int implies (#[trigger] data@[q]) as int
                == partial_slot(s, q + 1, 0) by {
                lemma_partial_slot_start(s, q + 1);
            }
        }
        let mut done: usize = 0;
        while done < size
            invariant
                data@.len() == size as int,
                s.len() == size as int,
                psum(s, size as int) <= u64::MAX,
                done <= size,
                forall|q: int|
                    0 <= q < size as int ==> (#[trigger] data@[q]) as int == partial_slot(
                        s,
                        q + 1,
                        done as int,
                    ),
            decreases size - done,
        {
            let pos = done + 1;
            proof {
                lemma_lsb_bounds(pos as int);
                lemma_partial_slot_ready(s, pos as int);
            }
            let step = lsb(pos);
            if step <= size - pos {
                proof {
                    lemma_partial_slot_absorb(s, pos as int);
                    lemma_partial_slot_bounds(s, pos as int + step, pos as int);
                }
                let d = data[pos - 1];
                let t = data[pos + step - 1];
                data.set(pos + step - 1, t + d);
            }
            proof {
                assert forall|q: int| 0 <= q < size as int implies (#[trigger] data@[q]) as int
                    == partial_slot(s, q + 1, pos as int) by {
                    if q + 1 <= pos as int {
                        lemma_partial_slot_done(s, q + 1, pos as int);
                        if q + 1 < pos as int {
                            lemma_partial_slot_done(s, q + 1, pos as int - 1);
                        } else {
                            lemma_partial_slot_ready(s, q + 1);
                        }
                    } else if q + 1 == pos as int + lsb_spec(pos as int) {
                        lemma_partial_slot_absorb(s, pos as int);
                    } else {
                        lemma_partial_slot_skip(s, q + 1, pos as int);
                    }
                }
            }
            done = pos;
        }
        proof {
            assert forall|q: int| 0 <= q < size as int implies (#[trigger] data@[q]) as int
                == slot_sum(s, q + 1) by {
                lemma_partial_slot_done(s, q + 1, size as int);
            }
        }
        data
    }

    /// Builds an accumulator from a vector of unsummed values, taking the
    /// buffer over without copying. The values' total must fit in a slot.
    pub fn from_vec(values: Vec<u64>) -> (r: Self)
        requires
            psum(values@, values@.len() as int) <= u64::MAX,
        ensures
            r.wf(),
            r@ == values@,
    {
        let ghost s = values@;
        let size = values.len();
        let max_idx_msb = msb(size);
        let data = Self::build_tree(values);
        Fenwick { data, size, max_idx_msb, vals: Ghost(s) }
    }

    /// Builds an accumulator by copying unsummed values out of a borrowed
    /// slice. The values' total must fit in a slot.
    pub fn from_slice(values: &[u64]) -> (r: Self)
        requires
            psum(values@, values@.len() as int) <= u64::MAX,
        ensures
            r.wf(),
            r@ == values@,
    {
        let n = values.len();
        let mut v: Vec<u64> = Vec::new();
        while v.len() < n
            invariant
                values@.len() == n as int,
                v@.len() <= n as int,
                forall|j: int| 0 <= j < v@.len() ==> v@[j] == values@[j],
            decreases n as int - v@.len(),
        {
            let x = values[v.len()];
            v.push(x);
        }
        proof {
            assert(v@ =~= values@);
        }
        Self::from_vec(v)
    }

    /// Builds an accumulator from already-collected values: the counterpart
    /// of draining an iterable into a vector and handing that vector over.
    pub fn from_iter(values: Vec<u64>) -> (r: Self)
        requires
            psum(values@, values@.len() as int) <= u64::MAX,
        ensures
            r.wf(),
            r@ == values@,
    {
        Self::from_vec(values)
    }

    /// The number of logical elements; fixed at construction.
    pub fn len(&self) -> (r: usize)
        requires
            self.wf(),
        ensures
            r as int == self@.len() as int,
    {
        self.size
    }

    /// The sum of the elements at indices `0 ..= idx`.
    pub fn prefix_sum(&self, idx: usize) -> (r: u64)
        requires
            self.wf(),
            idx < self@.len(),
        ensures
            r as int == psum(self@, idx + 1),
    {
        let mut i: usize = idx + 1;
        let mut sum: u64 = 0;
        while i > 0
            invariant
                self.wf(),
                idx < self@.len(),
                i <= idx + 1,
                sum as int == psum(self@, idx + 1) - psum(self@, i as int),
            decreases i,
        {
            proof {
                lemma_lsb_bounds(i as int);
                assert((self.data@[i - 1]) as int == slot_sum(self@, i as int));
                lemma_psum_monotone(self@, 0, i - lsb_spec(i as int));
                lemma_psum_monotone(self@, i - lsb_spec(i as int), i as int);
                lemma_psum_monotone(self@, i as int, idx + 1);
                lemma_psum_monotone(self@, idx + 1, self@.len() as int);
            }
            sum = sum + self.data[i - 1];
            i = i - lsb(i);
        }
        sum
    }

    /// Adds `delta` to the element at `idx`, touching exactly the slots whose
    /// block covers that index. The new total must still fit in a slot.
    pub fn add(&mut self, idx: usize, delta: u64)
        requires
            old(self).wf(),
            idx < old(self)@.len(),
            psum(old(self)@, old(self)@.len() as int) + delta <= u64::MAX,
        ensures
            final(self).wf(),
            final(self)@ == old(self)@.update(
                idx as int,
                (old(self)@[idx as int] + delta) as u64,
            ),
            psum(final(self)@, old(self)@.len() as int) == psum(
                old(self)@,
                old(self)@.len() as int,
            ) + delta,
    {
        proof {
            lemma_psum_element(self.vals@, 0, idx as int, self.size as int);
            lemma_lsb_bounds(idx as int + 1);
        }
        let ghost s0 = self.vals@;
        let ghost s1 = s0.update(idx as int, (s0[idx as int] + delta) as u64);
        let size = self.size;
        let mut i: usize = idx + 1;
        loop
            invariant_except_break
                self.size == size,
                self.vals@ == s0,
                s0.len() == size as int,
                self.data@.len() == size as int,
                self.max_idx_msb as int == msb_spec(size as int),
                psum(s0, size as int) + delta <= u64::MAX,
                idx < size,
                1 <= i <= size,
                i - lsb_spec(i as int) <= idx < i,
                forall|q: int|
                    0 <= q < size as int ==> (#[trigger] self.data@[q]) as int == slot_sum(s0, q + 1)
                        + (if (idx as int) < q + 1 && q + 1 < i as int && q + 1 - lsb_spec(q + 1) <= idx as int {
                        delta as int
                    } else {
                        0
                    }),
            ensures
                self.size == size,
                self.vals@ == s0,
                self.data@.len() == size as int,
                self.max_idx_msb as int == msb_spec(size as int),
                forall|q: int|
                    0 <= q < size as int ==> (#[trigger] self.data@[q]) as int == slot_sum(s0, q + 1)
                        + (if (idx as int) < q + 1 && q + 1 - lsb_spec(q + 1) <= idx as int {
                        delta as int
                    } else {
                        0
                    }),
            decreases size - i,
        {
            proof {
                lemma_lsb_bounds(i as int);
                lemma_psum_monotone(s0, 0, i - lsb_spec(i as int));
                lemma_psum_monotone(s0, i - lsb_spec(i as int), i as int);
                lemma_psum_monotone(s0, i as int, size as int);
            }
            let v = self.data[i - 1];
            self.data.set(i - 1, v + delta);
            let step = lsb(i);
            proof {
                lemma_lsb_raise(i as int);
                assert forall|p: int| (i as int) < p < i as int + lsb_spec(i as int) implies p
                    - lsb_spec(p) > idx as int by {
                    crate::bits::lemma_lsb_gap(i as int, p);
                }
            }
            if step > size - i {
                break;
            }
            i = i + step;
        }
        self.vals = Ghost(s1);
        proof {
            assert forall|q: int| 0 <= q < size as int implies (#[trigger] self.data@[q]) as int
                == slot_sum(s1, q + 1) by {
                lemma_lsb_bounds(q + 1);
                lemma_psum_update(s0, idx as int, s1[idx as int], q + 1);
                lemma_psum_update(s0, idx as int, s1[idx as int], q + 1 - lsb_spec(q + 1));
            }
            lemma_psum_update(s0, idx as int, s1[idx as int], size as int);
        }
    }

    /// Subtracts `delta` from the element at `idx`; the element must be at
    /// least `delta`. A separate operation rather than `add` of a negation,
    /// since the element type is unsigned.
    pub fn sub(&mut self, idx: usize, delta: u64)
        requires
            old(self).wf(),
            idx < old(self)@.len(),
            delta <= old(self)@[idx as int],
        ensures
            final(self).wf(),
            final(self)@ == old(self)@.update(
                idx as int,
                (old(self)@[idx as int] - delta) as u64,
            ),
            psum(final(self)@, old(self)@.len() as int) == psum(
                old(self)@,
                old(self)@.len() as int,
            ) - delta,
    {
        proof {
            lemma_lsb_bounds(idx as int + 1);
        }
        let ghost s0 = self.vals@;
        let ghost s1 = s0.update(idx as int, (s0[idx as int] - delta) as u64);
        let size = self.size;
        let mut i: usize = idx + 1;
        loop
            invariant_except_break
                self.size == size,
                self.vals@ == s0,
                s0.len() == size as int,
                self.data@.len() == size as int,
                self.max_idx_msb as int == msb_spec(size as int),
                psum(s0, size as int) <= u64::MAX,
                delta <= s0[idx as int],
                idx < size,
                1 <= i <= size,
                i - lsb_spec(i as int) <= idx < i,
                forall|q: int|
                    0 <= q < size as int ==> (#[trigger] self.data@[q]) as int == slot_sum(s0, q + 1)
                        - (if (idx as int) < q + 1 && q + 1 < i as int && q + 1 - lsb_spec(q + 1) <= idx as int {
                        delta as int
                    } else {
                        0
                    }),
            ensures
                self.size == size,
                self.vals@ == s0,
                self.data@.len() == size as int,
                self.max_idx_msb as int == msb_spec(size as int),
                forall|q: int|
                    0 <= q < size as int ==> (#[trigger] self.data@[q]) as int == slot_sum(s0, q + 1)
                        - (if (idx as int) < q + 1 && q + 1 - lsb_spec(q + 1) <= idx as int {
                        delta as int
                    } else {
                        0
                    }),
            decreases size - i,
        {
            proof {
                lemma_lsb_bounds(i as int);
                lemma_psum_element(s0, i - lsb_spec(i as int), idx as int, i as int);
                lemma_psum_monotone(s0, 0, i - lsb_spec(i as int));
                lemma_psum_monotone(s0, i as int, size as int);
            }
            let v = self.data[i - 1];
            self.data.set(i - 1, v - delta);
            let step = lsb(i);
            proof {
                lemma_lsb_raise(i as int);
                assert forall|p: int| (i as int) < p < i as int + lsb_spec(i as int) implies p
                    - lsb_spec(p) > idx as int by {
                    crate::bits::lemma_lsb_gap(i as int, p);
                }
            }
            if step > size - i {
                break;
            }
            i = i + step;
        }
        self.vals = Ghost(s1);
        proof {
            assert forall|q: int| 0 <= q < size as int implies (#[trigger] self.data@[q]) as int
                == slot_sum(s1, q + 1) by {
                lemma_lsb_bounds(q + 1);
                lemma_psum_update(s0, idx as int, s1[idx as int], q + 1);
                lemma_psum_update(s0, idx as int, s1[idx as int], q + 1 - lsb_spec(q + 1));
            }
            lemma_psum_update(s0, idx as int, s1[idx as int], size as int);
        }
    }

    /// The sum of the elements at indices `start ..= end`, computed by one
    /// convergent two-cursor walk instead of two independent prefix sums: the
    /// high cursor descends from past the end adding slots, the low cursor
    /// descends from the start subtracting them, until the two meet at the
    /// shared ancestor position.
    pub fn range_sum(&self, start: usize, end: usize) -> (r: u64)
        requires
            self.wf(),
            start <= end,
            end < self@.len(),
        ensures
            r as int == psum(self@, end + 1) - psum(self@, start as int),
    {
        let mut sum: u64 = 0;
        let mut i: usize = start;
        let mut j: usize = end + 1;
        while j > i
            invariant
                self.wf(),
                start <= end < self@.len(),
                i == start,
                j <= end + 1,
                sum as int == psum(self@, end + 1) - psum(self@, j as int),
                j <= i ==> (j == 0 || (i as int) < j + lsb_spec(j as int)),
            decreases j,
        {
            proof {
                lemma_lsb_bounds(j as int);
                assert((self.data@[j - 1]) as int == slot_sum(self@, j as int));
                lemma_psum_monotone(self@, 0, j - lsb_spec(j as int));
                lemma_psum_monotone(self@, j - lsb_spec(j as int), j as int);
                lemma_psum_monotone(self@, j as int, end + 1);
                lemma_psum_monotone(self@, end + 1, self@.len() as int);
                if j as int - lsb_spec(j as int) >= 1 {
                    crate::bits::lemma_lsb_clear(j as int);
                }
            }
            sum = sum + self.data[j - 1];
            j = j - lsb(j);
        }
        while i > j
            invariant
                self.wf(),
                start <= end < self@.len(),
                j <= i <= start,
                j == 0 || (i as int) < j + lsb_spec(j as int),
                sum as int == psum(self@, end + 1) - psum(self@, j as int) + psum(self@, i as int)
                    - psum(self@, start as int),
            decreases i,
        {
            proof {
                lemma_lsb_bounds(i as int);
                assert((self.data@[i - 1]) as int == slot_sum(self@, i as int));
                if j >= 1 {
                    crate::bits::lemma_lsb_gap(j as int, i as int);
                }
                lemma_psum_monotone(self@, j as int, i - lsb_spec(i as int));
                lemma_psum_monotone(self@, i - lsb_spec(i as int), i as int);
                lemma_psum_monotone(self@, i as int, end + 1);
                lemma_psum_monotone(self@, start as int, end + 1);
            }
            sum = sum - self.data[i - 1];
            i = i - lsb(i);
        }
        sum
    }

    /// The value of the element at `idx`.
    pub fn get(&self, idx: usize) -> (r: u64)
        requires
            self.wf(),
            idx < self@.len(),
        ensures
            r == self@[idx as int],
    {
        self.range_sum(idx, idx)
    }

    /// Overwrites the element at `idx` with `value`, adding or subtracting
    /// the difference from the current value so that unsigned arithmetic
    /// never underflows. The new total must still fit in a slot.
    pub fn set(&mut self, idx: usize, value: u64)
        requires
            old(self).wf(),
            idx < old(self)@.len(),
            psum(old(self)@, old(self)@.len() as int) - old(self)@[idx as int] + value
                <= u64::MAX,
        ensures
            final(self).wf(),
            final(self)@ == old(self)@.update(idx as int, value),
            psum(final(self)@, old(self)@.len() as int) == psum(
                old(self)@,
                old(self)@.len() as int,
            ) - old(self)@[idx as int] + value,
    {
        proof {
            lemma_psum_element(self.vals@, 0, idx as int, self.size as int);
        }
        let cur = self.get(idx);
        if cur <= value {
            self.add(idx, value - cur);
        } else {
            self.sub(idx, cur - value);
        }
    }

    /// Finds the greatest index whose running total is still strictly below
    /// `value`, by a binary-lifting descent from the cached top step: a step
    /// is taken only while the slot ahead is strictly below what remains of
    /// `value`, so a prefix sum exactly equal to `value` does not advance the
    /// cursor. The landing position is reported as the matching index; when
    /// the cursor never moves, position 0 counts as a match exactly when the
    /// first element's sum is `value` itself, and there is no match when that
    /// sum already exceeds `value`. The accumulator must not be empty.
    pub fn rank_query(&self, value: u64) -> (r: Option<usize>)
        requires
            self.wf(),
            self@.len() >= 1,
        ensures
            ({
                let s = self@;
                let n = s.len() as int;
                let v = value as int;
                match r {
                    None => psum(s, 1) > v,
                    Some(i) => {
                        &&& i as int <= n
                        &&& (i == 0 ==> psum(s, 1) == v)
                        &&& (1 <= i as int ==> psum(s, i as int) < v)
                        &&& (1 <= i as int && (i as int) < n ==> psum(s, i as int + 1) >= v)
                    },
                }
            }),
    {
        let ghost s = self@;
        let mut step: usize = self.max_idx_msb;
        let mut i: usize = 0;
        let mut v: u64 = value;
        proof {
            lemma_msb_is_pow2(self.size as int);
            lemma_msb_range(self.size as int);
        }
        while step > 0
            invariant
                self.wf(),
                s == self@,
                1 <= self.size,
                i <= self.size,
                step > 0 ==> is_pow2(step as int) && (i as int) % (2 * step as int) == 0,
                i == 0 || psum(s, i as int) < value as int,
                v as int == value as int - psum(s, i as int),
                forall|q: int|
                    (i as int) < q <= self.size as int && psum(s, q) < value as int ==> q < i as int
                        + 2 * step as int,
            decreases step,
        {
            let ghost i0 = i as int;
            let ghost j0 = i as int + step as int;
            proof {
                lemma_lsb_sum(i as int, step as int);
            }
            if step <= self.size - i && self.data[i + step - 1] < v {
                v = v - self.data[i + step - 1];
                i = i + step;
            }
            proof {
                lemma_mod_half_divisor(i0, step as int);
                assert forall|q: int|
                    (i as int) < q <= self.size as int && psum(s, q) < value as int implies q < i
                        as int + step as int by {
                    if q >= j0 {
                        lemma_psum_monotone(s, j0, q);
                    }
                };
            }
            step = step / 2;
        }
        proof {
            assert(lsb_spec(1) == 1);
            assert((self.data@[0]) as int == slot_sum(s, 1));
            if i == 0 && psum(s, 1) < value as int {
                assert(false);
            }
        }
        if i != 0 || self.data[0] <= value {
            proof {
                if 1 <= i as int && (i as int) < self.size as int && psum(s, i as int + 1) < value
                    as int {
                    assert(false);
                }
            }
            Some(i)
        } else {
            None
        }
    }

    /// Finds the least index whose running total reaches at least `value`,
    /// by the mirrored binary-lifting descent: a step is taken only while
    /// the sum accumulated so far plus the slot ahead is still strictly
    /// below `value`. There is no match when even the total of all elements
    /// falls short of `value` (in particular when the accumulator is empty).
    pub fn min_rank_query(&self, value: u64) -> (r: Option<usize>)
        requires
            self.wf(),
        ensures
            ({
                let s = self@;
                let n = s.len() as int;
                let v = value as int;
                match r {
                    None => n == 0 || psum(s, n) < v,
                    Some(i) => {
                        &&& (i as int) < n
                        &&& psum(s, i as int + 1) >= v
                        &&& (1 <= i as int ==> psum(s, i as int) < v)
                    },
                }
            }),
    {
        let ghost s = self@;
        let mut step: usize = self.max_idx_msb;
        let mut i: usize = 0;
        let mut v: u64 = 0;
        proof {
            if self.size >= 1 {
                lemma_msb_is_pow2(self.size as int);
                lemma_msb_range(self.size as int);
            }
        }
        while step > 0
            invariant
                self.wf(),
                s == self@,
                i <= self.size,
                step > 0 ==> is_pow2(step as int) && (i as int) % (2 * step as int) == 0,
                i == 0 || psum(s, i as int) < value as int,
                v as int == psum(s, i as int),
                forall|q: int|
                    (i as int) < q <= self.size as int && psum(s, q) < value as int ==> q < i as int
                        + 2 * step as int,
            decreases step,
        {
            let ghost i0 = i as int;
            let ghost j0 = i as int + step as int;
            proof {
                lemma_lsb_sum(i as int, step as int);
            }
            if step <= self.size - i {
                proof {
                    assert((self.data@[j0 - 1]) as int == slot_sum(s, j0));
                    lemma_psum_monotone(s, j0, self.size as int);
                }
                let t = self.data[i + step - 1];
                if v + t < value {
                    v = v + t;
                    i = i + step;
                }
            }
            proof {
                lemma_mod_half_divisor(i0, step as int);
                assert forall|q: int|
                    (i as int) < q <= self.size as int && psum(s, q) < value as int implies q < i
                        as int + step as int by {
                    if q >= j0 {
                        lemma_psum_monotone(s, j0, q);
                    }
                };
            }
            step = step / 2;
        }
        if i < self.size {
            proof {
                if psum(s, i as int + 1) < value as int {
                    assert(false);
                }
            }
            Some(i)
        } else {
            None
        }
    }

    /// The sum of all elements; the accumulator must not be empty.
    pub fn total(&self) -> (r: u64)
        requires
            self.wf(),
            self@.len() >= 1,
        ensures
            r as int == psum(self@, self@.len() as int),
    {
        self.prefix_sum(self.size - 1)
    }
}

} // verus!
