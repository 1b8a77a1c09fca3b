//! Iteration over the accumulator's running totals: a borrowing walker that
//! reads through a live reference, and a consuming walker that owns the
//! accumulator and releases its storage when dropped. Both yield the prefix
//! sum at each index in order and signal exhaustion with `None`; a fresh
//! borrowing walker always restarts from the first index.

use vstd::prelude::*;

verus! {

use crate::fenwick::Fenwick;
use crate::sums::psum;

/// A non-owning walker over the running totals of an accumulator.
pub struct FenwickIter<'a> {
    fw: &'a Fenwick,
    idx: usize,
}

/// An owning walker over the running totals of an accumulator.
pub struct FenwickIntoIter {
    fw: Fenwick,
    idx: usize,
}

impl<'a> FenwickIter<'a> {
    /// The walker reads a well-formed accumulator and sits at or before its
    /// end.
    pub closed spec fn wf(self) -> bool {
        self.fw.wf() && self.idx <= self.fw@.len()
    }

    /// The elements being walked.
    pub closed spec fn src(self) -> Seq<u64> {
        self.fw@
    }

    /// How many running totals have been yielded.
    pub closed spec fn pos(self) -> int {
        self.idx as int
    }

    /// Yields the running total at the next index, or `None` once every
    /// index is spent.
    pub fn next(&mut self) -> (r: Option<u64>)
        requires
            old(self).wf(),
        ensures
            final(self).wf(),
            final(self).src() == old(self).src(),
            old(self).pos() < old(self).src().len() ==> {
                &&& final(self).pos() == old(self).pos() + 1
                &&& r matches Some(t) && t as int == psum(old(self).src(), old(self).pos() + 1)
            },
            old(self).pos() >= old(self).src().len() ==> r is None && final(self).pos() == old(
                self,
            ).pos(),
    {
        if self.idx < self.fw.len() {
            self.idx = self.idx + 1;
            Some(self.fw.prefix_sum(self.idx - 1))
        } else {
            None
        }
    }
}

impl FenwickIntoIter {
    /// The walker owns a well-formed accumulator and sits at or before its
    /// end.
    pub closed spec fn wf(self) -> bool {
        self.fw.wf() && self.idx <= self.fw@.len()
    }

    /// The elements being walked.
    pub closed spec fn src(self) -> Seq<u64> {
        self.fw@
    }

    /// How many running totals have been yielded.
    pub closed spec fn pos(self) -> int {
        self.idx as int
    }

    /// Yields the running total at the next index, or `None` once every
    /// index is spent.
    pub fn next(&mut self) -> (r: Option<u64>)
        requires
            old(self).wf(),
        ensures
            final(self).wf(),
            final(self).src() == old(self).src(),
            old(self).pos() < old(self).src().len() ==> {
                &&& final(self).pos() == old(self).pos() + 1
                &&& r matches Some(t) && t as int == psum(old(self).src(), old(self).pos() + 1)
            },
            old(self).pos() >= old(self).src().len() ==> r is None && final(self).pos() == old(
                self,
            ).pos(),
    {
        if self.idx < self.fw.len() {
            self.idx = self.idx + 1;
            Some(self.fw.prefix_sum(self.idx - 1))
        } else {
            None
        }
    }
}

impl Fenwick {
    /// A borrowing walker over the running totals: the accumulator stays
    /// usable, and each fresh call restarts from the first index.
    pub fn iter(&self) -> (r: FenwickIter)
        requires
            self.wf(),
        ensures
            r.wf(),
            r.src() == self@,
            r.pos() == 0,
    {
        FenwickIter { fw: self, idx: 0 }
    }

    /// A consuming walker over the running totals: takes the accumulator
    /// and releases its storage once the walker is dropped.
    pub fn into_iter(self) -> (r: FenwickIntoIter)
        requires
            self.wf(),
        ensures
            r.wf(),
            r.src() == self@,
            r.pos() == 0,
    {
        FenwickIntoIter { fw: self, idx: 0 }
    }
}

} // verus!
