//! Ordered sets of half-open integer intervals, used to summarise the set of
//! label indices reachable from a state.

use vstd::prelude::*;

verus! {

/// A half-open interval `[begin, end)`.
#[derive(Clone, Copy, Debug, PartialEq, Eq, Structural)]
pub struct IntInterval {
    /// Inclusive lower bound.
    pub begin: usize,
    /// Exclusive upper bound.
    pub end: usize,
}

/// An ordered sequence of non-empty, non-overlapping, non-adjacent half-open
/// intervals: the canonical representation of a finite set of integers.
#[derive(Clone, Debug)]
pub struct IntervalSet {
    /// The intervals, in strictly increasing, non-adjacent order.
    pub intervals: Vec<IntInterval>,
}

impl IntervalSet {
    /// Intervals are non-empty, sorted, and separated by gaps.
    pub open spec fn wf(self) -> bool {
        &&& (forall|i: int|
            0 <= i < self.intervals@.len() ==> (#[trigger] self.intervals@[i]).begin
                < self.intervals@[i].end)
        &&& (forall|i: int|
            0 <= i < self.intervals@.len() - 1 ==> (#[trigger] self.intervals@[i]).end
                < self.intervals@[i + 1].begin)
    }

    /// Whether `x` lies in one of the intervals.
    pub open spec fn member_sp(self, x: int) -> bool {
        exists|i: int|
            0 <= i < self.intervals@.len() && (#[trigger] self.intervals@[i]).begin <= x
                < self.intervals@[i].end
    }

    /// The empty set.
    pub fn new() -> (r: Self)
        ensures
            r.wf(),
            r.intervals@.len() == 0,
            forall|x: int| !r.member_sp(x),
    {
        IntervalSet { intervals: Vec::new() }
    }

    /// The number of intervals.
    pub fn len(&self) -> (r: usize)
        ensures
            r == self.intervals@.len(),
    {
        self.intervals.len()
    }

    /// Membership, by scanning the ordered intervals.
    pub fn member(&self, x: usize) -> (r: bool)
        requires
            self.wf(),
        ensures
            r <==> self.member_sp(x as int),
    {
        let mut i: usize = 0;
        let n = self.intervals.len();
        while i < n
            invariant
                self.wf(),
                n == self.intervals@.len(),
                i <= n,
                forall|k: int|
                    0 <= k < i ==> !((#[trigger] self.intervals@[k]).begin <= x
                        && x < self.intervals@[k].end),
            decreases n - i,
        {
            let iv = self.intervals[i];
            if iv.begin <= x && x < iv.end {
                return true;
            }
            i = i + 1;
        }
        false
    }

    /// Adds a value at or beyond the end of the last interval, extending it
    /// where the value is adjacent and opening a new interval otherwise.
    pub fn push_value(&mut self, x: usize)
        requires
            old(self).wf(),
            x < usize::MAX,
            old(self).intervals@.len() > 0 ==> old(self).intervals@.last().end <= x,
        ensures
            final(self).wf(),
            forall|y: int| final(self).member_sp(y) <==> (old(self).member_sp(y) || y == x),
            final(self).intervals@.len() > 0,
            final(self).intervals@.last().end == x + 1,
    {
        let n = self.intervals.len();
        let ghost prev = self.intervals@;
        if n > 0 && self.intervals[n - 1].end == x {
            let last = self.intervals[n - 1];
            let merged = IntInterval { begin: last.begin, end: x + 1 };
            self.intervals.set(n - 1, merged);
            proof {
                assert forall|y: int|
                    final(self).member_sp(y) <==> (old(self).member_sp(y) || y == x) by {
                    if final(self).member_sp(y) {
                        let i = choose|i: int|
                            0 <= i < self.intervals@.len() && (#[trigger] self.intervals@[i]).begin
                                <= y < self.intervals@[i].end;
                        if i < n - 1 {
                            assert(prev[i].begin <= y < prev[i].end);
                        } else {
                            if y < x {
                                assert(prev[n - 1].begin <= y < prev[n - 1].end);
                            }
                        }
                    }
                    if old(self).member_sp(y) {
                        let i = choose|i: int|
                            0 <= i < prev.len() && (#[trigger] prev[i]).begin <= y < prev[i].end;
                        if i < n - 1 {
                            assert(self.intervals@[i].begin <= y < self.intervals@[i].end);
                        } else {
                            assert(self.intervals@[n - 1].begin <= y < self.intervals@[n
                                - 1].end);
                        }
                    }
                    if y == x {
                        assert(self.intervals@[n - 1].begin <= y < self.intervals@[n - 1].end);
                    }
                }
            }
        } else {
            let iv = IntInterval { begin: x, end: x + 1 };
            self.intervals.push(iv);
            proof {
                assert forall|y: int|
                    final(self).member_sp(y) <==> (old(self).member_sp(y) || y == x) by {
                    if final(self).member_sp(y) {
                        let i = choose|i: int|
                            0 <= i < self.intervals@.len() && (#[trigger] self.intervals@[i]).begin
                                <= y < self.intervals@[i].end;
                        if i < n {
                            assert(prev[i].begin <= y < prev[i].end);
                        }
                    }
                    if old(self).member_sp(y) {
                        let i = choose|i: int|
                            0 <= i < prev.len() && (#[trigger] prev[i]).begin <= y < prev[i].end;
                        assert(self.intervals@[i].begin <= y < self.intervals@[i].end);
                    }
                    if y == x {
                        assert(self.intervals@[self.intervals@.len() - 1].begin <= y
                            < self.intervals@[self.intervals@.len() - 1].end);
                    }
                }
            }
        }
    }
}

} // verus!
