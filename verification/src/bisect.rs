//! Binary-search (bisection) helpers over sorted vectors of `i64`.
//!
//! `bisect_left` finds the first position whose element is not below the
//! probe, `bisect_right` the first position whose element is above it, and
//! `bisect` some position holding the probe itself when present (the
//! insertion point otherwise).

use vstd::prelude::*;

verus! {

/// Non-strict ascending order (duplicates allowed).
pub open spec fn sorted(s: Seq<i64>) -> bool {
    forall|i: int, j: int| 0 <= i <= j < s.len() ==> s[i] <= s[j]
}

/// Bisection searches over a sorted sequence of keys.
pub trait Bisect {
    /// The searched sequence.
    spec fn seq_view(&self) -> Seq<i64>;

    /// Some index holding `val` when present, else the insertion point
    /// that keeps the order.
    fn bisect(&self, val: i64) -> (r: usize)
        requires
            sorted(self.seq_view()),
        ensures
            r <= self.seq_view().len(),
            self.seq_view().contains(val) ==> r < self.seq_view().len() && self.seq_view()[r as int]
                == val,
            !self.seq_view().contains(val) ==> (forall|i: int|
                0 <= i < r ==> self.seq_view()[i] < val) && (forall|i: int|
                r <= i < self.seq_view().len() ==> self.seq_view()[i] > val),
    ;

    /// The number of elements strictly below `val`: the leftmost position
    /// where `val` could be inserted keeping the order.
    fn bisect_left(&self, val: i64) -> (r: usize)
        requires
            sorted(self.seq_view()),
        ensures
            r <= self.seq_view().len(),
            forall|i: int| 0 <= i < r ==> self.seq_view()[i] < val,
            forall|i: int| r <= i < self.seq_view().len() ==> self.seq_view()[i] >= val,
    ;

    /// The number of elements not above `val`: the rightmost position
    /// where `val` could be inserted keeping the order.
    fn bisect_right(&self, val: i64) -> (r: usize)
        requires
            sorted(self.seq_view()),
        ensures
            r <= self.seq_view().len(),
            forall|i: int| 0 <= i < r ==> self.seq_view()[i] <= val,
            forall|i: int| r <= i < self.seq_view().len() ==> self.seq_view()[i] > val,
    ;
}

impl Bisect for Vec<i64> {
    open spec fn seq_view(&self) -> Seq<i64> {
        self@
    }

    fn bisect(&self, val: i64) -> (r: usize) {
        let mut lo: usize = 0;
        let mut hi: usize = self.len();
        while lo < hi
            invariant
                sorted(self@),
                lo <= hi <= self@.len(),
                forall|i: int| 0 <= i < lo ==> self@[i] < val,
                forall|i: int| hi <= i < self@.len() ==> self@[i] > val,
            decreases hi - lo,
        {
            let mid = lo + (hi - lo) / 2;
            if self[mid] == val {
                return mid;
            } else if self[mid] < val {
                lo = mid + 1;
            } else {
                hi = mid;
            }
        }
        proof {
            if self@.contains(val) {
                let i = choose|i: int| 0 <= i < self@.len() && self@[i] == val;
                assert(false);
            }
        }
        lo
    }

    fn bisect_left(&self, val: i64) -> (r: usize) {
        let mut lo: usize = 0;
        let mut hi: usize = self.len();
        while lo < hi
            invariant
                sorted(self@),
                lo <= hi <= self@.len(),
                forall|i: int| 0 <= i < lo ==> self@[i] < val,
                forall|i: int| hi <= i < self@.len() ==> self@[i] >= val,
            decreases hi - lo,
        {
            let mid = lo + (hi - lo) / 2;
            if self[mid] < val {
                lo = mid + 1;
            } else {
                hi = mid;
            }
        }
        lo
    }

    fn bisect_right(&self, val: i64) -> (r: usize) {
        let mut lo: usize = 0;
        let mut hi: usize = self.len();
        while lo < hi
            invariant
                sorted(self@),
                lo <= hi <= self@.len(),
                forall|i: int| 0 <= i < lo ==> self@[i] <= val,
                forall|i: int| hi <= i < self@.len() ==> self@[i] > val,
            decreases hi - lo,
        {
            let mid = lo + (hi - lo) / 2;
            if self[mid] <= val {
                lo = mid + 1;
            } else {
                hi = mid;
            }
        }
        lo
    }
}

} // verus!
