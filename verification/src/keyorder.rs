//! The three-way comparison discipline shared by the ordered trees.
//!
//! `search_by` and `remove_by` on the trees take a caller-supplied closure
//! that compares each visited key against an implicit target.  The closure
//! must order candidates exactly as some target key `k` would; the spec
//! functions here state that consistency condition, which the trees take as
//! a precondition.

use vstd::prelude::*;

verus! {

use core::cmp::Ordering;

/// The ordering that the target band `[lo, hi]` bears to a candidate key
/// `x`: `Equal` inside the band, `Greater` below it (the search must move
/// right), `Less` above it (the search must move left).  A full target
/// key is the band `[k, k]`; a partial key — one that fixes only the
/// leading part of the ordering — is a wider band.
pub open spec fn range_ordering_of(lo: i64, hi: i64, x: i64) -> Ordering {
    if x < lo {
        Ordering::Greater
    } else if x > hi {
        Ordering::Less
    } else {
        Ordering::Equal
    }
}

/// The ordering that a target key `k` bears to a candidate key `x`:
/// the result of `k.cmp(&x)`.
pub open spec fn ordering_of(k: i64, x: i64) -> Ordering {
    range_ordering_of(k, k, x)
}

/// The closure `cmp` orders candidates exactly as the band `[lo, hi]`
/// does: it may always be called, and every result it can return is
/// `range_ordering_of(lo, hi, x)`.
pub open spec fn cmp_for_range<F: Fn(&i64) -> Ordering>(cmp: F, lo: i64, hi: i64) -> bool {
    &&& lo <= hi
    &&& forall|x: &i64| #[trigger] call_requires(cmp, (x,))
    &&& forall|x: &i64, o: Ordering|
        #[trigger] call_ensures(cmp, (x,), o) ==> o == range_ordering_of(lo, hi, *x)
}

/// The closure `cmp` behaves exactly like a comparison of the fixed target
/// key `k` against its argument.
pub open spec fn cmp_for<F: Fn(&i64) -> Ordering>(cmp: F, k: i64) -> bool {
    cmp_for_range(cmp, k, k)
}

} // verus!
