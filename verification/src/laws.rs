//! Laws shared by the two ordered-set containers.
//!
//! Both `Avl` and `Rbt` expose their contents as a `Set<i64>` view, and
//! their operations promise `insert`, `remove` and `contains` over that
//! view.  The laws below state, once for both, how those operations
//! compose.

use vstd::prelude::*;

verus! {

/// The round-trip law: after an insertion of `k` a search for `k`
/// succeeds, and after a subsequent removal of `k` a search for `k` fails.
/// `search` returns `view().contains(..)`, `insert` yields
/// `view().insert(..)` and `remove` yields `view().remove(..)` on either
/// tree, so the law speaks of the views.
pub proof fn lemma_round_trip(m: Set<i64>, k: i64)
    ensures
        m.insert(k).contains(k),
        !m.insert(k).remove(k).contains(k),
{
}

/// The duplicate-insert law: inserting a key that is already present
/// changes nothing, so the second of two equal insertions leaves the
/// contents and their size alone (and each tree's `insert` reports `false`
/// exactly when the key was already contained).
pub proof fn lemma_duplicate_insert(m: Set<i64>, k: i64)
    requires
        m.finite(),
    ensures
        m.insert(k).insert(k) == m.insert(k),
        m.insert(k).contains(k),
        m.insert(k).insert(k).len() == m.insert(k).len(),
{
    assert(m.insert(k).insert(k) =~= m.insert(k));
}

} // verus!
