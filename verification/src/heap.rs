//! A binary min-heap over `i64` values, backed by a `Vec`.
//!
//! The heap is viewed as a multiset; `pop`, `peek` and `pushpop` are
//! proved to deliver a minimum of that multiset.

use vstd::prelude::*;

verus! {

use vstd::multiset::Multiset;

/// Position `c` is a child of position `p` in an array of length `n`.
pub open spec fn is_child(p: int, c: int, n: int) -> bool {
    0 <= p && (c == 2 * p + 1 || c == 2 * p + 2) && c < n
}

/// Every parent at position `>= k`, other than position `x`, is no greater
/// than its children.
spec fn pairs_ok_except(s: Seq<i64>, k: int, x: int) -> bool {
    forall|p: int, c: int| is_child(p, c, s.len() as int) && p >= k && p != x ==> s[p] <= s[c]
}

/// Every parent is no greater than its children, except possibly the
/// parent of position `x`.
spec fn pairs_ok_except_child(s: Seq<i64>, x: int) -> bool {
    forall|p: int, c: int| is_child(p, c, s.len() as int) && c != x ==> s[p] <= s[c]
}

/// The min-heap shape: every parent is no greater than its children.
pub open spec fn is_heap(s: Seq<i64>) -> bool {
    forall|p: int, c: int| is_child(p, c, s.len() as int) ==> s[p] <= s[c]
}

/// In a heap the root is a minimum.
proof fn lemma_root_min(s: Seq<i64>, i: int)
    requires
        is_heap(s),
        0 <= i < s.len(),
    ensures
        s[0] <= s[i],
    decreases i,
{
    if i > 0 {
        let p = (i - 1) / 2;
        assert(is_child(p, i, s.len() as int));
        lemma_root_min(s, p);
    }
}

/// A binary min-heap.
pub struct Heap {
    data: Vec<i64>,
}

impl Heap {
    /// The abstract contents: the multiset of stored values.
    pub closed spec fn view(self) -> Multiset<i64> {
        self.data@.to_multiset()
    }

    /// Well-formedness: the backing vector has the min-heap shape.
    pub closed spec fn wf(self) -> bool {
        is_heap(self.data@)
    }

    /// An empty heap.
    pub fn new() -> (r: Heap)
        ensures
            r.wf(),
            r.view() == Multiset::<i64>::empty(),
    {
        let r = Heap { data: Vec::new() };
        proof {
            broadcast use vstd::seq_lib::to_multiset_len, vstd::seq_lib::to_multiset_contains;

            assert(r.view() =~= Multiset::<i64>::empty());
        }
        r
    }

    /// An empty heap with room reserved for `capacity` values.
    pub fn with_capacity(capacity: usize) -> (r: Heap)
        ensures
            r.wf(),
            r.view() == Multiset::<i64>::empty(),
    {
        let r = Heap { data: Vec::with_capacity(capacity) };
        proof {
            broadcast use vstd::seq_lib::to_multiset_len, vstd::seq_lib::to_multiset_contains;

            assert(r.view() =~= Multiset::<i64>::empty());
        }
        r
    }

    /// Number of stored values.
    pub fn len(&self) -> (r: usize)
        ensures
            r == self.view().len(),
    {
        proof {
            broadcast use vstd::seq_lib::to_multiset_len;

        }
        self.data.len()
    }

    /// Whether the heap holds nothing.
    pub fn is_empty(&self) -> (r: bool)
        ensures
            r == (self.view().len() == 0),
    {
        proof {
            broadcast use vstd::seq_lib::to_multiset_len;

        }
        self.data.is_empty()
    }

    /// Restore the heap shape by sinking position `i` down, assuming every
    /// other parent from `i` on is already in order.
    fn heapify_downward(&mut self, i: usize)
        requires
            i < old(self).data@.len(),
            pairs_ok_except(old(self).data@, i as int, i as int),
        ensures
            final(self).data@.len() == old(self).data@.len(),
            final(self).data@.to_multiset() == old(self).data@.to_multiset(),
            forall|j: int| 0 <= j < i ==> final(self).data@[j] == old(self).data@[j],
            pairs_ok_except(final(self).data@, i as int, -1),
    {
        let n = self.data.len();
        let mut cur = i;
        loop
            invariant
                i <= cur < n,
                n == self.data@.len(),
                n == old(self).data@.len(),
                self.data@.to_multiset() == old(self).data@.to_multiset(),
                forall|j: int| 0 <= j < i ==> self.data@[j] == old(self).data@[j],
                pairs_ok_except(self.data@, i as int, cur as int),
                cur > i ==> forall|c: int|
                    is_child(cur as int, c, n as int) ==> self.data@[(cur - 1) / 2] <= self.data@[c],
            decreases n - cur,
        {
            let s = Ghost(self.data@);
            if cur >= n / 2 {
                proof {
                    assert forall|c: int| !is_child(cur as int, c, n as int) by {}
                }
                return;
            }
            let l = 2 * cur + 1;
            let r = l + 1;
            let target = if r < n && self.data[cur] > self.data[r] {
                if self.data[l] < self.data[r] {
                    l
                } else {
                    r
                }
            } else if self.data[cur] > self.data[l] {
                l
            } else {
                proof {
                    assert(is_child(cur as int, l as int, n as int));
                    if r < n {
                        assert(is_child(cur as int, r as int, n as int));
                    }
                }
                return;
            };
            let a = self.data[cur];
            let b = self.data[target];
            self.data[cur] = b;
            self.data[target] = a;
            proof {
                broadcast use vstd::seq_lib::to_multiset_update;
                broadcast use vstd::seq_lib::to_multiset_contains;
                broadcast use vstd::multiset::group_multiset_axioms;

                let s0 = s@;
                let s2 = self.data@;
                assert(s0.contains(s0[cur as int]));
                let u = s0.update(cur as int, b);
                assert(u.to_multiset() == s0.to_multiset().insert(b).remove(s0[cur as int]));
                assert(u[target as int] == b);
                assert(s2 =~= u.update(target as int, a));
                assert(s2.to_multiset() == u.to_multiset().insert(a).remove(b));
                assert(s2.to_multiset() =~= s0.to_multiset());
                assert(is_child(cur as int, target as int, n as int));
                assert(b < a);
                assert forall|c: int| is_child(cur as int, c, n as int) implies b <= s0[c] by {}
                assert forall|p: int, c: int|
                    is_child(p, c, n as int) && p >= i && p != target implies s2[p] <= s2[c] by {
                    if p == cur as int {
                        if c != target as int {
                            assert(s2[c] == s0[c]);
                        }
                    } else if c == cur as int {
                        assert(p == (cur as int - 1) / 2);
                        assert(cur > i);
                        assert(s2[p] == s0[p]);
                        assert(s0[p] <= s0[target as int]);
                    } else if c == target as int {
                        assert(p == cur as int);
                    } else {
                        assert(s2[p] == s0[p] && s2[c] == s0[c]);
                    }
                }
                assert forall|c: int|
                    is_child(target as int, c, n as int) implies s2[(target as int - 1) / 2]
                    <= s2[c] by {
                    assert((target as int - 1) / 2 == cur as int);
                    assert(s2[c] == s0[c]);
                    assert(s0[target as int] <= s0[c]);
                }
            }
            cur = target;
        }
    }

    /// Restore the heap shape by floating position `i` up, assuming every
    /// pair not ending at `i` is already in order and `i`'s grandparent
    /// bridges over it.
    fn heapify_upward(&mut self, i: usize)
        requires
            i < old(self).data@.len(),
            pairs_ok_except_child(old(self).data@, i as int),
            i > 0 ==> forall|c: int|
                is_child(i as int, c, old(self).data@.len() as int) ==> old(self).data@[(i - 1)
                    / 2] <= old(self).data@[c],
        ensures
            final(self).data@.len() == old(self).data@.len(),
            final(self).data@.to_multiset() == old(self).data@.to_multiset(),
            is_heap(final(self).data@),
    {
        let n = self.data.len();
        let mut cur = i;
        while cur > 0
            invariant
                cur < n,
                n == self.data@.len(),
                n == old(self).data@.len(),
                self.data@.to_multiset() == old(self).data@.to_multiset(),
                pairs_ok_except_child(self.data@, cur as int),
                cur > 0 ==> forall|c: int|
                    is_child(cur as int, c, n as int) ==> self.data@[(cur - 1) / 2] <= self.data@[c],
            decreases cur,
        {
            let s = Ghost(self.data@);
            let p = (cur - 1) / 2;
            proof {
                assert(is_child(p as int, cur as int, n as int));
            }
            if self.data[cur] < self.data[p] {
                let a = self.data[cur];
                let b = self.data[p];
                self.data[cur] = b;
                self.data[p] = a;
                proof {
                    broadcast use vstd::seq_lib::to_multiset_update;
                    broadcast use vstd::seq_lib::to_multiset_contains;
                    broadcast use vstd::multiset::group_multiset_axioms;

                    let s0 = s@;
                    let s2 = self.data@;
                    assert(s0.contains(s0[cur as int]));
                    let u = s0.update(cur as int, b);
                    assert(u.to_multiset() == s0.to_multiset().insert(b).remove(s0[cur as int]));
                    assert(u[p as int] == b);
                    assert(s2 =~= u.update(p as int, a));
                    assert(s2.to_multiset() == u.to_multiset().insert(a).remove(b));
                    assert(s2.to_multiset() =~= s0.to_multiset());
                    assert forall|q: int, c: int|
                        is_child(q, c, n as int) && c != p implies s2[q] <= s2[c] by {
                        if q == p as int {
                            if c != cur as int {
                                assert(s2[c] == s0[c]);
                                assert(s0[p as int] <= s0[c]);
                            }
                        } else if q == cur as int {
                            assert(s2[c] == s0[c]);
                            assert(s0[(cur as int - 1) / 2] <= s0[c]);
                        } else if c == cur as int {
                            assert(q == p as int);
                            assert(false);
                        } else {
                            assert(s2[q] == s0[q] && s2[c] == s0[c]);
                        }
                    }
                    if p > 0 {
                        assert forall|c: int|
                            is_child(p as int, c, n as int) implies s2[(p as int - 1) / 2]
                            <= s2[c] by {
                            let pp = (p as int - 1) / 2;
                            assert(is_child(pp, p as int, n as int));
                            assert(s2[pp] == s0[pp]);
                            if c == cur as int {
                                assert(s0[pp] <= s0[p as int]);
                            } else {
                                assert(s0[pp] <= s0[p as int]);
                                assert(s0[p as int] <= s0[c]);
                                assert(s2[c] == s0[c]);
                            }
                        }
                    }
                }
                cur = p;
            } else {
                return;
            }
        }
    }

    /// Remove and return a minimum of the stored values, or `None` when
    /// the heap is empty.
    pub fn pop(&mut self) -> (r: Option<i64>)
        requires
            old(self).wf(),
        ensures
            final(self).wf(),
            old(self).view().len() == 0 ==> r is None && final(self).view() == old(self).view(),
            old(self).view().len() > 0 ==> ({
                &&& r matches Some(m)
                &&& old(self).view().count(m) > 0
                &&& forall|y: i64| old(self).view().count(y) > 0 ==> m <= y
                &&& final(self).view() == old(self).view().remove(m)
            }),
    {
        proof {
            broadcast use vstd::seq_lib::to_multiset_len, vstd::seq_lib::to_multiset_contains;

        }
        if self.data.is_empty() {
            None
        } else {
            let s = Ghost(self.data@);
            let ret = self.data.swap_remove(0);
            proof {
                broadcast use
                    vstd::seq_lib::to_multiset_update,
                    vstd::seq_lib::to_multiset_remove,
                    vstd::seq_lib::to_multiset_contains,
                    vstd::seq_lib::to_multiset_len;

                broadcast use vstd::multiset::group_multiset_axioms;

                let s0 = s@;
                let s2 = self.data@;
                assert(s0.contains(s0[0]));
                assert(s0.contains(s0.last()));
                if s0.len() > 1 {
                    let u = s0.update(0, s0.last());
                    assert(u.to_multiset() == s0.to_multiset().insert(s0.last()).remove(s0[0]));
                    assert(u[u.len() - 1] == s0.last());
                    assert(s2 =~= u.remove(u.len() - 1));
                    assert(s2.to_multiset() == u.to_multiset().remove(s0.last()));
                    assert(s0.to_multiset().count(s0[0]) > 0);
                    assert(s0.to_multiset().count(s0.last()) > 0);
                    assert forall|y: i64|
                        s2.to_multiset().count(y) == s0.to_multiset().remove(s0[0]).count(
                            y,
                        ) by {}
                    assert(s2.to_multiset() =~= s0.to_multiset().remove(s0[0]));
                } else {
                    assert(s2 =~= s0.update(0, s0.last()).drop_last());
                    assert(s2.len() == 0);
                    assert forall|y: i64|
                        s2.to_multiset().count(y) == s0.to_multiset().remove(s0[0]).count(
                            y,
                        ) by {
                        assert(s2.to_multiset().len() == 0);
                        if y != s0[0] {
                            if s0.contains(y) {
                                let i = choose|i: int| 0 <= i < s0.len() && s0[i] == y;
                                assert(i == 0);
                                assert(false);
                            }
                            assert(s0.to_multiset().count(y) == 0);
                        } else {
                            assert(s0.to_multiset().count(y) > 0);
                            assert(s0.to_multiset().len() == 1);
                        }
                    }
                    assert(s2.to_multiset() =~= s0.to_multiset().remove(s0[0]));
                }
                assert forall|y: i64| s0.to_multiset().count(y) > 0 implies ret <= y by {
                    assert(s0.contains(y));
                    let i = choose|i: int| 0 <= i < s0.len() && s0[i] == y;
                    lemma_root_min(s0, i);
                }
            }
            if !self.data.is_empty() {
                proof {
                    let s2 = self.data@;
                    assert forall|p: int, c: int|
                        is_child(p, c, s2.len() as int) && p >= 0 && p != 0 implies s2[p] <= s2[c] by {
                        assert(is_child(p, c, s@.len() as int));
                    }
                }
                self.heapify_downward(0);
            }
            Some(ret)
        }
    }

    /// Add `item` to the heap.
    pub fn push(&mut self, item: i64)
        requires
            old(self).wf(),
        ensures
            final(self).wf(),
            final(self).view() == old(self).view().insert(item),
    {
        let s = Ghost(self.data@);
        self.data.push(item);
        let idx = self.data.len() - 1;
        proof {
            broadcast use vstd::seq_lib::to_multiset_build;

            let s2 = self.data@;
            assert(s2 =~= s@.push(item));
            assert forall|p: int, c: int|
                is_child(p, c, s2.len() as int) && c != idx implies s2[p] <= s2[c] by {
                assert(is_child(p, c, s@.len() as int));
            }
            assert forall|c: int| !is_child(idx as int, c, s2.len() as int) by {}
        }
        self.heapify_upward(idx);
    }

    /// Push `item`, then pop a minimum of the combined contents: cheaper
    /// than a push followed by a pop.
    pub fn pushpop(&mut self, item: i64) -> (r: i64)
        requires
            old(self).wf(),
        ensures
            final(self).wf(),
            old(self).view().insert(item).count(r) > 0,
            forall|y: i64| old(self).view().insert(item).count(y) > 0 ==> r <= y,
            final(self).view() == old(self).view().insert(item).remove(r),
    {
        proof {
            broadcast use vstd::seq_lib::to_multiset_len, vstd::seq_lib::to_multiset_contains;

        }
        if !self.data.is_empty() && item > self.data[0] {
            let s = Ghost(self.data@);
            let root = self.data[0];
            self.data[0] = item;
            proof {
                broadcast use vstd::seq_lib::to_multiset_update;

                let s0 = s@;
                let s2 = self.data@;
                assert(s2.to_multiset() =~= s0.to_multiset().insert(item).remove(root));
                assert forall|p: int, c: int|
                    is_child(p, c, s2.len() as int) && p >= 0 && p != 0 implies s2[p] <= s2[c] by {
                    assert(is_child(p, c, s0.len() as int));
                }
                assert forall|y: i64| s0.to_multiset().insert(item).count(y) > 0 implies root
                    <= y by {
                    if s0.to_multiset().count(y) > 0 {
                        assert(s0.contains(y));
                        let i = choose|i: int| 0 <= i < s0.len() && s0[i] == y;
                        lemma_root_min(s0, i);
                    }
                }
            }
            self.heapify_downward(0);
            root
        } else {
            proof {
                let s0 = self.data@;
                assert forall|y: i64| s0.to_multiset().insert(item).count(y) > 0 implies item
                    <= y by {
                    if s0.to_multiset().count(y) > 0 {
                        assert(s0.contains(y));
                        let i = choose|i: int| 0 <= i < s0.len() && s0[i] == y;
                        lemma_root_min(s0, i);
                        if s0.len() > 0 {
                            assert(item <= s0[0]);
                        }
                    }
                }
                assert(self.view().insert(item).remove(item) =~= self.view());
            }
            item
        }
    }

    /// A minimum of the stored values without removing it, or `None` when
    /// the heap is empty.
    pub fn peek(&self) -> (r: Option<i64>)
        requires
            self.wf(),
        ensures
            self.view().len() == 0 ==> r is None,
            self.view().len() > 0 ==> ({
                &&& r matches Some(m)
                &&& self.view().count(m) > 0
                &&& forall|y: i64| self.view().count(y) > 0 ==> m <= y
            }),
    {
        proof {
            broadcast use vstd::seq_lib::to_multiset_len, vstd::seq_lib::to_multiset_contains;

            let s0 = self.data@;
            assert forall|y: i64| s0.to_multiset().count(y) > 0 && s0.len() > 0 implies s0[0]
                <= y by {
                assert(s0.contains(y));
                let i = choose|i: int| 0 <= i < s0.len() && s0[i] == y;
                lemma_root_min(s0, i);
            }
        }
        if self.data.is_empty() {
            None
        } else {
            Some(self.data[0])
        }
    }

    /// Give up the heap and hand back the backing vector, still in heap
    /// shape.
    pub fn into_inner(self) -> (r: Vec<i64>)
        ensures
            r@.to_multiset() == self.view(),
            self.wf() ==> is_heap(r@),
    {
        self.data
    }

    /// Build a heap from arbitrary contents, reordering in place.
    pub fn from_vec(data: Vec<i64>) -> (r: Heap)
        ensures
            r.wf(),
            r.view() == data@.to_multiset(),
    {
        let mut res = Heap { data };
        let n = res.data.len();
        let mut i: usize = n / 2;
        proof {
            assert forall|p: int, c: int|
                is_child(p, c, res.data@.len() as int) && p >= i implies res.data@[p] <= res.data@[c] by {
                assert(c >= 2 * p + 1 >= n);
            }
        }
        while i > 0
            invariant
                i <= n,
                n == res.data@.len(),
                res.data@.to_multiset() == data@.to_multiset(),
                pairs_ok_except(res.data@, i as int, -1),
            decreases i,
        {
            i = i - 1;
            proof {
                assert forall|p: int, c: int|
                    is_child(p, c, res.data@.len() as int) && p >= i && p != i implies res.data@[p]
                    <= res.data@[c] by {}
            }
            res.heapify_downward(i);
        }
        res
    }
}

} // verus!
