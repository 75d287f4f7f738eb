//! A segment tree for range sums with point updates over `i64` values.
//!
//! Interior nodes cache the sum of a contiguous span of the leaf array;
//! spans of one or two leaves are kept in a single node, wider spans split
//! at the midpoint.  `query` answers the sum of any index range in
//! O(log n), `update`/`update_by_diff` adjust one leaf and the cached sums
//! on the path above it.

use vstd::prelude::*;

verus! {

/// Sum of `s[a..b]` as an unbounded integer (0 when the range is empty).
pub open spec fn range_sum(s: Seq<i64>, a: int, b: int) -> int
    decreases b - a,
{
    if a >= b || a < 0 || b > s.len() {
        0
    } else {
        s[a] + range_sum(s, a + 1, b)
    }
}

/// Every contiguous range sum of `s` fits in an `i64`.
pub open spec fn sums_fit(s: Seq<i64>) -> bool {
    forall|a: int, b: int|
        0 <= a <= b <= s.len() ==> i64::MIN <= #[trigger] range_sum(s, a, b) <= i64::MAX
}

/// One node of the segment tree, covering leaf positions `lo..=hi`.
struct SegNode {
    lo: usize,
    hi: usize,
    total: i64,
    left: Option<Box<SegNode>>,
    right: Option<Box<SegNode>>,
}

/// The node covers exactly `lo..=hi` of `s`, caches its sum, and splits
/// at the midpoint when it spans more than two leaves.
spec fn node_ok(n: SegNode, s: Seq<i64>) -> bool
    decreases n,
{
    &&& n.lo <= n.hi < s.len()
    &&& n.total as int == range_sum(s, n.lo as int, n.hi + 1)
    &&& if n.hi - n.lo >= 2 {
        let mid = (n.lo + n.hi) / 2;
        &&& n.left matches Some(l) && node_ok(*l, s) && l.lo == n.lo && l.hi == mid
        &&& n.right matches Some(r) && node_ok(*r, s) && r.lo == mid + 1 && r.hi == n.hi
    } else {
        n.left is None && n.right is None
    }
}

/// Splitting a sum at any interior point.
proof fn lemma_split(s: Seq<i64>, a: int, m: int, b: int)
    requires
        0 <= a <= m <= b <= s.len(),
    ensures
        range_sum(s, a, b) == range_sum(s, a, m) + range_sum(s, m, b),
    decreases m - a,
{
    if a < m {
        lemma_split(s, a + 1, m, b);
    }
}

/// A range sum reads only the covered positions.
proof fn lemma_sum_congruence(s: Seq<i64>, s2: Seq<i64>, a: int, b: int)
    requires
        s2.len() == s.len(),
        forall|j: int| a <= j < b ==> s2[j] == s[j],
    ensures
        range_sum(s2, a, b) == range_sum(s, a, b),
    decreases b - a,
{
    if a < b && a >= 0 && b <= s.len() {
        lemma_sum_congruence(s, s2, a + 1, b);
    }
}

/// Adding `d` to one covered position adds `d` to the sum.
proof fn lemma_sum_update(s: Seq<i64>, i: int, v: i64, a: int, b: int)
    requires
        0 <= a <= i < b <= s.len(),
    ensures
        range_sum(s.update(i, v), a, b) == range_sum(s, a, b) + v - s[i],
    decreases b - a,
{
    let s2 = s.update(i, v);
    if a == i {
        lemma_sum_congruence(s, s2, a + 1, b);
    } else {
        lemma_sum_update(s, i, v, a + 1, b);
    }
}

/// A node over unchanged positions stays valid.
proof fn lemma_node_same(n: SegNode, s: Seq<i64>, s2: Seq<i64>)
    requires
        node_ok(n, s),
        s2.len() == s.len(),
        forall|j: int| n.lo <= j <= n.hi ==> s2[j] == s[j],
    ensures
        node_ok(n, s2),
    decreases n,
{
    lemma_sum_congruence(s, s2, n.lo as int, n.hi + 1);
    if n.hi - n.lo >= 2 {
        lemma_node_same(*n.left->0, s, s2);
        lemma_node_same(*n.right->0, s, s2);
    }
}

/// Build the node covering `lo..=hi` of `leafs`.
fn build_node(leafs: &Vec<i64>, lo: usize, hi: usize) -> (r: Box<SegNode>)
    requires
        lo <= hi < leafs@.len(),
        sums_fit(leafs@),
    ensures
        node_ok(*r, leafs@),
        r.lo == lo && r.hi == hi,
    decreases hi - lo,
{
    if hi - lo >= 2 {
        let mid = lo + (hi - lo) / 2;
        proof {
            assert(mid == (lo + hi) / 2);
        }
        let l = build_node(leafs, lo, mid);
        let r = build_node(leafs, mid + 1, hi);
        proof {
            lemma_split(leafs@, lo as int, mid + 1, hi + 1);
        }
        let total = l.total + r.total;
        Box::new(SegNode { lo, hi, total, left: Some(l), right: Some(r) })
    } else if hi > lo {
        proof {
            assert(range_sum(leafs@, lo as int, hi + 1) == leafs@[lo as int] + range_sum(
                leafs@,
                lo + 1,
                hi + 1,
            ));
            assert(range_sum(leafs@, hi as int, hi + 1) == leafs@[hi as int] + range_sum(
                leafs@,
                hi + 1,
                hi + 1,
            ));
            assert(i64::MIN <= range_sum(leafs@, lo as int, hi + 1) <= i64::MAX);
        }
        let total = leafs[lo] + leafs[hi];
        Box::new(SegNode { lo, hi, total, left: None, right: None })
    } else {
        proof {
            assert(range_sum(leafs@, lo as int, lo + 1) == leafs@[lo as int] + range_sum(
                leafs@,
                lo + 1,
                lo + 1,
            ));
        }
        let total = leafs[lo];
        Box::new(SegNode { lo, hi, total, left: None, right: None })
    }
}

/// Sum of the intersection of the query range `min..=max` with the node's
/// span.
fn seg_query(n: &SegNode, leafs: &Vec<i64>, min: usize, max: usize) -> (r: i64)
    requires
        node_ok(*n, leafs@),
        sums_fit(leafs@),
    ensures
        r as int == range_sum(
            leafs@,
            vstd::math::max(n.lo as int, min as int),
            vstd::math::min(n.hi + 1, max as int + 1),
        ),
    decreases *n,
{
    let a = Ghost(vstd::math::max(n.lo as int, min as int));
    let b = Ghost(vstd::math::min(n.hi + 1, max as int + 1));
    if min > n.hi || max < n.lo {
        proof {
            assert(a@ >= b@);
        }
        0
    } else if min <= n.lo && max >= n.hi {
        n.total
    } else if n.hi - n.lo >= 2 {
        let l = n.left.as_ref().unwrap();
        let r = n.right.as_ref().unwrap();
        let ghost m = (n.lo + n.hi) / 2 + 1;
        let ql = seg_query(l, leafs, min, max);
        let qr = seg_query(r, leafs, min, max);
        proof {
            if a@ >= b@ {
                assert(ql as int == 0);
                assert(qr as int == 0);
                assert(range_sum(leafs@, a@, b@) == 0);
            } else {
                if (min as int) >= m {
                    assert(ql as int == 0);
                } else if (max as int) + 1 <= m {
                    assert(qr as int == 0);
                } else {
                    lemma_split(leafs@, a@, m, b@);
                }
                assert(0 <= a@ <= b@ <= leafs@.len());
                assert(i64::MIN <= range_sum(leafs@, a@, b@) <= i64::MAX);
            }
            assert(ql + qr == range_sum(leafs@, a@, b@));
        }
        ql + qr
    } else {
        // A span of two leaves, partially covered: read whichever leaf
        // the query range reaches.
        proof {
            assert(n.hi == n.lo + 1);
            assert(range_sum(leafs@, n.lo as int, n.lo + 1) == leafs@[n.lo as int] + range_sum(
                leafs@,
                n.lo + 1,
                n.lo + 1,
            ));
            assert(range_sum(leafs@, n.hi as int, n.hi + 1) == leafs@[n.hi as int] + range_sum(
                leafs@,
                n.hi + 1,
                n.hi + 1,
            ));
        }
        let mut r: i64 = 0;
        if min <= n.lo && n.lo <= max {
            r = leafs[n.lo];
            proof {
                assert(a@ == n.lo as int && b@ == n.lo + 1);
            }
        } else if min <= n.hi && n.hi <= max {
            r = leafs[n.hi];
            proof {
                assert(a@ == n.hi as int && b@ == n.hi + 1);
            }
        } else {
            proof {
                assert(a@ >= b@);
            }
        }
        r
    }
}

/// Add `diff` to the cached sums on the path covering `idx`.
fn seg_add(node: Box<SegNode>, idx: usize, diff: i64, Ghost(s): Ghost<Seq<i64>>, Ghost(s2): Ghost<
    Seq<i64>,
>) -> (r: Box<SegNode>)
    requires
        node_ok(*node, s),
        node.lo <= idx <= node.hi,
        s2 == s.update(idx as int, (s[idx as int] + diff) as i64),
        i64::MIN <= s[idx as int] + diff <= i64::MAX,
        sums_fit(s2),
    ensures
        node_ok(*r, s2),
        r.lo == node.lo && r.hi == node.hi,
    decreases *node,
{
    let mut n = *node;
    proof {
        lemma_sum_update(s, idx as int, (s[idx as int] + diff) as i64, n.lo as int, n.hi + 1);
        assert(range_sum(s2, n.lo as int, n.hi + 1) == range_sum(s, n.lo as int, n.hi + 1) + diff);
        assert(0 <= n.lo as int <= n.hi + 1 <= s2.len());
        assert(i64::MIN <= range_sum(s2, n.lo as int, n.hi + 1) <= i64::MAX);
    }
    n.total = n.total + diff;
    if n.hi - n.lo >= 2 {
        let mid = n.lo + (n.hi - n.lo) / 2;
        proof {
            assert(mid == (n.lo + n.hi) / 2);
        }
        if idx <= mid {
            let l = n.left.take().unwrap();
            proof {
                lemma_node_same(*n.right->0, s, s2);
            }
            let l2 = seg_add(l, idx, diff, Ghost(s), Ghost(s2));
            n.left = Some(l2);
        } else {
            let r = n.right.take().unwrap();
            proof {
                lemma_node_same(*n.left->0, s, s2);
            }
            let r2 = seg_add(r, idx, diff, Ghost(s), Ghost(s2));
            n.right = Some(r2);
        }
    }
    Box::new(n)
}

/// A range-sum segment tree over `i64` values.
pub struct SegmentTree {
    root: Box<SegNode>,
    leafs: Vec<i64>,
    n: usize,
}

impl SegmentTree {
    /// The abstract contents: the leaf values in order.
    pub closed spec fn view(self) -> Seq<i64> {
        self.leafs@
    }

    /// Well-formedness: the cached sums describe the leaf array, whose
    /// range sums all fit in an `i64`.
    pub closed spec fn wf(self) -> bool {
        &&& self.n == self.leafs@.len()
        &&& self.n >= 1
        &&& node_ok(*self.root, self.leafs@)
        &&& self.root.lo == 0 && self.root.hi == self.n - 1
        &&& sums_fit(self.leafs@)
    }

    /// A tree of `n` zeros.
    pub fn empty(n: usize) -> (r: SegmentTree)
        requires
            n >= 1,
        ensures
            r.wf(),
            r.view() == Seq::new(n as nat, |i: int| 0i64),
    {
        let mut leafs = Vec::<i64>::new();
        let mut i: usize = 0;
        while i < n
            invariant
                i <= n,
                leafs@ =~= Seq::new(i as nat, |j: int| 0i64),
            decreases n - i,
        {
            leafs.push(0);
            proof {
                assert(leafs@ =~= Seq::new((i + 1) as nat, |j: int| 0i64));
            }
            i += 1;
        }
        proof {
            assert forall|a: int, b: int| 0 <= a <= b <= leafs@.len() implies i64::MIN
                <= #[trigger] range_sum(leafs@, a, b) <= i64::MAX by {
                lemma_zero_sum(leafs@, a, b);
            }
        }
        Self::new(leafs)
    }

    /// A tree over the given leaves.  Every contiguous range sum must fit
    /// in an `i64`.
    pub fn new(leafs: Vec<i64>) -> (r: SegmentTree)
        requires
            leafs@.len() >= 1,
            sums_fit(leafs@),
        ensures
            r.wf(),
            r.view() == leafs@,
    {
        let n = leafs.len();
        let root = build_node(&leafs, 0, n - 1);
        SegmentTree { root, leafs, n }
    }

    /// The sum of the values at positions `min..=max` (clamped to the
    /// stored range; 0 when the intersection is empty).
    pub fn query(&self, min: usize, max: usize) -> (r: i64)
        requires
            self.wf(),
        ensures
            r as int == range_sum(
                self.view(),
                vstd::math::max(0, min as int),
                vstd::math::min(self.view().len() as int, max as int + 1),
            ),
    {
        seg_query(&self.root, &self.leafs, min, max)
    }

    /// Set the value at `idx` to `val`.  The difference from the old value
    /// and every range sum of the updated array must fit in an `i64`.
    pub fn update(&mut self, idx: usize, val: i64)
        requires
            old(self).wf(),
            idx < old(self).view().len(),
            i64::MIN <= val - old(self).view()[idx as int] <= i64::MAX,
            sums_fit(old(self).view().update(idx as int, val)),
        ensures
            final(self).wf(),
            final(self).view() == old(self).view().update(idx as int, val),
    {
        let diff = val - self.leafs[idx];
        self.update_by_diff(idx, diff);
    }

    /// Add `diff` to the value at `idx`.  The new value and every range
    /// sum of the updated array must fit in an `i64`.
    pub fn update_by_diff(&mut self, idx: usize, diff: i64)
        requires
            old(self).wf(),
            idx < old(self).view().len(),
            i64::MIN <= old(self).view()[idx as int] + diff <= i64::MAX,
            sums_fit(
                old(self).view().update(
                    idx as int,
                    (old(self).view()[idx as int] + diff) as i64,
                ),
            ),
        ensures
            final(self).wf(),
            final(self).view() == old(self).view().update(
                idx as int,
                (old(self).view()[idx as int] + diff) as i64,
            ),
    {
        let ghost s = self.leafs@;
        let newval = self.leafs[idx] + diff;
        let ghost s2 = s.update(idx as int, (s[idx as int] + diff) as i64);
        self.leafs[idx] = newval;
        proof {
            assert(self.leafs@ =~= s2);
        }
        let mut tmp = Box::new(SegNode { lo: 0, hi: 0, total: 0, left: None, right: None });
        core::mem::swap(&mut self.root, &mut tmp);
        let root2 = seg_add(tmp, idx, diff, Ghost(s), Ghost(s2));
        self.root = root2;
    }
}

/// The all-zero array sums to zero on every range.
proof fn lemma_zero_sum(s: Seq<i64>, a: int, b: int)
    requires
        forall|j: int| 0 <= j < s.len() ==> s[j] == 0i64,
        0 <= a <= b <= s.len(),
    ensures
        range_sum(s, a, b) == 0,
    decreases b - a,
{
    if a < b {
        lemma_zero_sum(s, a + 1, b);
    }
}

} // verus!
