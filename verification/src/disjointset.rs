//! A disjoint-set (union-find) structure over the indices `0..n`, with
//! path compression and union by rank.
//!
//! Each index points at a parent; an index that points at itself is the
//! representative of its component.  The abstract semantics is the
//! representative function `repr`: two indices are in one component
//! exactly when their representatives coincide.
//!
//! The `rank` array is the usual linking heuristic.  The proofs do not
//! lean on it: a ghost map of strictly increasing levels along parent
//! links witnesses that the parent graph is a forest.

use vstd::prelude::*;

verus! {

use vstd::set_lib::lemma_int_range;
use vstd::set_lib::lemma_len_subset;
use vstd::set_lib::set_int_range;

/// The parent array keeps its entries in range, and the ghost levels
/// strictly increase along every parent link.
spec fn ds_inv(p: Seq<usize>, lv: Map<int, nat>) -> bool {
    forall|i: int|
        0 <= i < p.len() ==> (#[trigger] p[i]) < p.len() && (p[i] != i ==> lv[i] < lv[p[i] as int])
}

/// Walk at most `fuel` parent links from `i`.
spec fn root_iter(p: Seq<usize>, i: int, fuel: nat) -> int
    decreases fuel,
{
    if fuel == 0 || !(0 <= i < p.len()) || p[i] == i {
        i
    } else {
        root_iter(p, p[i] as int, (fuel - 1) as nat)
    }
}

/// The representative of `i`: the end of its parent chain (the chain is
/// shorter than `n` because levels strictly increase along it).
spec fn root(p: Seq<usize>, i: int) -> int {
    root_iter(p, i, p.len())
}

/// Indices whose level is above that of `i`.
spec fn above(lv: Map<int, nat>, n: int, i: int) -> Set<int> {
    Set::new(|j: int| 0 <= j < n && lv[j] > lv[i])
}

/// `above` is finite and smaller than `n`, and shrinks along a parent
/// link.
proof fn lemma_above(p: Seq<usize>, lv: Map<int, nat>, i: int)
    requires
        ds_inv(p, lv),
        0 <= i < p.len(),
    ensures
        above(lv, p.len() as int, i).finite(),
        above(lv, p.len() as int, i).len() < p.len(),
        p[i] != i ==> above(lv, p.len() as int, p[i] as int).len() < above(
            lv,
            p.len() as int,
            i,
        ).len(),
{
    let n = p.len() as int;
    lemma_int_range(0, n);
    let a_i = above(lv, n, i);
    assert(a_i.subset_of(set_int_range(0, n).remove(i)));
    lemma_len_subset(a_i, set_int_range(0, n).remove(i));
    if p[i] != i {
        let pi = p[i] as int;
        let a_p = above(lv, n, pi);
        assert(a_p.subset_of(a_i.remove(pi)));
        assert(a_i.contains(pi));
        lemma_len_subset(a_p, a_i.remove(pi));
    }
}

/// With enough fuel the walk reaches a self-parented index whose level is
/// at least `i`'s (strictly above when `i` is not its own root).
proof fn lemma_iter_root(p: Seq<usize>, lv: Map<int, nat>, i: int, fuel: nat)
    requires
        ds_inv(p, lv),
        0 <= i < p.len(),
        fuel > above(lv, p.len() as int, i).len(),
    ensures
        ({
            let r = root_iter(p, i, fuel);
            &&& 0 <= r < p.len()
            &&& p[r] == r
            &&& lv[r] >= lv[i]
            &&& (r != i ==> lv[r] > lv[i])
            &&& (p[i] == i ==> r == i)
        }),
    decreases fuel,
{
    if p[i] != i {
        lemma_above(p, lv, i);
        lemma_iter_root(p, lv, p[i] as int, (fuel - 1) as nat);
    }
}

/// The walk's endpoint does not depend on the fuel, once there is enough.
proof fn lemma_iter_fuel(p: Seq<usize>, lv: Map<int, nat>, i: int, f1: nat, f2: nat)
    requires
        ds_inv(p, lv),
        0 <= i < p.len(),
        f1 > above(lv, p.len() as int, i).len(),
        f2 > above(lv, p.len() as int, i).len(),
    ensures
        root_iter(p, i, f1) == root_iter(p, i, f2),
    decreases f1,
{
    if p[i] != i {
        lemma_above(p, lv, i);
        lemma_iter_fuel(p, lv, p[i] as int, (f1 - 1) as nat, (f2 - 1) as nat);
    }
}

/// The root of `i` is a root, sits at or above `i`'s level, and is the
/// root of `i`'s parent too.
proof fn lemma_root_props(p: Seq<usize>, lv: Map<int, nat>, i: int)
    requires
        ds_inv(p, lv),
        0 <= i < p.len(),
    ensures
        ({
            let r = root(p, i);
            &&& 0 <= r < p.len()
            &&& p[r] == r
            &&& (r != i ==> lv[r] > lv[i])
            &&& (p[i] == i ==> r == i)
            &&& (p[i] != i ==> r != i && r == root(p, p[i] as int))
        }),
{
    let n = p.len();
    lemma_above(p, lv, i);
    lemma_iter_root(p, lv, i, n);
    if p[i] != i {
        lemma_above(p, lv, i);
        lemma_iter_fuel(p, lv, p[i] as int, (n - 1) as nat, n);
    }
}

/// Redirecting one index straight to its own root changes no
/// representative.
proof fn lemma_redirect(p: Seq<usize>, p2: Seq<usize>, lv: Map<int, nat>, a: int, j: int)
    requires
        ds_inv(p, lv),
        0 <= a < p.len(),
        p[a] != a,
        p2 == p.update(a, root(p, a) as usize),
        ds_inv(p2, lv),
        0 <= j < p.len(),
    ensures
        root(p2, j) == root(p, j),
    decreases above(lv, p.len() as int, j).len(),
{
    let n = p.len() as int;
    let r = root(p, a);
    lemma_root_props(p, lv, a);
    if j == a {
        lemma_root_props(p2, lv, a);
        lemma_root_props(p2, lv, r);
        lemma_above(p2, lv, a);
        lemma_iter_fuel(p2, lv, r, (n - 1) as nat, n as nat);
    } else if p[j] == j {
    } else {
        lemma_above(p, lv, j);
        lemma_redirect(p, p2, lv, a, p[j] as int);
        lemma_root_props(p, lv, j);
        lemma_root_props(p2, lv, j);
        lemma_above(p2, lv, j);
        lemma_iter_fuel(p2, lv, p[j] as int, (n - 1) as nat, n as nat);
    }
}

/// Linking the root `si` under the distinct root `sj` (with `sj`'s level
/// lifted above `si`'s) maps every representative that was `si` to `sj`
/// and keeps all others.
proof fn lemma_link(
    p: Seq<usize>,
    p2: Seq<usize>,
    lv: Map<int, nat>,
    lv2: Map<int, nat>,
    si: int,
    sj: int,
    j: int,
)
    requires
        ds_inv(p, lv),
        0 <= si < p.len(),
        0 <= sj < p.len(),
        si != sj,
        p[si] == si,
        p[sj] == sj,
        p2 == p.update(si, sj as usize),
        lv2 == lv.insert(sj, (vstd::math::max(lv[sj] as int, lv[si] as int + 1)) as nat),
        0 <= j < p.len(),
    ensures
        ds_inv(p2, lv2),
        root(p2, j) == (if root(p, j) == si {
            sj
        } else {
            root(p, j)
        }),
    decreases above(lv2, p.len() as int, j).len(),
{
    let n = p.len() as int;
    assert forall|i: int|
        0 <= i < p2.len() implies (#[trigger] p2[i]) < p2.len() && (p2[i] != i ==> lv2[i]
        < lv2[p2[i] as int]) by {
        if i == si {
            assert(lv2[si] == lv[si]);
            assert(lv2[sj] >= lv[si] + 1);
        } else if p2[i] != i {
            assert(lv2[i] == lv[i] || i == sj);
            assert(lv2[p2[i] as int] >= lv[p2[i] as int]);
        }
    }
    if j == si {
        lemma_root_props(p2, lv2, si);
        lemma_root_props(p2, lv2, sj);
        lemma_above(p2, lv2, si);
        lemma_iter_fuel(p2, lv2, sj, (n - 1) as nat, n as nat);
        lemma_root_props(p, lv, si);
    } else if p[j] == j {
        lemma_root_props(p, lv, j);
        lemma_root_props(p2, lv2, j);
    } else {
        lemma_above(p2, lv2, j);
        lemma_link(p, p2, lv, lv2, si, sj, p[j] as int);
        lemma_root_props(p, lv, j);
        lemma_root_props(p2, lv2, j);
        lemma_above(p, lv, j);
        lemma_iter_fuel(p, lv, p[j] as int, (n - 1) as nat, n as nat);
        lemma_iter_fuel(p2, lv2, p[j] as int, (n - 1) as nat, n as nat);
    }
}

/// A disjoint-set forest over the indices `0..n`.
pub struct DisjointSet {
    parent: Vec<usize>,
    rank: Vec<usize>,
    level: Ghost<Map<int, nat>>,
}

impl DisjointSet {
    /// Number of indices.
    pub closed spec fn spec_len(self) -> nat {
        self.parent@.len()
    }

    /// The representative of index `i`.
    pub closed spec fn repr(self, i: int) -> int {
        root(self.parent@, i)
    }

    /// The current parent array (compressed as a side effect of finds).
    pub closed spec fn spec_parents(self) -> Seq<usize> {
        self.parent@
    }

    /// Decreasing measure of the walk from `i` to its root.
    pub closed spec fn find_measure(self, i: int) -> nat {
        above(self.level@, self.spec_len() as int, i).len()
    }

    /// Well-formedness: parents in range and an acyclic parent forest.
    pub closed spec fn wf(self) -> bool {
        &&& self.rank@.len() == self.parent@.len()
        &&& ds_inv(self.parent@, self.level@)
    }

    /// `n` singleton components: every index is its own representative.
    pub fn new(n: usize) -> (r: DisjointSet)
        ensures
            r.wf(),
            r.spec_len() == n,
            forall|i: int| 0 <= i < n ==> r.repr(i) == i,
            forall|i: int| 0 <= i < n ==> r.spec_parents()[i] == i,
    {
        let mut parent = Vec::<usize>::new();
        let mut rank = Vec::<usize>::new();
        let mut i: usize = 0;
        while i < n
            invariant
                i <= n,
                parent@.len() == i,
                rank@.len() == i,
                forall|j: int| 0 <= j < i ==> parent@[j] == j,
            decreases n - i,
        {
            parent.push(i);
            rank.push(0);
            i += 1;
        }
        let r = DisjointSet { parent, rank, level: Ghost(Map::new(|j: int| 0 <= j < n, |j: int| 0nat)) };
        proof {
            assert forall|j: int| 0 <= j < n implies r.repr(j) == j by {
                assert(r.parent@[j] == j);
            }
        }
        r
    }

    /// The parent array, exposed for inspection.
    pub fn parents(&self) -> (r: &Vec<usize>)
        ensures
            r@ == self.spec_parents(),
    {
        &self.parent
    }

    /// The representative of `i`, compressing the visited path to point
    /// straight at it.  No component changes.
    pub fn find_set(&mut self, i: usize) -> (r: usize)
        requires
            old(self).wf(),
            i < old(self).spec_len(),
        ensures
            final(self).wf(),
            final(self).spec_len() == old(self).spec_len(),
            r < final(self).spec_len(),
            r as int == old(self).repr(i as int),
            final(self).repr(r as int) == r,
            forall|j: int|
                0 <= j < old(self).spec_len() ==> final(self).repr(j) == old(self).repr(j),
            forall|x: int|
                0 <= x < old(self).spec_len() ==> (#[trigger] final(self).spec_parents()[x])
                    == old(self).spec_parents()[x] || final(self).spec_parents()[x] as int == old(
                    self,
                ).repr(x),
            final(self).spec_parents()[i as int] as int == old(self).repr(i as int),
        decreases old(self).find_measure(i as int),
    {
        let p = self.parent[i];
        proof {
            lemma_root_props(self.parent@, self.level@, i as int);
        }
        if p == i {
            proof {
                lemma_root_props(self.parent@, self.level@, i as int);
            }
            i
        } else {
            proof {
                lemma_above(self.parent@, self.level@, i as int);
            }
            let ghost pre = *self;
            let r = self.find_set(p);
            proof {
                assert(r as int == pre.repr(p as int));
                assert(pre.repr(p as int) == pre.repr(i as int));
                assert(self.repr(i as int) == pre.repr(i as int));
                assert(self.parent@[i as int] != i as int);
                lemma_root_props(self.parent@, self.level@, i as int);
                lemma_root_props(self.parent@, self.level@, r as int);
            }
            let ghost mid = *self;
            self.parent[i] = r;
            proof {
                let pm = mid.parent@;
                let p2 = self.parent@;
                let lv = self.level@;
                assert(p2 == pm.update(i as int, r));
                assert(r as int == root(pm, i as int));
                assert(pm[i as int] != i as int);
                lemma_root_props(pm, lv, i as int);
                assert(lv[i as int] < lv[r as int]);
                assert forall|a: int|
                    0 <= a < p2.len() implies (#[trigger] p2[a]) < p2.len() && (p2[a] != a
                    ==> lv[a] < lv[p2[a] as int]) by {
                    if a != i as int {
                        assert(p2[a] == pm[a]);
                    }
                }
                assert forall|j: int| 0 <= j < mid.spec_len() implies self.repr(j) == mid.repr(
                    j,
                ) by {
                    lemma_redirect(pm, p2, lv, i as int, j);
                }
                assert forall|x: int|
                    0 <= x < old(self).spec_len() implies (#[trigger] self.spec_parents()[x])
                    == old(self).spec_parents()[x] || self.spec_parents()[x] as int == old(
                    self,
                ).repr(x) by {
                    if x != i as int {
                        assert(self.spec_parents()[x] == mid.spec_parents()[x]);
                    }
                }
            }
            r
        }
    }

    /// Merge the components of `i` and `j`: afterwards one of the two old
    /// representatives represents everything that was in either
    /// component, and every other index keeps its representative.
    pub fn union(&mut self, i: usize, j: usize)
        requires
            old(self).wf(),
            i < old(self).spec_len(),
            j < old(self).spec_len(),
        ensures
            final(self).wf(),
            final(self).spec_len() == old(self).spec_len(),
            final(self).repr(i as int) == old(self).repr(i as int) || final(self).repr(i as int)
                == old(self).repr(j as int),
            forall|a: int|
                0 <= a < old(self).spec_len() ==> (#[trigger] final(self).repr(a)) == (if old(
                    self,
                ).repr(a) == old(self).repr(i as int) || old(self).repr(a) == old(self).repr(
                    j as int,
                ) {
                    final(self).repr(i as int)
                } else {
                    old(self).repr(a)
                }),
    {
        let ghost orig = *self;
        let si = self.find_set(i);
        let sj = self.find_set(j);
        let ghost pre = *self;
        proof {
            lemma_root_props(self.parent@, self.level@, si as int);
            lemma_root_props(self.parent@, self.level@, sj as int);
        }
        if si == sj {
            proof {
                assert(self.repr(i as int) == orig.repr(i as int));
                assert forall|a: int| 0 <= a < orig.spec_len() implies (#[trigger] self.repr(a))
                    == (if orig.repr(a) == orig.repr(i as int) || orig.repr(a) == orig.repr(
                    j as int,
                ) {
                    self.repr(i as int)
                } else {
                    orig.repr(a)
                }) by {
                    assert(self.repr(a) == orig.repr(a));
                }
            }
            return;
        }
        proof {
            assert(pre.parent@[si as int] == si as int);
            assert(pre.parent@[sj as int] == sj as int);
        }
        if self.rank[si] > self.rank[sj] {
            let ghost lv = self.level@;
            let ghost lv2 = lv.insert(
                si as int,
                (vstd::math::max(lv[si as int] as int, lv[sj as int] as int + 1)) as nat,
            );
            self.parent[sj] = si;
            self.level = Ghost(lv2);
            proof {
                assert(self.parent@ == pre.parent@.update(sj as int, si));
                assert forall|a: int| 0 <= a < pre.spec_len() implies ds_link_shape(
                    pre,
                    *self,
                    sj as int,
                    si as int,
                    a,
                ) by {
                    lemma_link(pre.parent@, self.parent@, lv, lv2, sj as int, si as int, a);
                }
                assert(ds_inv(self.parent@, lv2)) by {
                    lemma_link(pre.parent@, self.parent@, lv, lv2, sj as int, si as int, 0);
                }
                assert(pre.repr(i as int) == si as int);
                assert(pre.repr(j as int) == sj as int);
                assert(ds_link_shape(pre, *self, sj as int, si as int, i as int));
                assert(self.repr(i as int) == si as int);
                assert forall|a: int| 0 <= a < orig.spec_len() implies (#[trigger] self.repr(a))
                    == (if orig.repr(a) == orig.repr(i as int) || orig.repr(a) == orig.repr(
                    j as int,
                ) {
                    self.repr(i as int)
                } else {
                    orig.repr(a)
                }) by {
                    assert(ds_link_shape(pre, *self, sj as int, si as int, a));
                    assert(pre.repr(a) == orig.repr(a));
                }
            }
        } else {
            let ghost lv = self.level@;
            let ghost lv2 = lv.insert(
                sj as int,
                (vstd::math::max(lv[sj as int] as int, lv[si as int] as int + 1)) as nat,
            );
            self.parent[si] = sj;
            self.level = Ghost(lv2);
            if self.rank[si] == self.rank[sj] && self.rank[sj] < usize::MAX {
                let new_rank = self.rank[sj] + 1;
                self.rank[sj] = new_rank;
            }
            proof {
                assert(self.parent@ == pre.parent@.update(si as int, sj));
                assert forall|a: int| 0 <= a < pre.spec_len() implies ds_link_shape(
                    pre,
                    *self,
                    si as int,
                    sj as int,
                    a,
                ) by {
                    lemma_link(pre.parent@, self.parent@, lv, lv2, si as int, sj as int, a);
                }
                assert(ds_inv(self.parent@, lv2)) by {
                    lemma_link(pre.parent@, self.parent@, lv, lv2, si as int, sj as int, 0);
                }
                assert(pre.repr(i as int) == si as int);
                assert(pre.repr(j as int) == sj as int);
                assert(ds_link_shape(pre, *self, si as int, sj as int, i as int));
                assert(self.repr(i as int) == sj as int);
                assert forall|a: int| 0 <= a < orig.spec_len() implies (#[trigger] self.repr(a))
                    == (if orig.repr(a) == orig.repr(i as int) || orig.repr(a) == orig.repr(
                    j as int,
                ) {
                    self.repr(i as int)
                } else {
                    orig.repr(a)
                }) by {
                    assert(ds_link_shape(pre, *self, si as int, sj as int, a));
                    assert(pre.repr(a) == orig.repr(a));
                }
            }
        }
    }

    /// Whether `i` and `j` are in the same component (compressing both
    /// paths on the way).  No component changes.
    pub fn is_same_component(&mut self, i: usize, j: usize) -> (r: bool)
        requires
            old(self).wf(),
            i < old(self).spec_len(),
            j < old(self).spec_len(),
        ensures
            final(self).wf(),
            final(self).spec_len() == old(self).spec_len(),
            r == (old(self).repr(i as int) == old(self).repr(j as int)),
            forall|j2: int|
                0 <= j2 < old(self).spec_len() ==> final(self).repr(j2) == old(self).repr(j2),
    {
        let a = self.find_set(i);
        let b = self.find_set(j);
        a == b
    }
}

/// After linking root `a` under root `t`, index `x`'s representative is
/// `t` where it used to be `a`, and is otherwise unchanged.
spec fn ds_link_shape(pre: DisjointSet, post: DisjointSet, a: int, t: int, x: int) -> bool {
    post.repr(x) == (if pre.repr(x) == a {
        t
    } else {
        pre.repr(x)
    })
}

} // verus!
