//! An AVL tree: a self-balancing binary search tree over `i64` keys.
//!
//! Each node stores `diff`, the balance factor `height(left) - height(right)`,
//! instead of a height, and the tree keeps `diff` in `{-1, 0, 1}` at every
//! node after every public operation.  Mutations run as recursive descents;
//! on the way back up a small signed signal says how the subtree height
//! changed, and `backtrace` repairs balance factors, rotating wherever a
//! factor would fall outside `{-1, 0, 1}`.

use vstd::prelude::*;

verus! {

use vstd::math::max;

/// A node of the AVL tree, owning its children exclusively.
pub struct AvlNode {
    data: i64,
    left: Option<Box<AvlNode>>,
    right: Option<Box<AvlNode>>,
    /// Balance factor: height(left) - height(right).
    diff: i8,
}

/// An AVL-balanced ordered set of `i64` keys.
pub struct Avl {
    root: Option<Box<AvlNode>>,
}

/// The set of keys stored in an optional subtree.
pub closed spec fn keys(opt: Option<Box<AvlNode>>) -> Set<i64>
    decreases opt,
{
    match opt {
        None => Set::empty(),
        Some(n) => n.keyset(),
    }
}

/// The height of an optional subtree: 0 for absence.
pub closed spec fn ht(opt: Option<Box<AvlNode>>) -> nat
    decreases opt,
{
    match opt {
        None => 0,
        Some(n) => n.height(),
    }
}

/// Number of nodes of an optional subtree.
pub closed spec fn count(opt: Option<Box<AvlNode>>) -> nat
    decreases opt,
{
    match opt {
        None => 0,
        Some(n) => n.node_count(),
    }
}

/// Binary-search-tree ordering of an optional subtree.
pub closed spec fn bst_ok(opt: Option<Box<AvlNode>>) -> bool
    decreases opt,
{
    match opt {
        None => true,
        Some(n) => n.bst_here(),
    }
}

/// AVL balance of an optional subtree.
pub closed spec fn avl_ok(opt: Option<Box<AvlNode>>) -> bool
    decreases opt,
{
    match opt {
        None => true,
        Some(n) => n.avl_here(),
    }
}

/// In-order sequence of the keys of an optional subtree.
pub closed spec fn inorder(opt: Option<Box<AvlNode>>) -> Seq<i64>
    decreases opt,
{
    match opt {
        None => Seq::empty(),
        Some(n) => n.inorder_here(),
    }
}

impl AvlNode {
    /// The set of keys stored in the subtree rooted at this node.
    pub closed spec fn keyset(self) -> Set<i64>
        decreases self,
    {
        keys(self.left).union(keys(self.right)).insert(self.data)
    }

    /// Height of the subtree rooted at this node (at least 1).
    pub closed spec fn height(self) -> nat
        decreases self,
    {
        (1 + max(ht(self.left) as int, ht(self.right) as int)) as nat
    }

    /// Number of nodes of the subtree rooted at this node.
    pub closed spec fn node_count(self) -> nat
        decreases self,
    {
        1 + count(self.left) + count(self.right)
    }

    /// BST ordering: all keys on the left are smaller, all keys on the
    /// right greater than this node's key, recursively.
    pub closed spec fn bst_here(self) -> bool
        decreases self,
    {
        &&& bst_ok(self.left)
        &&& bst_ok(self.right)
        &&& forall|x: i64| keys(self.left).contains(x) ==> x < self.data
        &&& forall|x: i64| keys(self.right).contains(x) ==> x > self.data
    }

    /// AVL balance: the stored balance factor equals the true height
    /// difference of the children and lies in {-1, 0, 1}, recursively.
    pub closed spec fn avl_here(self) -> bool
        decreases self,
    {
        &&& avl_ok(self.left)
        &&& avl_ok(self.right)
        &&& self.diff as int == ht(self.left) - ht(self.right)
        &&& -1 <= self.diff as int <= 1
    }

    /// In-order sequence of the subtree rooted at this node.
    pub closed spec fn inorder_here(self) -> Seq<i64>
        decreases self,
    {
        inorder(self.left) + seq![self.data] + inorder(self.right)
    }

    /// BST ordering and AVL balance both hold of this subtree.
    pub closed spec fn well_formed(self) -> bool {
        self.bst_here() && self.avl_here()
    }

    /// A fresh leaf node holding `data`, perfectly balanced.
    pub fn new(data: i64) -> (r: AvlNode)
        ensures
            r.well_formed(),
            r.keyset() == Set::empty().insert(data),
            r.height() == 1,
    {
        let r = AvlNode { data, left: None, right: None, diff: 0 };
        proof {
            assert(r.keyset() =~= Set::empty().insert(data));
        }
        r
    }
}

impl Avl {
    /// The abstract contents: the set of keys currently stored.
    pub closed spec fn view(self) -> Set<i64> {
        keys(self.root)
    }

    /// Well-formedness: BST ordering plus the AVL balance invariant.
    pub closed spec fn wf(self) -> bool {
        bst_ok(self.root) && avl_ok(self.root)
    }

    /// Height of the tree: 0 when empty.
    pub closed spec fn spec_height(self) -> nat {
        ht(self.root)
    }

    /// In-order sequence of the stored keys.
    pub closed spec fn spec_inorder(self) -> Seq<i64> {
        inorder(self.root)
    }

    /// An empty tree.
    pub fn new() -> (r: Avl)
        ensures
            r.wf(),
            r.view() == Set::<i64>::empty(),
            r.spec_height() == 0,
    {
        Avl { root: None }
    }
}

/// Membership search in a well-formed subtree.
fn search_node(n: &Option<Box<AvlNode>>, item: i64) -> (r: bool)
    requires
        bst_ok(*n),
    ensures
        r == keys(*n).contains(item),
    decreases n,
{
    match n {
        None => false,
        Some(b) => {
            if item == b.data {
                true
            } else if item < b.data {
                proof {
                    assert(!keys(b.right).contains(item));
                }
                search_node(&b.left, item)
            } else {
                proof {
                    assert(!keys(b.left).contains(item));
                }
                search_node(&b.right, item)
            }
        },
    }
}

impl Avl {
    /// Whether `item` is stored in the tree.
    pub fn search(&self, item: &i64) -> (r: bool)
        requires
            self.wf(),
        ensures
            r == self.view().contains(*item),
    {
        search_node(&self.root, *item)
    }
}

/// `b` is `a` with its balance factor replaced by `d`.
spec fn same_but_diff(a: AvlNode, b: AvlNode, d: i8) -> bool {
    b.data == a.data && b.left == a.left && b.right == a.right && b.diff == d
}

/// The two subtrees differ at most in the balance factor of their roots.
spec fn diff_only(a: Option<Box<AvlNode>>, b: Option<Box<AvlNode>>) -> bool {
    &&& a is Some
    &&& b is Some
    &&& (b->0).data == (a->0).data
    &&& (b->0).left == (a->0).left
    &&& (b->0).right == (a->0).right
}

/// Changing only a root balance factor leaves keys, order, height, node
/// count and BST ordering untouched.
proof fn lemma_diff_only(a: Option<Box<AvlNode>>, b: Option<Box<AvlNode>>)
    requires
        diff_only(a, b),
    ensures
        keys(b) == keys(a),
        inorder(b) == inorder(a),
        ht(b) == ht(a),
        count(b) == count(a),
        bst_ok(b) == bst_ok(a),
{
    let t = a->0;
    let r = b->0;
    assert(keys(a) == keys(t.left).union(keys(t.right)).insert(t.data));
    assert(keys(b) == keys(r.left).union(keys(r.right)).insert(r.data));
    assert(inorder(a) == inorder(t.left) + seq![t.data] + inorder(t.right));
    assert(inorder(b) == inorder(r.left) + seq![r.data] + inorder(r.right));
    assert(ht(a) as int == 1 + max(ht(t.left) as int, ht(t.right) as int));
    assert(ht(b) as int == 1 + max(ht(r.left) as int, ht(r.right) as int));
    assert(count(a) == 1 + count(t.left) + count(t.right));
    assert(count(b) == 1 + count(r.left) + count(r.right));
    assert(bst_ok(a) == t.bst_here());
    assert(bst_ok(b) == r.bst_here());
}

/// Reset the balance factor of the node itself (`which == 0`), of its left
/// child (`which == -1`) or of its right child (`which == 1`).
fn update_diff(top: &mut Option<Box<AvlNode>>, which: i8, new: i8)
    requires
        (*old(top)) is Some,
        which == -1 || which == 0 || which == 1,
        which == -1 ==> ((*old(top))->0).left is Some,
        which == 1 ==> ((*old(top))->0).right is Some,
    ensures
        (*final(top)) is Some,
        keys(*final(top)) == keys(*old(top)),
        inorder(*final(top)) == inorder(*old(top)),
        ht(*final(top)) == ht(*old(top)),
        bst_ok(*final(top)) == bst_ok(*old(top)),
        ({
            let t = (*old(top))->0;
            let r = (*final(top))->0;
            &&& (which == 0 ==> same_but_diff(*t, *r, new))
            &&& (which == -1 ==> r.data == t.data && r.diff == t.diff && r.right == t.right
                && r.left is Some && same_but_diff(*(t.left->0), *(r.left->0), new)
                && keys(r.left) == keys(t.left) && ht(r.left) == ht(t.left)
                && bst_ok(r.left) == bst_ok(t.left) && inorder(r.left) == inorder(t.left))
            &&& (which == 1 ==> r.data == t.data && r.diff == t.diff && r.left == t.left
                && r.right is Some && same_but_diff(*(t.right->0), *(r.right->0), new)
                && keys(r.right) == keys(t.right) && ht(r.right) == ht(t.right)
                && bst_ok(r.right) == bst_ok(t.right) && inorder(r.right) == inorder(t.right))
        }),
{
    let mut t = top.take().unwrap();
    if which == -1 {
        let mut l = t.left.take().unwrap();
        l.diff = new;
        t.left = Some(l);
    } else if which == 1 {
        let mut r = t.right.take().unwrap();
        r.diff = new;
        t.right = Some(r);
    } else {
        t.diff = new;
    }
    *top = Some(t);
    proof {
        let t0 = (*old(top))->0;
        let r0 = (*top)->0;
        if which == 0 {
            lemma_diff_only(*old(top), *top);
        } else if which == -1 {
            lemma_diff_only(t0.left, r0.left);
            assert(keys(*old(top)) == keys(t0.left).union(keys(t0.right)).insert(t0.data));
            assert(keys(*top) == keys(r0.left).union(keys(r0.right)).insert(r0.data));
            assert(inorder(*old(top)) == inorder(t0.left) + seq![t0.data] + inorder(t0.right));
            assert(inorder(*top) == inorder(r0.left) + seq![r0.data] + inorder(r0.right));
            assert(ht(*old(top)) as int == 1 + max(ht(t0.left) as int, ht(t0.right) as int));
            assert(ht(*top) as int == 1 + max(ht(r0.left) as int, ht(r0.right) as int));
            assert(bst_ok(*old(top)) == t0.bst_here());
            assert(bst_ok(*top) == r0.bst_here());
        } else {
            lemma_diff_only(t0.right, r0.right);
            assert(keys(*old(top)) == keys(t0.left).union(keys(t0.right)).insert(t0.data));
            assert(keys(*top) == keys(r0.left).union(keys(r0.right)).insert(r0.data));
            assert(inorder(*old(top)) == inorder(t0.left) + seq![t0.data] + inorder(t0.right));
            assert(inorder(*top) == inorder(r0.left) + seq![r0.data] + inorder(r0.right));
            assert(ht(*old(top)) as int == 1 + max(ht(t0.left) as int, ht(t0.right) as int));
            assert(ht(*top) as int == 1 + max(ht(r0.left) as int, ht(r0.right) as int));
            assert(bst_ok(*old(top)) == t0.bst_here());
            assert(bst_ok(*top) == r0.bst_here());
        }
    }
}

/// Structural relation between a subtree and its right rotation.
spec fn rot_right_rel(a: Option<Box<AvlNode>>, b: Option<Box<AvlNode>>) -> bool {
    &&& a is Some
    &&& (a->0).left is Some
    &&& b is Some
    &&& ({
        let t = a->0;
        let l = t.left->0;
        let r = b->0;
        &&& r.data == l.data
        &&& r.diff == l.diff
        &&& r.left == l.left
        &&& r.right is Some
        &&& (r.right->0).data == t.data
        &&& (r.right->0).diff == t.diff
        &&& (r.right->0).left == l.right
        &&& (r.right->0).right == t.right
    })
}

/// Structural relation between a subtree and its left rotation.
spec fn rot_left_rel(a: Option<Box<AvlNode>>, b: Option<Box<AvlNode>>) -> bool {
    &&& a is Some
    &&& (a->0).right is Some
    &&& b is Some
    &&& ({
        let t = a->0;
        let g = t.right->0;
        let r = b->0;
        &&& r.data == g.data
        &&& r.diff == g.diff
        &&& r.right == g.right
        &&& r.left is Some
        &&& (r.left->0).data == t.data
        &&& (r.left->0).diff == t.diff
        &&& (r.left->0).right == g.left
        &&& (r.left->0).left == t.left
    })
}

/// A right rotation preserves the key set, the in-order sequence and the
/// BST ordering, and the new height is determined by the old parts.
proof fn lemma_rot_right(a: Option<Box<AvlNode>>, b: Option<Box<AvlNode>>)
    requires
        rot_right_rel(a, b),
    ensures
        keys(b) == keys(a),
        inorder(b) == inorder(a),
        bst_ok(a) ==> bst_ok(b),
        ht(b) as int == 1 + max(
            ht(((a->0).left->0).left) as int,
            1 + max(ht(((a->0).left->0).right) as int, ht((a->0).right) as int),
        ),
{
    let t = a->0;
    let l = t.left->0;
    let r = b->0;
    let rr = r.right->0;
    assert(keys(a) == keys(t.left).union(keys(t.right)).insert(t.data));
    assert(keys(t.left) == keys(l.left).union(keys(l.right)).insert(l.data));
    assert(keys(b) == keys(r.left).union(keys(r.right)).insert(r.data));
    assert(keys(r.right) == keys(l.right).union(keys(t.right)).insert(t.data));
    assert(keys(b) =~= keys(a));
    assert(inorder(a) == inorder(t.left) + seq![t.data] + inorder(t.right));
    assert(inorder(t.left) == inorder(l.left) + seq![l.data] + inorder(l.right));
    assert(inorder(b) == inorder(r.left) + seq![r.data] + inorder(r.right));
    assert(inorder(r.right) == inorder(l.right) + seq![t.data] + inorder(t.right));
    assert(inorder(b) =~= inorder(a));
    assert(ht(r.right) as int == 1 + max(ht(l.right) as int, ht(t.right) as int));
    assert(ht(b) as int == 1 + max(ht(l.left) as int, ht(r.right) as int));
    if bst_ok(a) {
        assert(t.bst_here());
        assert(l.bst_here());
        assert(forall|x: i64| keys(l.right).contains(x) ==> keys(t.left).contains(x));
        assert(keys(t.left).contains(l.data));
        assert(rr.bst_here());
        assert(forall|x: i64|
            keys(r.right).contains(x) ==> (x == t.data || keys(l.right).contains(x)
                || keys(t.right).contains(x)));
        assert(r.bst_here());
    }
}

/// A left rotation: the mirror image of `lemma_rot_right`.
proof fn lemma_rot_left(a: Option<Box<AvlNode>>, b: Option<Box<AvlNode>>)
    requires
        rot_left_rel(a, b),
    ensures
        keys(b) == keys(a),
        inorder(b) == inorder(a),
        bst_ok(a) ==> bst_ok(b),
        ht(b) as int == 1 + max(
            ht(((a->0).right->0).right) as int,
            1 + max(ht(((a->0).right->0).left) as int, ht((a->0).left) as int),
        ),
{
    let t = a->0;
    let g = t.right->0;
    let r = b->0;
    let rl = r.left->0;
    assert(keys(a) == keys(t.left).union(keys(t.right)).insert(t.data));
    assert(keys(t.right) == keys(g.left).union(keys(g.right)).insert(g.data));
    assert(keys(b) == keys(r.left).union(keys(r.right)).insert(r.data));
    assert(keys(r.left) == keys(t.left).union(keys(g.left)).insert(t.data));
    assert(keys(b) =~= keys(a));
    assert(inorder(a) == inorder(t.left) + seq![t.data] + inorder(t.right));
    assert(inorder(t.right) == inorder(g.left) + seq![g.data] + inorder(g.right));
    assert(inorder(b) == inorder(r.left) + seq![r.data] + inorder(r.right));
    assert(inorder(r.left) == inorder(t.left) + seq![t.data] + inorder(g.left));
    assert(inorder(b) =~= inorder(a));
    assert(ht(r.left) as int == 1 + max(ht(t.left) as int, ht(g.left) as int));
    assert(ht(b) as int == 1 + max(ht(r.left) as int, ht(g.right) as int));
    if bst_ok(a) {
        assert(t.bst_here());
        assert(g.bst_here());
        assert(forall|x: i64| keys(g.left).contains(x) ==> keys(t.right).contains(x));
        assert(keys(t.right).contains(g.data));
        assert(rl.bst_here());
        assert(forall|x: i64|
            keys(r.left).contains(x) ==> (x == t.data || keys(t.left).contains(x)
                || keys(g.left).contains(x)));
        assert(r.bst_here());
    }
}

/// Rotate right without updating balance factors: the left child comes on
/// top, the old top becomes its right child, and the left child's old right
/// subtree becomes the old top's left subtree.
fn rotate_right(top: &mut Option<Box<AvlNode>>)
    requires
        (*old(top)) is Some,
        ((*old(top))->0).left is Some,
    ensures
        rot_right_rel(*old(top), *final(top)),
{
    let mut t = top.take().unwrap();
    let mut l = t.left.take().unwrap();
    t.left = l.right.take();
    l.right = Some(t);
    *top = Some(l);
}

/// Rotate left without updating balance factors: the mirror image of
/// `rotate_right`.
fn rotate_left(top: &mut Option<Box<AvlNode>>)
    requires
        (*old(top)) is Some,
        ((*old(top))->0).right is Some,
    ensures
        rot_left_rel(*old(top), *final(top)),
{
    let mut t = top.take().unwrap();
    let mut g = t.right.take().unwrap();
    t.right = g.left.take();
    g.left = Some(t);
    *top = Some(g);
}

/// Update the three balance factors after a double rotation.
///
/// The node now on top is the original grandchild; its stored factor still
/// describes its old children, which have become the inner subtrees of the
/// two children.  Both children's new factors derive from that single
/// value, the top factor becomes 0, and the height change is always fully
/// absorbed (returns false).
fn update_diff_2r(top: &mut Option<Box<AvlNode>>) -> (kept: bool)
    requires
        ({
            let t = (*old(top))->0;
            &&& (*old(top)) is Some
            &&& t.left is Some
            &&& t.right is Some
            &&& ({
                let l = t.left->0;
                let r = t.right->0;
                let a = ht(l.left) as int;
                let b = ht(l.right) as int;
                let c = ht(r.left) as int;
                let d = ht(r.right) as int;
                &&& bst_ok(*old(top))
                &&& avl_ok(l.left) && avl_ok(l.right) && avl_ok(r.left) && avl_ok(r.right)
                &&& a == d
                &&& t.diff as int == b - c
                &&& -1 <= t.diff as int <= 1
                &&& max(b, c) == a
            })
        }),
    ensures
        ({
            let t = (*old(top))->0;
            let a = ht((t.left->0).left) as int;
            &&& (*final(top)) is Some
            &&& bst_ok(*final(top)) == bst_ok(*old(top))
            &&& avl_ok(*final(top))
            &&& keys(*final(top)) == keys(*old(top))
            &&& inorder(*final(top)) == inorder(*old(top))
            &&& ht(*final(top)) as int == a + 2
            &&& kept == false
        }),
{
    let diff = top.as_ref().unwrap().diff;
    let (dl, dr): (i8, i8) = if diff == -1 {
        (1, 0)
    } else if diff == 1 {
        (0, -1)
    } else {
        (0, 0)
    };
    update_diff(top, -1, dl);
    update_diff(top, 1, dr);
    update_diff(top, 0, 0);
    proof {
        let t = (*old(top))->0;
        let l = t.left->0;
        let r = t.right->0;
        let f = (*top)->0;
        let fl = f.left->0;
        let fr = f.right->0;
        let a = ht(l.left) as int;
        let b = ht(l.right) as int;
        let c = ht(r.left) as int;
        assert(ht(f.left) as int == 1 + max(ht(fl.left) as int, ht(fl.right) as int));
        assert(ht(f.right) as int == 1 + max(ht(fr.left) as int, ht(fr.right) as int));
        assert(ht(*top) as int == 1 + max(ht(f.left) as int, ht(f.right) as int));
        assert(fl.avl_here());
        assert(fr.avl_here());
        assert(f.avl_here());
    }
    false
}

/// Update balance factors after a single rotation; `d1` is the original
/// top's factor (`1` or `-1`, pointing at the heavy side), `d2` the heavy
/// child's factor (`0` or equal to `d1`).  Returns true exactly when the
/// subtree keeps the height it had before the triggering mutation, i.e.
/// when `d2 == 0`.
fn update_diff_1r(top: &mut Option<Box<AvlNode>>, d1: i8, d2: i8) -> (kept: bool)
    requires
        ({
            let t = (*old(top))->0;
            &&& (*old(top)) is Some
            &&& (d1 == 1 || d1 == -1)
            &&& (d2 == 0 || d2 == d1)
            &&& t.diff == d2
            &&& bst_ok(*old(top))
            &&& (d1 == 1 ==> t.right is Some && ({
                let x = t.right->0;
                let bl = ht(t.left) as int;
                let br = ht(x.left) as int;
                let hr = ht(x.right) as int;
                &&& avl_ok(t.left) && avl_ok(x.left) && avl_ok(x.right)
                &&& (d2 == 0 ==> bl == hr + 1 && br == hr + 1)
                &&& (d2 != 0 ==> bl == hr + 1 && br == hr)
            }))
            &&& (d1 == -1 ==> t.left is Some && ({
                let x = t.left->0;
                let bl = ht(t.right) as int;
                let br = ht(x.right) as int;
                let hr = ht(x.left) as int;
                &&& avl_ok(t.right) && avl_ok(x.right) && avl_ok(x.left)
                &&& (d2 == 0 ==> bl == hr + 1 && br == hr + 1)
                &&& (d2 != 0 ==> bl == hr + 1 && br == hr)
            }))
        }),
    ensures
        (*final(top)) is Some,
        bst_ok(*final(top)) == bst_ok(*old(top)),
        avl_ok(*final(top)),
        keys(*final(top)) == keys(*old(top)),
        inorder(*final(top)) == inorder(*old(top)),
        ht(*final(top)) == ht(*old(top)),
        kept == (d2 == 0),
{
    let kept = if d2 == 0 {
        update_diff(top, d1, d1);
        update_diff(top, 0, if d1 == 1 { -1 } else { 1 });
        true
    } else {
        update_diff(top, d1, 0);
        update_diff(top, 0, 0);
        false
    };
    proof {
        let t = (*old(top))->0;
        let f = (*top)->0;
        if d1 == 1 {
            let fx = f.right->0;
            assert(ht(f.right) as int == 1 + max(ht(fx.left) as int, ht(fx.right) as int));
            assert(ht(*top) as int == 1 + max(ht(f.left) as int, ht(f.right) as int));
            assert(fx.avl_here());
            assert(f.avl_here());
        } else {
            let fx = f.left->0;
            assert(ht(f.left) as int == 1 + max(ht(fx.left) as int, ht(fx.right) as int));
            assert(ht(*top) as int == 1 + max(ht(f.left) as int, ht(f.right) as int));
            assert(fx.avl_here());
            assert(f.avl_here());
        }
    }
    kept
}

/// Repair a node whose stored factor is `diff` (`1` or `-1`) while the true
/// height difference has reached `2 * diff`: one or two rotations plus the
/// factor tables above.  Returns true exactly when the subtree keeps the
/// height it had before the triggering mutation (only possible in the
/// single-rotation case with a perfectly balanced heavy child).
fn rebalance(top: &mut Option<Box<AvlNode>>, diff: i8) -> (kept: bool)
    requires
        ({
            let t = (*old(top))->0;
            &&& (*old(top)) is Some
            &&& (diff == 1 || diff == -1)
            &&& t.diff == diff
            &&& bst_ok(*old(top))
            &&& avl_ok(t.left) && avl_ok(t.right)
            &&& (diff == 1 ==> ht(t.left) == ht(t.right) + 2)
            &&& (diff == -1 ==> ht(t.right) == ht(t.left) + 2)
        }),
    ensures
        ({
            let t = (*old(top))->0;
            let hh = if diff == 1 { ht(t.left) as int } else { ht(t.right) as int };
            let dc = if diff == 1 { (t.left->0).diff } else { (t.right->0).diff };
            &&& (*final(top)) is Some
            &&& bst_ok(*final(top)) && avl_ok(*final(top))
            &&& keys(*final(top)) == keys(*old(top))
            &&& inorder(*final(top)) == inorder(*old(top))
            &&& (kept ==> ht(*final(top)) as int == hh + 1)
            &&& (!kept ==> ht(*final(top)) as int == hh)
            &&& kept == (dc == 0)
        }),
{
    proof {
        let t = (*old(top))->0;
        if diff == 1 {
            if t.left is None {
                assert(ht(t.left) == 0);
                assert(false);
            }
        } else {
            if t.right is None {
                assert(ht(t.right) == 0);
                assert(false);
            }
        }
    }
    if diff == 1 {
        let diff_child = top.as_ref().unwrap().left.as_ref().unwrap().diff;
        proof {
            let t = (*old(top))->0;
            let l = t.left->0;
            assert(l.avl_here());
            assert(ht(t.left) as int == 1 + max(ht(l.left) as int, ht(l.right) as int));
        }
        if diff_child == -1 {
            let mut t = top.take().unwrap();
            proof {
                let l = t.left->0;
                if l.right is None {
                    assert(ht(l.right) == 0);
                    assert(false);
                }
            }
            let ghost pre_child = t.left;
            rotate_left(&mut t.left);
            proof {
                lemma_rot_left(pre_child, t.left);
            }
            *top = Some(t);
            let ghost mid = *top;
            proof {
                let t0 = (*old(top))->0;
                let m = mid->0;
                assert(keys(mid) == keys(m.left).union(keys(m.right)).insert(m.data));
                assert(keys(*old(top)) == keys(t0.left).union(keys(t0.right)).insert(t0.data));
                assert(keys(mid) =~= keys(*old(top)));
                assert(inorder(mid) == inorder(m.left) + seq![m.data] + inorder(m.right));
                assert(inorder(*old(top)) == inorder(t0.left) + seq![t0.data] + inorder(t0.right));
                assert(inorder(mid) =~= inorder(*old(top)));
                assert(m.bst_here());
                assert(bst_ok(mid));
            }
            rotate_right(top);
            proof {
                lemma_rot_right(mid, *top);
                let t0 = (*old(top))->0;
                let l0 = t0.left->0;
                let g0 = (l0.right)->0;
                assert(g0.avl_here());
                assert(ht(l0.right) as int == 1 + max(ht(g0.left) as int, ht(g0.right) as int));
                let f = (*top)->0;
                let fl = f.left->0;
                let fr = f.right->0;
                assert(ht(f.left) as int == 1 + max(ht(fl.left) as int, ht(fl.right) as int));
                assert(ht(f.right) as int == 1 + max(ht(fr.left) as int, ht(fr.right) as int));
            }
            update_diff_2r(top)
        } else {
            let ghost pre = *top;
            rotate_right(top);
            proof {
                lemma_rot_right(pre, *top);
            }
            update_diff_1r(top, diff, diff_child)
        }
    } else {
        let diff_child = top.as_ref().unwrap().right.as_ref().unwrap().diff;
        proof {
            let t = (*old(top))->0;
            let g = t.right->0;
            assert(g.avl_here());
            assert(ht(t.right) as int == 1 + max(ht(g.left) as int, ht(g.right) as int));
        }
        if diff_child == 1 {
            let mut t = top.take().unwrap();
            proof {
                let g = t.right->0;
                if g.left is None {
                    assert(ht(g.left) == 0);
                    assert(false);
                }
            }
            let ghost pre_child = t.right;
            rotate_right(&mut t.right);
            proof {
                lemma_rot_right(pre_child, t.right);
            }
            *top = Some(t);
            let ghost mid = *top;
            proof {
                let t0 = (*old(top))->0;
                let m = mid->0;
                assert(keys(mid) == keys(m.left).union(keys(m.right)).insert(m.data));
                assert(keys(*old(top)) == keys(t0.left).union(keys(t0.right)).insert(t0.data));
                assert(keys(mid) =~= keys(*old(top)));
                assert(inorder(mid) == inorder(m.left) + seq![m.data] + inorder(m.right));
                assert(inorder(*old(top)) == inorder(t0.left) + seq![t0.data] + inorder(t0.right));
                assert(inorder(mid) =~= inorder(*old(top)));
                assert(m.bst_here());
                assert(bst_ok(mid));
            }
            rotate_left(top);
            proof {
                lemma_rot_left(mid, *top);
                let t0 = (*old(top))->0;
                let g0 = t0.right->0;
                let c0 = (g0.left)->0;
                assert(c0.avl_here());
                assert(ht(g0.left) as int == 1 + max(ht(c0.left) as int, ht(c0.right) as int));
                let f = (*top)->0;
                let fl = f.left->0;
                let fr = f.right->0;
                assert(ht(f.left) as int == 1 + max(ht(fl.left) as int, ht(fl.right) as int));
                assert(ht(f.right) as int == 1 + max(ht(fr.left) as int, ht(fr.right) as int));
            }
            update_diff_2r(top)
        } else {
            let ghost pre = *top;
            rotate_left(top);
            proof {
                lemma_rot_left(pre, *top);
            }
            update_diff_1r(top, diff, diff_child)
        }
    }
}

/// Repair a node's balance factor after the depth of one of its children
/// changed: `which` names the touched child (`-1` left, `1` right), and
/// `change` says how that child's height moved (`-1`, `0` or `1`).  The
/// node's stored factor still describes the heights before the change.
/// Returns how the height of this whole subtree moved.
fn backtrace(node: &mut Option<Box<AvlNode>>, which: i8, change: i8) -> (delta: i8)
    requires
        ({
            let t = (*old(node))->0;
            &&& (*old(node)) is Some
            &&& (which == 1 || which == -1)
            &&& (change == -1 || change == 0 || change == 1)
            &&& bst_ok(*old(node))
            &&& avl_ok(t.left) && avl_ok(t.right)
            &&& (which == -1 ==> t.diff as int == ht(t.left) - change - ht(t.right)
                && -1 <= ht(t.left) - change - ht(t.right) <= 1)
            &&& (which == 1 ==> t.diff as int == ht(t.left) - (ht(t.right) - change)
                && -1 <= ht(t.left) - (ht(t.right) - change) <= 1)
            &&& (change == 1 && which == -1 ==> t.left is Some
                && ((t.left->0).diff != 0 || ht(t.left) == 1))
            &&& (change == 1 && which == 1 ==> t.right is Some
                && ((t.right->0).diff != 0 || ht(t.right) == 1))
        }),
    ensures
        ({
            let t = (*old(node))->0;
            let h0 = if which == -1 {
                1 + max(ht(t.left) - change, ht(t.right) as int)
            } else {
                1 + max(ht(t.left) as int, ht(t.right) - change)
            };
            &&& (*final(node)) is Some
            &&& bst_ok(*final(node)) && avl_ok(*final(node))
            &&& keys(*final(node)) == keys(*old(node))
            &&& inorder(*final(node)) == inorder(*old(node))
            &&& ht(*final(node)) as int == h0 + delta
            &&& (change == 1 ==> delta == 0 || delta == 1)
            &&& (change == -1 ==> delta == -1 || delta == 0)
            &&& (change == 0 ==> delta == 0 && *final(node) == *old(node))
            &&& (delta == 1 ==> ((*final(node))->0).diff != 0)
        }),
{
    let diff = node.as_ref().unwrap().diff;
    if change == 0 {
        proof {
            let t = (*old(node))->0;
            assert(t.avl_here());
            assert(avl_ok(*old(node)));
        }
        return 0;
    }
    let prod: i8 = diff * which;
    if change == 1 {
        if prod == 0 {
            update_diff(node, 0, -which);
            proof {
                let f = (*node)->0;
                assert(f.avl_here());
            }
            1
        } else if prod == 1 {
            update_diff(node, 0, 0);
            proof {
                let f = (*node)->0;
                assert(f.avl_here());
            }
            0
        } else {
            proof {
                let t = (*old(node))->0;
                if which == -1 {
                    if ht(t.left) == 1 {
                        assert(false);
                    }
                    assert((t.left->0).diff != 0);
                } else {
                    if ht(t.right) == 1 {
                        assert(false);
                    }
                    assert((t.right->0).diff != 0);
                }
            }
            let kept = rebalance(node, diff);
            proof {
                assert(!kept);
            }
            0
        }
    } else {
        if prod == 0 {
            update_diff(node, 0, which);
            proof {
                let f = (*node)->0;
                assert(f.avl_here());
            }
            0
        } else if prod == -1 {
            update_diff(node, 0, 0);
            proof {
                let f = (*node)->0;
                assert(f.avl_here());
            }
            -1
        } else {
            if rebalance(node, diff) {
                0
            } else {
                -1
            }
        }
    }
}

/// Insert `item` into a well-formed subtree; returns how the subtree
/// height moved (`0` or `1`) and whether a new node was created (false
/// exactly when the key was already present, in which case the subtree is
/// left unchanged).
fn insert_rec(node: &mut Option<Box<AvlNode>>, item: i64) -> (r: (i8, bool))
    requires
        bst_ok(*old(node)),
        avl_ok(*old(node)),
    ensures
        bst_ok(*final(node)),
        avl_ok(*final(node)),
        keys(*final(node)) == keys(*old(node)).insert(item),
        r.1 == !keys(*old(node)).contains(item),
        r.0 == 0 || r.0 == 1,
        ht(*final(node)) as int == ht(*old(node)) + r.0,
        r.0 == 1 ==> (*final(node)) is Some
            && (((*final(node))->0).diff != 0 || ht(*final(node)) == 1),
        !r.1 ==> r.0 == 0,
    decreases *old(node),
{
    match node.take() {
        None => {
            *node = Some(Box::new(AvlNode::new(item)));
            proof {
                assert(keys(*node) =~= keys(*old(node)).insert(item));
            }
            (1, true)
        },
        Some(mut b) => {
            proof {
                assert(b.bst_here());
                assert(b.avl_here());
            }
            if item == b.data {
                *node = Some(b);
                proof {
                    let f = (*node)->0;
                    assert(f.bst_here() && f.avl_here());
                    assert(keys(*node).contains(item));
                    assert(keys(*node) =~= keys(*node).insert(item));
                }
                (0, false)
            } else if item > b.data {
                let (delta, succeed) = insert_rec(&mut b.right, item);
                let ghost bmid = b;
                *node = Some(b);
                proof {
                    let f = (*node)->0;
                    assert(keys(*node) == keys(f.left).union(keys(f.right)).insert(f.data));
                    assert(keys(*node) =~= keys(*old(node)).insert(item));
                    assert(inorder(*node) == inorder(f.left) + seq![f.data] + inorder(f.right));
                    assert(f.bst_here());
                }
                let delta2 = backtrace(node, 1, delta);
                proof {
                    assert(keys(*node) =~= keys(*old(node)).insert(item));
                }
                (delta2, succeed)
            } else {
                let (delta, succeed) = insert_rec(&mut b.left, item);
                *node = Some(b);
                proof {
                    let f = (*node)->0;
                    assert(keys(*node) == keys(f.left).union(keys(f.right)).insert(f.data));
                    assert(keys(*node) =~= keys(*old(node)).insert(item));
                    assert(inorder(*node) == inorder(f.left) + seq![f.data] + inorder(f.right));
                    assert(f.bst_here());
                }
                let delta2 = backtrace(node, -1, delta);
                proof {
                    assert(keys(*node) =~= keys(*old(node)).insert(item));
                }
                (delta2, succeed)
            }
        },
    }
}

impl Avl {
    /// Insert `item`; returns false and leaves the tree unchanged if an
    /// equal key is already stored, true after inserting a new node.
    pub fn insert(&mut self, item: i64) -> (r: bool)
        requires
            old(self).wf(),
        ensures
            final(self).wf(),
            final(self).view() == old(self).view().insert(item),
            r == !old(self).view().contains(item),
    {
        let (_, r) = insert_rec(&mut self.root, item);
        r
    }
}

/// Remove the rightmost (greatest) node of a nonempty well-formed subtree
/// and return its key together with the height change (`-1` or `0`).
fn remove_right_most_rec(node: &mut Option<Box<AvlNode>>) -> (r: (i8, i64))
    requires
        (*old(node)) is Some,
        bst_ok(*old(node)),
        avl_ok(*old(node)),
    ensures
        bst_ok(*final(node)),
        avl_ok(*final(node)),
        keys(*old(node)).contains(r.1),
        keys(*final(node)) == keys(*old(node)).remove(r.1),
        forall|x: i64| keys(*old(node)).contains(x) ==> x <= r.1,
        r.0 == -1 || r.0 == 0,
        ht(*final(node)) as int == ht(*old(node)) + r.0,
    decreases *old(node),
{
    let mut b = node.take().unwrap();
    proof {
        assert(b.bst_here());
        assert(b.avl_here());
    }
    if b.right.is_some() {
        let (delta, ret) = remove_right_most_rec(&mut b.right);
        *node = Some(b);
        proof {
            let f = (*node)->0;
            assert(keys(*node) == keys(f.left).union(keys(f.right)).insert(f.data));
            assert(keys(*old(node)).contains(ret));
            assert(keys(*node) =~= keys(*old(node)).remove(ret));
            assert(f.bst_here());
        }
        let delta2 = backtrace(node, 1, delta);
        proof {
            assert(keys(*node) =~= keys(*old(node)).remove(ret));
        }
        (delta2, ret)
    } else {
        let left = b.left.take();
        *node = left;
        proof {
            assert(ht(b.right) == 0);
            assert(keys(b.right) =~= Set::<i64>::empty());
            assert(keys(*old(node)) == keys(left).union(keys(b.right)).insert(b.data));
            assert(!keys(left).contains(b.data));
            assert(keys(*node) =~= keys(*old(node)).remove(b.data));
        }
        (-1, b.data)
    }
}

/// Remove the key that the comparison closure reports `Equal` for; `cmp`
/// must order candidates exactly as the target band `[lo, hi]` does.
/// Returns the height change and the removed key, `None` if no key
/// matched.
fn remove_by_rec<F: Fn(&i64) -> core::cmp::Ordering>(
    node: &mut Option<Box<AvlNode>>,
    cmp: &F,
    Ghost(lo): Ghost<i64>,
    Ghost(hi): Ghost<i64>,
) -> (r: (i8, Option<i64>))
    requires
        bst_ok(*old(node)),
        avl_ok(*old(node)),
        crate::keyorder::cmp_for_range(*cmp, lo, hi),
    ensures
        bst_ok(*final(node)),
        avl_ok(*final(node)),
        r.1 matches Some(v) ==> keys(*old(node)).contains(v) && lo <= v <= hi && keys(
            *final(node),
        ) == keys(*old(node)).remove(v),
        r.1 is None ==> keys(*final(node)) == keys(*old(node)) && (forall|x: i64|
            keys(*old(node)).contains(x) ==> !(lo <= x <= hi)),
        r.0 == -1 || r.0 == 0,
        ht(*final(node)) as int == ht(*old(node)) + r.0,
    decreases *old(node),
{
    match node.take() {
        None => {
            *node = None;
            (0, None)
        },
        Some(mut b) => {
            proof {
                assert(b.bst_here());
                assert(b.avl_here());
            }
            let o = cmp(&b.data);
            proof {
                assert(o == crate::keyorder::range_ordering_of(lo, hi, b.data));
            }
            match o {
                core::cmp::Ordering::Equal => {
                    if b.left.is_none() {
                        if b.right.is_none() {
                            *node = None;
                            proof {
                                assert(keys(b.left) =~= Set::<i64>::empty());
                                assert(keys(b.right) =~= Set::<i64>::empty());
                                assert(keys(*old(node)) =~= Set::<i64>::empty().insert(b.data));
                                assert(keys(*node) =~= keys(*old(node)).remove(b.data));
                            }
                            (-1, Some(b.data))
                        } else {
                            let right = b.right.take();
                            *node = right;
                            proof {
                                assert(ht(b.left) == 0);
                                assert(keys(b.left) =~= Set::<i64>::empty());
                                assert(!keys(right).contains(b.data));
                                assert(keys(*old(node)) == keys(b.left).union(keys(right)).insert(b.data));
                                assert(keys(*node) =~= keys(*old(node)).remove(b.data));
                            }
                            (-1, Some(b.data))
                        }
                    } else {
                        let (delta, pred) = remove_right_most_rec(&mut b.left);
                        let out = b.data;
                        b.data = pred;
                        *node = Some(b);
                        proof {
                            let f = (*node)->0;
                            assert(keys(*node) == keys(f.left).union(keys(f.right)).insert(f.data));
                            assert(pred < out);
                            assert(forall|x: i64| keys(f.left).contains(x) ==> x < pred);
                            assert(f.bst_here());
                            assert(keys(*node) =~= keys(*old(node)).remove(out));
                        }
                        let delta2 = backtrace(node, -1, delta);
                        proof {
                            assert(keys(*node) =~= keys(*old(node)).remove(out));
                        }
                        (delta2, Some(out))
                    }
                },
                core::cmp::Ordering::Greater => {
                    // every key of the band lies to the right
                    let ghost pre_right = b.right;
                    let (delta, ret) = remove_by_rec(&mut b.right, cmp, Ghost(lo), Ghost(hi));
                    *node = Some(b);
                    proof {
                        let f = (*node)->0;
                        assert(keys(*node) == keys(f.left).union(keys(f.right)).insert(f.data));
                        assert(f.bst_here());
                        if ret is Some {
                            let v = ret->0;
                            assert(v >= lo);
                            assert(!keys(f.left).contains(v) && v != f.data);
                            assert(keys(*node) =~= keys(*old(node)).remove(v));
                        } else {
                            assert(keys(*node) =~= keys(*old(node)));
                        }
                    }
                    let ghost mid = *node;
                    let delta2 = backtrace(node, 1, delta);
                    proof {
                        assert(keys(*node) == keys(mid));
                    }
                    (delta2, ret)
                },
                core::cmp::Ordering::Less => {
                    // every key of the band lies to the left
                    let (delta, ret) = remove_by_rec(&mut b.left, cmp, Ghost(lo), Ghost(hi));
                    *node = Some(b);
                    proof {
                        let f = (*node)->0;
                        assert(keys(*node) == keys(f.left).union(keys(f.right)).insert(f.data));
                        assert(f.bst_here());
                        if ret is Some {
                            let v = ret->0;
                            assert(v <= hi);
                            assert(!keys(f.right).contains(v) && v != f.data);
                            assert(keys(*node) =~= keys(*old(node)).remove(v));
                        } else {
                            assert(keys(*node) =~= keys(*old(node)));
                        }
                    }
                    let ghost mid = *node;
                    let delta2 = backtrace(node, -1, delta);
                    proof {
                        assert(keys(*node) == keys(mid));
                    }
                    (delta2, ret)
                },
            }
        },
    }
}

impl Avl {
    /// Remove a key for which `cmp` answers `Equal`, walking right on
    /// `Greater` and left on `Less`; the closure must order candidates as
    /// some target band of keys does (see `keyorder::cmp_for_range`) — a
    /// full key is a one-key band, a partial key a wider one.  Returns the
    /// removed key, or `None` if no stored key matched; when exactly one
    /// stored key falls in the band, that key is the one removed.
    pub fn remove_by<F: Fn(&i64) -> core::cmp::Ordering>(&mut self, cmp: F) -> (r: Option<i64>)
        requires
            old(self).wf(),
            exists|lo: i64, hi: i64| crate::keyorder::cmp_for_range(cmp, lo, hi),
        ensures
            final(self).wf(),
            exists|lo: i64, hi: i64|
                #[trigger] crate::keyorder::cmp_for_range(cmp, lo, hi) && (match r {
                    Some(v) => old(self).view().contains(v) && lo <= v <= hi && final(self).view()
                        == old(self).view().remove(v),
                    None => final(self).view() == old(self).view() && (forall|x: i64|
                        old(self).view().contains(x) ==> !(lo <= x <= hi)),
                }),
    {
        let ghost (lo, hi) = choose|lo: i64, hi: i64| crate::keyorder::cmp_for_range(cmp, lo, hi);
        let (_, r) = remove_by_rec(&mut self.root, &cmp, Ghost(lo), Ghost(hi));
        r
    }

    /// Remove `item` from the tree if present; the tree is unchanged when
    /// `item` is not stored.
    pub fn remove(&mut self, item: &i64)
        requires
            old(self).wf(),
        ensures
            final(self).wf(),
            final(self).view() == old(self).view().remove(*item),
    {
        let ghost k = *item;
        let target = *item;
        let cmp = |x: &i64| -> (o: core::cmp::Ordering)
            ensures
                o == crate::keyorder::ordering_of(target, *x),
            {
                if target < *x {
                    core::cmp::Ordering::Less
                } else if target == *x {
                    core::cmp::Ordering::Equal
                } else {
                    core::cmp::Ordering::Greater
                }
            };
        proof {
            assert(crate::keyorder::cmp_for_range(cmp, k, k));
        }
        let (_, ret) = remove_by_rec(&mut self.root, &cmp, Ghost(k), Ghost(k));
        proof {
            if ret is None {
                assert(!old(self).view().contains(k));
                assert(final(self).view() =~= old(self).view().remove(k));
            }
        }
    }
}

/// Search for a key that `cmp` reports `Equal` for, walking right on
/// `Greater` and left on `Less`.
fn search_by_node<F: Fn(&i64) -> core::cmp::Ordering>(
    n: &Option<Box<AvlNode>>,
    cmp: &F,
    Ghost(lo): Ghost<i64>,
    Ghost(hi): Ghost<i64>,
) -> (r: Option<i64>)
    requires
        bst_ok(*n),
        crate::keyorder::cmp_for_range(*cmp, lo, hi),
    ensures
        r matches Some(v) ==> keys(*n).contains(v) && lo <= v <= hi,
        r is None ==> forall|x: i64| keys(*n).contains(x) ==> !(lo <= x <= hi),
    decreases n,
{
    match n {
        None => {
            proof {
                assert(keys(*n) =~= Set::<i64>::empty());
            }
            None
        },
        Some(b) => {
            let o = cmp(&b.data);
            proof {
                assert(o == crate::keyorder::range_ordering_of(lo, hi, b.data));
            }
            match o {
                core::cmp::Ordering::Equal => Some(b.data),
                core::cmp::Ordering::Greater => {
                    let r = search_by_node(&b.right, cmp, Ghost(lo), Ghost(hi));
                    proof {
                        if r is None {
                            assert(keys(*n) == keys(b.left).union(keys(b.right)).insert(b.data));
                            assert forall|x: i64| keys(*n).contains(x) implies !(lo <= x <= hi) by {
                                if keys(b.left).contains(x) {
                                    assert(x < b.data && b.data < lo);
                                } else if x == b.data {
                                    assert(b.data < lo);
                                }
                            }
                        }
                    }
                    r
                },
                core::cmp::Ordering::Less => {
                    let r = search_by_node(&b.left, cmp, Ghost(lo), Ghost(hi));
                    proof {
                        if r is None {
                            assert(keys(*n) == keys(b.left).union(keys(b.right)).insert(b.data));
                            assert forall|x: i64| keys(*n).contains(x) implies !(lo <= x <= hi) by {
                                if keys(b.right).contains(x) {
                                    assert(x > b.data && b.data > hi);
                                } else if x == b.data {
                                    assert(b.data > hi);
                                }
                            }
                        }
                    }
                    r
                },
            }
        },
    }
}

impl Avl {
    /// Search by a comparison closure; the closure must order candidates
    /// as some target band of keys does (see `keyorder::cmp_for_range`) —
    /// a full key is a one-key band, a partial key a wider one.  Returns a
    /// stored key the closure reports `Equal` for, or `None` if there is
    /// none; when exactly one stored key falls in the band, that key is
    /// the one returned.
    pub fn search_by<F: Fn(&i64) -> core::cmp::Ordering>(&self, cmp: F) -> (r: Option<i64>)
        requires
            self.wf(),
            exists|lo: i64, hi: i64| crate::keyorder::cmp_for_range(cmp, lo, hi),
        ensures
            exists|lo: i64, hi: i64|
                #[trigger] crate::keyorder::cmp_for_range(cmp, lo, hi) && (match r {
                    Some(v) => self.view().contains(v) && lo <= v <= hi,
                    None => forall|x: i64| self.view().contains(x) ==> !(lo <= x <= hi),
                }),
    {
        let ghost (lo, hi) = choose|lo: i64, hi: i64| crate::keyorder::cmp_for_range(cmp, lo, hi);
        search_by_node(&self.root, &cmp, Ghost(lo), Ghost(hi))
    }
}

/// Height of a balanced subtree, following the taller child as the stored
/// balance factors direct.
fn height_node(n: &Option<Box<AvlNode>>) -> (r: usize)
    requires
        avl_ok(*n),
        ht(*n) <= usize::MAX,
    ensures
        r == ht(*n),
    decreases n,
{
    match n {
        None => 0,
        Some(b) => {
            proof {
                assert(b.avl_here());
            }
            if b.diff >= 0 {
                1 + height_node(&b.left)
            } else {
                1 + height_node(&b.right)
            }
        },
    }
}

impl Avl {
    /// The height of the tree, walking down the taller side at each node.
    /// The height must fit in a `usize`, which any tree in memory obeys.
    pub fn height(&self) -> (r: usize)
        requires
            self.wf(),
            self.spec_height() <= usize::MAX,
        ensures
            r == self.spec_height(),
    {
        height_node(&self.root)
    }
}

/// Check the balance metadata of a subtree against the true heights:
/// returns whether the AVL balance invariant holds, and the height when it
/// does.
fn check_balance_node(n: &Option<Box<AvlNode>>) -> (r: (bool, usize))
    requires
        ht(*n) <= usize::MAX,
    ensures
        r.0 == avl_ok(*n),
        r.0 ==> r.1 == ht(*n),
    decreases n,
{
    match n {
        None => (true, 0),
        Some(b) => {
            proof {
                assert(ht(*n) as int == 1 + max(ht(b.left) as int, ht(b.right) as int));
            }
            let (bl, hl) = check_balance_node(&b.left);
            if !bl {
                return (false, 0);
            }
            let (br, hr) = check_balance_node(&b.right);
            if !br {
                return (false, 0);
            }
            let ok = (hl == hr && b.diff == 0) || (hl == hr + 1 && b.diff == 1) || (hr == hl + 1
                && b.diff == -1);
            let h = 1 + if hl >= hr {
                hl
            } else {
                hr
            };
            (ok, h)
        },
    }
}

impl Avl {
    /// Whether every node's stored balance factor equals the true height
    /// difference of its children and lies in {-1, 0, 1}.  Every public
    /// mutation keeps this true; the check recomputes it from the ground.
    pub fn check_balance(&self) -> (r: bool)
        requires
            self.spec_height() <= usize::MAX,
        ensures
            r == self.balanced(),
    {
        check_balance_node(&self.root).0
    }

    /// The AVL balance invariant alone (without the BST ordering).
    pub closed spec fn balanced(self) -> bool {
        avl_ok(self.root)
    }

    /// Well-formedness contains the balance half: in a well-formed tree
    /// every stored balance factor equals the true height difference of
    /// its children and lies in {-1, 0, 1} — the fact `check_balance`
    /// recomputes from the ground.
    pub proof fn lemma_wf_balanced(self)
        requires
            self.wf(),
        ensures
            self.balanced(),
    {
    }
}

/// Append the in-order sequence of a subtree, reversed, to `out`.
fn collect_rev_inorder(n: &Option<Box<AvlNode>>, out: &mut Vec<i64>)
    ensures
        final(out)@ == old(out)@ + inorder(*n).reverse(),
    decreases n,
{
    match n {
        None => {
            proof {
                assert(out@ =~= old(out)@ + inorder(*n).reverse());
            }
        },
        Some(b) => {
            collect_rev_inorder(&b.right, out);
            out.push(b.data);
            collect_rev_inorder(&b.left, out);
            proof {
                assert(out@ =~= old(out)@ + inorder(*n).reverse());
            }
        },
    }
}

/// A lazy producer of the stored keys in ascending order, fed from an
/// explicit stack primed at construction time.
pub struct IterDfs {
    stack: Vec<i64>,
}

impl IterDfs {
    /// The keys not yet produced, in the order they will come out.
    pub closed spec fn remaining(self) -> Seq<i64> {
        self.stack@.reverse()
    }

    /// A producer fed from an explicit stack: it yields the stack's
    /// entries from the top down.
    pub(crate) fn from_rev_stack(stack: Vec<i64>) -> (r: IterDfs)
        ensures
            r.remaining() == stack@.reverse(),
    {
        IterDfs { stack }
    }

    /// The next key in ascending order, or `None` when exhausted.
    pub fn next(&mut self) -> (r: Option<i64>)
        ensures
            old(self).remaining().len() == 0 ==> r is None && final(self).remaining()
                == old(self).remaining(),
            old(self).remaining().len() > 0 ==> r == Some(old(self).remaining()[0])
                && final(self).remaining() == old(self).remaining().drop_first(),
    {
        let r = self.stack.pop();
        proof {
            if old(self).remaining().len() > 0 {
                assert(final(self).remaining() =~= old(self).remaining().drop_first());
            }
        }
        r
    }
}

impl Avl {
    /// An in-order (depth-first) iterator over the stored keys, ascending.
    pub fn iter_dfs(&self) -> (r: IterDfs)
        requires
            self.wf(),
        ensures
            r.remaining() == self.spec_inorder(),
    {
        let mut stack = Vec::<i64>::new();
        collect_rev_inorder(&self.root, &mut stack);
        proof {
            assert(stack@.reverse() =~= self.spec_inorder());
        }
        IterDfs { stack }
    }
}

/// The keys at depth `d` of a subtree, from left to right.
pub closed spec fn level_seq(n: Option<Box<AvlNode>>, d: nat) -> Seq<i64>
    decreases n,
{
    match n {
        None => Seq::empty(),
        Some(b) => if d == 0 {
            seq![b.data]
        } else {
            level_seq(b.left, (d - 1) as nat) + level_seq(b.right, (d - 1) as nat)
        },
    }
}

/// The first `d` levels of a subtree, concatenated: breadth-first order.
pub closed spec fn bfs_upto(n: Option<Box<AvlNode>>, d: nat) -> Seq<i64>
    decreases d,
{
    if d == 0 {
        Seq::empty()
    } else {
        bfs_upto(n, (d - 1) as nat) + level_seq(n, (d - 1) as nat)
    }
}

/// Append the keys at depth `d` of a subtree to `out`, left to right.
fn collect_level(n: &Option<Box<AvlNode>>, d: usize, out: &mut Vec<i64>)
    ensures
        final(out)@ == old(out)@ + level_seq(*n, d as nat),
    decreases n,
{
    match n {
        None => {
            proof {
                assert(out@ =~= old(out)@ + level_seq(*n, d as nat));
            }
        },
        Some(b) => {
            if d == 0 {
                out.push(b.data);
            } else {
                collect_level(&b.left, d - 1, out);
                collect_level(&b.right, d - 1, out);
                proof {
                    assert(out@ =~= old(out)@ + level_seq(*n, d as nat));
                }
            }
        },
    }
}

impl Avl {
    /// Breadth-first order of the stored keys: each level from the root
    /// down, left to right.
    pub closed spec fn spec_bfs(self) -> Seq<i64> {
        bfs_upto(self.root, ht(self.root))
    }

    /// The stored keys in breadth-first order (each level left to right).
    /// The height must fit in a `usize`, which any tree in memory obeys.
    pub fn iter_bfs(&self) -> (r: Vec<i64>)
        requires
            self.wf(),
            self.spec_height() <= usize::MAX,
        ensures
            r@ == self.spec_bfs(),
    {
        let h = height_node(&self.root);
        let mut out = Vec::<i64>::new();
        let mut d: usize = 0;
        while d < h
            invariant
                d <= h,
                h == ht(self.root),
                out@ == bfs_upto(self.root, d as nat),
            decreases h - d,
        {
            collect_level(&self.root, d, &mut out);
            d += 1;
        }
        out
    }
}

/// The in-order sequence of a BST-ordered subtree lists exactly the stored
/// keys, strictly ascending, one entry per node.
proof fn lemma_inorder_props(n: Option<Box<AvlNode>>)
    requires
        bst_ok(n),
    ensures
        forall|x: i64| inorder(n).contains(x) == keys(n).contains(x),
        forall|i: int, j: int|
            0 <= i < j < inorder(n).len() ==> inorder(n)[i] < inorder(n)[j],
        inorder(n).len() == count(n),
    decreases n,
{
    match n {
        None => {
            assert(forall|x: i64| !inorder(n).contains(x));
        },
        Some(b) => {
            lemma_inorder_props(b.left);
            lemma_inorder_props(b.right);
            let s = inorder(n);
            let sl = inorder(b.left);
            let sr = inorder(b.right);
            assert(s == sl + seq![b.data] + sr);
            assert forall|x: i64| #[trigger] s.contains(x) implies keys(n).contains(x) by {
                let i = choose|i: int| 0 <= i < s.len() && s[i] == x;
                if i < sl.len() {
                    assert(sl[i] == x);
                    assert(sl.contains(x));
                } else if i == sl.len() {
                    assert(x == b.data);
                } else {
                    assert(sr[i - sl.len() - 1] == x);
                    assert(sr.contains(x));
                }
            }
            assert forall|x: i64| keys(n).contains(x) implies #[trigger] s.contains(x) by {
                assert(keys(n) == keys(b.left).union(keys(b.right)).insert(b.data));
                if keys(b.left).contains(x) {
                    assert(sl.contains(x));
                    let i = choose|i: int| 0 <= i < sl.len() && sl[i] == x;
                    assert(s[i] == x);
                } else if x == b.data {
                    assert(s[sl.len() as int] == x);
                } else {
                    assert(keys(b.right).contains(x));
                    assert(sr.contains(x));
                    let i = choose|i: int| 0 <= i < sr.len() && sr[i] == x;
                    assert(s[sl.len() + 1 + i] == x);
                }
            }
            assert forall|i: int, j: int| 0 <= i < j < s.len() implies s[i] < s[j] by {
                if j < sl.len() {
                } else if i > sl.len() {
                    assert(s[i] == sr[i - sl.len() - 1]);
                    assert(s[j] == sr[j - sl.len() - 1]);
                } else {
                    if i < sl.len() {
                        assert(s[i] == sl[i]);
                        assert(sl.contains(sl[i]));
                        assert(keys(b.left).contains(s[i]));
                        assert(s[i] < b.data);
                    }
                    if j > sl.len() {
                        assert(s[j] == sr[j - sl.len() - 1]);
                        assert(sr.contains(sr[j - sl.len() - 1]));
                        assert(keys(b.right).contains(s[j]));
                        assert(s[j] > b.data);
                    }
                }
            }
        },
    }
}

impl Avl {
    /// Number of nodes stored in the tree.
    pub closed spec fn spec_count(self) -> nat {
        count(self.root)
    }

    /// The BST-order law: in a well-formed tree the in-order traversal is
    /// strictly ascending, and it lists exactly the stored key set, whose
    /// size is the node count.
    pub proof fn lemma_bst_order(self)
        requires
            self.wf(),
        ensures
            forall|i: int, j: int|
                0 <= i < j < self.spec_inorder().len() ==> self.spec_inorder()[i]
                    < self.spec_inorder()[j],
            self.spec_inorder().to_set() == self.view(),
            self.view().finite(),
            self.view().len() == self.spec_count(),
            self.spec_inorder().len() == self.spec_count(),
    {
        lemma_inorder_props(self.root);
        let s = self.spec_inorder();
        assert(s.to_set() =~= self.view());
        vstd::seq_lib::seq_to_set_is_finite(s);
        assert(s.no_duplicates());
        s.unique_seq_to_set();
    }
}

/// The Fibonacci sequence, used to bound AVL heights from the node count.
pub open spec fn fib(n: nat) -> nat
    decreases n,
{
    if n == 0 {
        0
    } else if n == 1 {
        1
    } else {
        fib((n - 1) as nat) + fib((n - 2) as nat)
    }
}

/// Fibonacci numbers grow monotonically.
pub proof fn lemma_fib_mono(a: nat, b: nat)
    requires
        a <= b,
    ensures
        fib(a) <= fib(b),
    decreases b,
{
    if a < b {
        if b >= 2 {
            lemma_fib_mono(a, (b - 1) as nat);
        }
    }
}

/// An AVL-balanced subtree of height `h` holds at least `fib(h + 2) - 1`
/// nodes.
proof fn lemma_avl_count(n: Option<Box<AvlNode>>)
    requires
        avl_ok(n),
    ensures
        count(n) + 1 >= fib(ht(n) + 2),
    decreases n,
{
    match n {
        None => {
            assert(fib(0) == 0);
            assert(fib(1) == 1);
            assert(fib(2) == fib(1) + fib(0));
        },
        Some(b) => {
            lemma_avl_count(b.left);
            lemma_avl_count(b.right);
            let hl = ht(b.left);
            let hr = ht(b.right);
            if hl >= hr {
                lemma_fib_mono(hr + 2, hl + 2);
                lemma_fib_mono((hl + 1) as nat, hr + 2);
                assert(fib(ht(n) + 2) == fib(hl + 2) + fib((hl + 1) as nat));
            } else {
                lemma_fib_mono(hl + 2, hr + 2);
                lemma_fib_mono((hr + 1) as nat, hl + 2);
                assert(fib(ht(n) + 2) == fib(hr + 2) + fib((hr + 1) as nat));
            }
        },
    }
}

impl Avl {
    /// The height-bound law: a well-formed AVL tree of `n` keys has height
    /// at most `log_phi(n + 1)`, stated exactly through the Fibonacci
    /// sequence: `fib(height + 2) <= n + 1`.
    pub proof fn lemma_height_bound(self)
        requires
            self.wf(),
        ensures
            fib(self.spec_height() + 2) <= self.view().len() + 1,
    {
        lemma_avl_count(self.root);
        self.lemma_bst_order();
    }
}

} // verus!
