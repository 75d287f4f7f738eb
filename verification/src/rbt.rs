//! A red-black tree: a self-balancing binary search tree over `i64` keys.
//!
//! Each node carries a two-valued color.  The tree keeps the classic
//! invariants after every public operation: the root is black, no red node
//! has a red child, and every path from a node down to an absent child
//! passes the same number of black nodes (the node's black-height).
//! Mutations run as recursive descents; on the way back up a small signal
//! reports a pending red-red violation (insertion) or a missing black node
//! (removal), repaired by recoloring and at most two rotations per level.

use vstd::prelude::*;

verus! {

/// Node color.
#[derive(Clone, Copy, PartialEq, Eq, Structural)]
pub enum Color {
    Red,
    Black,
}

/// A node of the red-black tree, owning its children exclusively.
pub struct RbtNode {
    data: i64,
    left: Option<Box<RbtNode>>,
    right: Option<Box<RbtNode>>,
    color: Color,
}

/// A red-black-balanced ordered set of `i64` keys.
pub struct Rbt {
    root: Option<Box<RbtNode>>,
}

/// The set of keys stored in an optional subtree.
pub closed spec fn keys(opt: Option<Box<RbtNode>>) -> Set<i64>
    decreases opt,
{
    match opt {
        None => Set::empty(),
        Some(n) => n.keyset(),
    }
}

/// Number of nodes of an optional subtree.
pub closed spec fn count(opt: Option<Box<RbtNode>>) -> nat
    decreases opt,
{
    match opt {
        None => 0,
        Some(n) => n.node_count(),
    }
}

/// Binary-search-tree ordering of an optional subtree.
pub closed spec fn bst_ok(opt: Option<Box<RbtNode>>) -> bool
    decreases opt,
{
    match opt {
        None => true,
        Some(n) => n.bst_here(),
    }
}

/// In-order sequence of the keys of an optional subtree.
pub closed spec fn inorder(opt: Option<Box<RbtNode>>) -> Seq<i64>
    decreases opt,
{
    match opt {
        None => Seq::empty(),
        Some(n) => n.inorder_here(),
    }
}

/// The color of an optional subtree's root; absence counts as black.
pub closed spec fn color_of(opt: Option<Box<RbtNode>>) -> Color {
    match opt {
        None => Color::Black,
        Some(n) => n.color,
    }
}

/// Whether an optional subtree is black-rooted (absence counts as black).
pub closed spec fn is_black(opt: Option<Box<RbtNode>>) -> bool {
    color_of(opt) is Black
}

/// Black-height: the number of black nodes on the path down the left
/// spine (equal on every path when the tree is valid).
pub closed spec fn bh(opt: Option<Box<RbtNode>>) -> nat
    decreases opt,
{
    match opt {
        None => 0,
        Some(n) => n.black_height(),
    }
}

/// The red-black coloring invariant of an optional subtree: both children
/// valid with equal black-heights, and a red root has black-rooted
/// children.
pub closed spec fn rb_ok(opt: Option<Box<RbtNode>>) -> bool
    decreases opt,
{
    match opt {
        None => true,
        Some(n) => n.rb_here(),
    }
}

impl RbtNode {
    /// The set of keys stored in the subtree rooted at this node.
    pub closed spec fn keyset(self) -> Set<i64>
        decreases self,
    {
        keys(self.left).union(keys(self.right)).insert(self.data)
    }

    /// Number of nodes of the subtree rooted at this node.
    pub closed spec fn node_count(self) -> nat
        decreases self,
    {
        1 + count(self.left) + count(self.right)
    }

    /// BST ordering: all keys on the left are smaller, all keys on the
    /// right greater than this node's key, recursively.
    pub closed spec fn bst_here(self) -> bool
        decreases self,
    {
        &&& bst_ok(self.left)
        &&& bst_ok(self.right)
        &&& forall|x: i64| keys(self.left).contains(x) ==> x < self.data
        &&& forall|x: i64| keys(self.right).contains(x) ==> x > self.data
    }

    /// In-order sequence of the subtree rooted at this node.
    pub closed spec fn inorder_here(self) -> Seq<i64>
        decreases self,
    {
        inorder(self.left) + seq![self.data] + inorder(self.right)
    }

    /// Black-height of the subtree rooted at this node.
    pub closed spec fn black_height(self) -> nat
        decreases self,
    {
        bh(self.left) + if self.color is Black {
            1nat
        } else {
            0nat
        }
    }

    /// The coloring invariant at this node and below.
    pub closed spec fn rb_here(self) -> bool
        decreases self,
    {
        &&& rb_ok(self.left)
        &&& rb_ok(self.right)
        &&& bh(self.left) == bh(self.right)
        &&& (self.color is Red ==> is_black(self.left) && is_black(self.right))
    }

    /// The color of this node.
    pub closed spec fn spec_color(self) -> Color {
        self.color
    }

    /// A fresh red leaf holding `data` (insertion always starts red).
    pub fn new(data: i64) -> (r: RbtNode)
        ensures
            r.bst_here(),
            r.rb_here(),
            r.spec_color() is Red,
            r.black_height() == 0,
            r.keyset() == Set::empty().insert(data),
    {
        let r = RbtNode { data, left: None, right: None, color: Color::Red };
        proof {
            assert(r.keyset() =~= Set::empty().insert(data));
        }
        r
    }

    /// A fresh black leaf holding `data`.
    pub fn new_black(data: i64) -> (r: RbtNode)
        ensures
            r.bst_here(),
            r.rb_here(),
            r.spec_color() is Black,
            r.black_height() == 1,
            r.keyset() == Set::empty().insert(data),
    {
        let r = RbtNode { data, left: None, right: None, color: Color::Black };
        proof {
            assert(r.keyset() =~= Set::empty().insert(data));
        }
        r
    }
}

impl Rbt {
    /// The abstract contents: the set of keys currently stored.
    pub closed spec fn view(self) -> Set<i64> {
        keys(self.root)
    }

    /// Well-formedness: BST ordering, the coloring invariant, and a black
    /// root.
    pub closed spec fn wf(self) -> bool {
        bst_ok(self.root) && rb_ok(self.root) && is_black(self.root)
    }

    /// In-order sequence of the stored keys.
    pub closed spec fn spec_inorder(self) -> Seq<i64> {
        inorder(self.root)
    }

    /// Number of nodes stored in the tree.
    pub closed spec fn spec_count(self) -> nat {
        count(self.root)
    }

    /// An empty tree.
    pub fn new() -> (r: Rbt)
        ensures
            r.wf(),
            r.view() == Set::<i64>::empty(),
    {
        Rbt { root: None }
    }
}

/// Membership search in a BST-ordered subtree.
fn search_node(n: &Option<Box<RbtNode>>, item: i64) -> (r: bool)
    requires
        bst_ok(*n),
    ensures
        r == keys(*n).contains(item),
    decreases n,
{
    match n {
        None => false,
        Some(b) => {
            if item == b.data {
                true
            } else if item < b.data {
                proof {
                    assert(!keys(b.right).contains(item));
                }
                search_node(&b.left, item)
            } else {
                proof {
                    assert(!keys(b.left).contains(item));
                }
                search_node(&b.right, item)
            }
        },
    }
}

/// Search for a key that `cmp` reports `Equal` for, walking right on
/// `Greater` and left on `Less`.
fn search_by_node<F: Fn(&i64) -> core::cmp::Ordering>(
    n: &Option<Box<RbtNode>>,
    cmp: &F,
    Ghost(lo): Ghost<i64>,
    Ghost(hi): Ghost<i64>,
) -> (r: Option<i64>)
    requires
        bst_ok(*n),
        crate::keyorder::cmp_for_range(*cmp, lo, hi),
    ensures
        r matches Some(v) ==> keys(*n).contains(v) && lo <= v <= hi,
        r is None ==> forall|x: i64| keys(*n).contains(x) ==> !(lo <= x <= hi),
    decreases n,
{
    match n {
        None => {
            proof {
                assert(keys(*n) =~= Set::<i64>::empty());
            }
            None
        },
        Some(b) => {
            let o = cmp(&b.data);
            proof {
                assert(o == crate::keyorder::range_ordering_of(lo, hi, b.data));
            }
            match o {
                core::cmp::Ordering::Equal => Some(b.data),
                core::cmp::Ordering::Greater => {
                    let r = search_by_node(&b.right, cmp, Ghost(lo), Ghost(hi));
                    proof {
                        if r is None {
                            assert(keys(*n) == keys(b.left).union(keys(b.right)).insert(b.data));
                            assert forall|x: i64| keys(*n).contains(x) implies !(lo <= x <= hi) by {
                                if keys(b.left).contains(x) {
                                    assert(x < b.data && b.data < lo);
                                } else if x == b.data {
                                    assert(b.data < lo);
                                }
                            }
                        }
                    }
                    r
                },
                core::cmp::Ordering::Less => {
                    let r = search_by_node(&b.left, cmp, Ghost(lo), Ghost(hi));
                    proof {
                        if r is None {
                            assert(keys(*n) == keys(b.left).union(keys(b.right)).insert(b.data));
                            assert forall|x: i64| keys(*n).contains(x) implies !(lo <= x <= hi) by {
                                if keys(b.right).contains(x) {
                                    assert(x > b.data && b.data > hi);
                                } else if x == b.data {
                                    assert(b.data > hi);
                                }
                            }
                        }
                    }
                    r
                },
            }
        },
    }
}

impl Rbt {
    /// Whether `item` is stored in the tree.
    pub fn search(&self, item: &i64) -> (r: bool)
        requires
            self.wf(),
        ensures
            r == self.view().contains(*item),
    {
        search_node(&self.root, *item)
    }

    /// Search by a comparison closure; the closure must order candidates
    /// as some target band of keys does (see `keyorder::cmp_for_range`) —
    /// a full key is a one-key band, a partial key a wider one.  Returns a
    /// stored key the closure reports `Equal` for, or `None` if there is
    /// none; when exactly one stored key falls in the band, that key is
    /// the one returned.
    pub fn search_by<F: Fn(&i64) -> core::cmp::Ordering>(&self, cmp: F) -> (r: Option<i64>)
        requires
            self.wf(),
            exists|lo: i64, hi: i64| crate::keyorder::cmp_for_range(cmp, lo, hi),
        ensures
            exists|lo: i64, hi: i64|
                #[trigger] crate::keyorder::cmp_for_range(cmp, lo, hi) && (match r {
                    Some(v) => self.view().contains(v) && lo <= v <= hi,
                    None => forall|x: i64| self.view().contains(x) ==> !(lo <= x <= hi),
                }),
    {
        let ghost (lo, hi) = choose|lo: i64, hi: i64| crate::keyorder::cmp_for_range(cmp, lo, hi);
        search_by_node(&self.root, &cmp, Ghost(lo), Ghost(hi))
    }
}

/// Which child of `t`: the left for `-1`, the right for `1`.
spec fn child_of(t: RbtNode, which: int) -> Option<Box<RbtNode>> {
    if which == -1 {
        t.left
    } else {
        t.right
    }
}

/// The two subtrees differ at most in the color of their roots.
spec fn color_only(a: Option<Box<RbtNode>>, b: Option<Box<RbtNode>>) -> bool {
    &&& a is Some
    &&& b is Some
    &&& (b->0).data == (a->0).data
    &&& (b->0).left == (a->0).left
    &&& (b->0).right == (a->0).right
}

/// Changing only a root color leaves keys, order and BST ordering
/// untouched.
proof fn lemma_color_only(a: Option<Box<RbtNode>>, b: Option<Box<RbtNode>>)
    requires
        color_only(a, b),
    ensures
        keys(b) == keys(a),
        inorder(b) == inorder(a),
        count(b) == count(a),
        bst_ok(b) == bst_ok(a),
{
    let t = a->0;
    let r = b->0;
    assert(keys(a) == keys(t.left).union(keys(t.right)).insert(t.data));
    assert(keys(b) == keys(r.left).union(keys(r.right)).insert(r.data));
    assert(inorder(a) == inorder(t.left) + seq![t.data] + inorder(t.right));
    assert(inorder(b) == inorder(r.left) + seq![r.data] + inorder(r.right));
    assert(count(a) == 1 + count(t.left) + count(t.right));
    assert(count(b) == 1 + count(r.left) + count(r.right));
    assert(bst_ok(a) == t.bst_here());
    assert(bst_ok(b) == r.bst_here());
}

/// `b` is `a` with its color replaced by `c`.
spec fn same_but_color(a: RbtNode, b: RbtNode, c: Color) -> bool {
    b.data == a.data && b.left == a.left && b.right == a.right && b.color == c
}

/// Reset the color of the node itself (`which == 0`), of its left child
/// (`which == -1`) or of its right child (`which == 1`).
fn set_color(node: &mut Option<Box<RbtNode>>, which: i8, color: Color)
    requires
        (*old(node)) is Some,
        which == -1 || which == 0 || which == 1,
        which == -1 ==> ((*old(node))->0).left is Some,
        which == 1 ==> ((*old(node))->0).right is Some,
    ensures
        (*final(node)) is Some,
        keys(*final(node)) == keys(*old(node)),
        inorder(*final(node)) == inorder(*old(node)),
        bst_ok(*final(node)) == bst_ok(*old(node)),
        ({
            let t = (*old(node))->0;
            let r = (*final(node))->0;
            &&& (which == 0 ==> same_but_color(*t, *r, color))
            &&& (which == -1 ==> r.data == t.data && r.color == t.color && r.right == t.right
                && r.left is Some && same_but_color(*(t.left->0), *(r.left->0), color)
                && keys(r.left) == keys(t.left) && bst_ok(r.left) == bst_ok(t.left)
                && inorder(r.left) == inorder(t.left))
            &&& (which == 1 ==> r.data == t.data && r.color == t.color && r.left == t.left
                && r.right is Some && same_but_color(*(t.right->0), *(r.right->0), color)
                && keys(r.right) == keys(t.right) && bst_ok(r.right) == bst_ok(t.right)
                && inorder(r.right) == inorder(t.right))
        }),
{
    let mut t = node.take().unwrap();
    if which == -1 {
        let mut l = t.left.take().unwrap();
        l.color = color;
        t.left = Some(l);
    } else if which == 1 {
        let mut r = t.right.take().unwrap();
        r.color = color;
        t.right = Some(r);
    } else {
        t.color = color;
    }
    *node = Some(t);
    proof {
        let t0 = (*old(node))->0;
        let r0 = (*node)->0;
        if which == 0 {
            lemma_color_only(*old(node), *node);
        } else if which == -1 {
            lemma_color_only(t0.left, r0.left);
            assert(keys(*old(node)) == keys(t0.left).union(keys(t0.right)).insert(t0.data));
            assert(keys(*node) == keys(r0.left).union(keys(r0.right)).insert(r0.data));
            assert(inorder(*old(node)) == inorder(t0.left) + seq![t0.data] + inorder(t0.right));
            assert(inorder(*node) == inorder(r0.left) + seq![r0.data] + inorder(r0.right));
            assert(bst_ok(*old(node)) == t0.bst_here());
            assert(bst_ok(*node) == r0.bst_here());
        } else {
            lemma_color_only(t0.right, r0.right);
            assert(keys(*old(node)) == keys(t0.left).union(keys(t0.right)).insert(t0.data));
            assert(keys(*node) == keys(r0.left).union(keys(r0.right)).insert(r0.data));
            assert(inorder(*old(node)) == inorder(t0.left) + seq![t0.data] + inorder(t0.right));
            assert(inorder(*node) == inorder(r0.left) + seq![r0.data] + inorder(r0.right));
            assert(bst_ok(*old(node)) == t0.bst_here());
            assert(bst_ok(*node) == r0.bst_here());
        }
    }
}

/// The color found by walking `which` steps from the node: left for
/// negative, right for positive; absence reads black.
pub closed spec fn spec_color_at(n: Option<Box<RbtNode>>, which: int) -> Color
    decreases n,
{
    match n {
        None => Color::Black,
        Some(b) => if which == 0 {
            b.color
        } else if which > 0 {
            spec_color_at(b.right, which - 1)
        } else {
            spec_color_at(b.left, which + 1)
        },
    }
}

/// Read the color `which` steps away from the node: `0` the node itself,
/// negative down the left spine, positive down the right spine; absent
/// positions read black.
fn get_color(node: &Option<Box<RbtNode>>, which: i8) -> (r: Color)
    requires
        -2 <= which <= 2,
    ensures
        r == spec_color_at(*node, which as int),
    decreases node,
{
    match node {
        None => Color::Black,
        Some(b) => {
            if which == 0 {
                b.color
            } else if which > 0 {
                get_color(&b.right, which - 1)
            } else {
                get_color(&b.left, which + 1)
            }
        },
    }
}

/// Structural relation between a subtree and its right rotation.
spec fn rot_right_rel(a: Option<Box<RbtNode>>, b: Option<Box<RbtNode>>) -> bool {
    &&& a is Some
    &&& (a->0).left is Some
    &&& b is Some
    &&& ({
        let t = a->0;
        let l = t.left->0;
        let r = b->0;
        &&& r.data == l.data
        &&& r.color == l.color
        &&& r.left == l.left
        &&& r.right is Some
        &&& (r.right->0).data == t.data
        &&& (r.right->0).color == t.color
        &&& (r.right->0).left == l.right
        &&& (r.right->0).right == t.right
    })
}

/// Structural relation between a subtree and its left rotation.
spec fn rot_left_rel(a: Option<Box<RbtNode>>, b: Option<Box<RbtNode>>) -> bool {
    &&& a is Some
    &&& (a->0).right is Some
    &&& b is Some
    &&& ({
        let t = a->0;
        let g = t.right->0;
        let r = b->0;
        &&& r.data == g.data
        &&& r.color == g.color
        &&& r.right == g.right
        &&& r.left is Some
        &&& (r.left->0).data == t.data
        &&& (r.left->0).color == t.color
        &&& (r.left->0).right == g.left
        &&& (r.left->0).left == t.left
    })
}

/// A right rotation preserves the key set, the in-order sequence and the
/// BST ordering.
proof fn lemma_rot_right(a: Option<Box<RbtNode>>, b: Option<Box<RbtNode>>)
    requires
        rot_right_rel(a, b),
    ensures
        keys(b) == keys(a),
        inorder(b) == inorder(a),
        bst_ok(a) ==> bst_ok(b),
{
    let t = a->0;
    let l = t.left->0;
    let r = b->0;
    let rr = r.right->0;
    assert(keys(a) == keys(t.left).union(keys(t.right)).insert(t.data));
    assert(keys(t.left) == keys(l.left).union(keys(l.right)).insert(l.data));
    assert(keys(b) == keys(r.left).union(keys(r.right)).insert(r.data));
    assert(keys(r.right) == keys(l.right).union(keys(t.right)).insert(t.data));
    assert(keys(b) =~= keys(a));
    assert(inorder(a) == inorder(t.left) + seq![t.data] + inorder(t.right));
    assert(inorder(t.left) == inorder(l.left) + seq![l.data] + inorder(l.right));
    assert(inorder(b) == inorder(r.left) + seq![r.data] + inorder(r.right));
    assert(inorder(r.right) == inorder(l.right) + seq![t.data] + inorder(t.right));
    assert(inorder(b) =~= inorder(a));
    if bst_ok(a) {
        assert(t.bst_here());
        assert(l.bst_here());
        assert(forall|x: i64| keys(l.right).contains(x) ==> keys(t.left).contains(x));
        assert(keys(t.left).contains(l.data));
        assert(rr.bst_here());
        assert(forall|x: i64|
            keys(r.right).contains(x) ==> (x == t.data || keys(l.right).contains(x)
                || keys(t.right).contains(x)));
        assert(r.bst_here());
    }
}

/// A left rotation: the mirror image of `lemma_rot_right`.
proof fn lemma_rot_left(a: Option<Box<RbtNode>>, b: Option<Box<RbtNode>>)
    requires
        rot_left_rel(a, b),
    ensures
        keys(b) == keys(a),
        inorder(b) == inorder(a),
        bst_ok(a) ==> bst_ok(b),
{
    let t = a->0;
    let g = t.right->0;
    let r = b->0;
    let rl = r.left->0;
    assert(keys(a) == keys(t.left).union(keys(t.right)).insert(t.data));
    assert(keys(t.right) == keys(g.left).union(keys(g.right)).insert(g.data));
    assert(keys(b) == keys(r.left).union(keys(r.right)).insert(r.data));
    assert(keys(r.left) == keys(t.left).union(keys(g.left)).insert(t.data));
    assert(keys(b) =~= keys(a));
    assert(inorder(a) == inorder(t.left) + seq![t.data] + inorder(t.right));
    assert(inorder(t.right) == inorder(g.left) + seq![g.data] + inorder(g.right));
    assert(inorder(b) == inorder(r.left) + seq![r.data] + inorder(r.right));
    assert(inorder(r.left) == inorder(t.left) + seq![t.data] + inorder(g.left));
    assert(inorder(b) =~= inorder(a));
    if bst_ok(a) {
        assert(t.bst_here());
        assert(g.bst_here());
        assert(forall|x: i64| keys(g.left).contains(x) ==> keys(t.right).contains(x));
        assert(keys(t.right).contains(g.data));
        assert(rl.bst_here());
        assert(forall|x: i64|
            keys(r.left).contains(x) ==> (x == t.data || keys(t.left).contains(x)
                || keys(g.left).contains(x)));
        assert(r.bst_here());
    }
}

/// Rotate right without touching colors.
fn rotate_right(top: &mut Option<Box<RbtNode>>)
    requires
        (*old(top)) is Some,
        ((*old(top))->0).left is Some,
    ensures
        rot_right_rel(*old(top), *final(top)),
{
    let mut t = top.take().unwrap();
    let mut l = t.left.take().unwrap();
    t.left = l.right.take();
    l.right = Some(t);
    *top = Some(l);
}

/// Rotate left without touching colors.
fn rotate_left(top: &mut Option<Box<RbtNode>>)
    requires
        (*old(top)) is Some,
        ((*old(top))->0).right is Some,
    ensures
        rot_left_rel(*old(top), *final(top)),
{
    let mut t = top.take().unwrap();
    let mut g = t.right.take().unwrap();
    t.right = g.left.take();
    g.left = Some(t);
    *top = Some(g);
}

/// One step of insertion repair still pending: a red root with exactly one
/// red-rooted child, both children internally valid with equal
/// black-heights.
spec fn almost_rb(n: Option<Box<RbtNode>>) -> bool {
    &&& n is Some
    &&& (n->0).color is Red
    &&& rb_ok((n->0).left)
    &&& rb_ok((n->0).right)
    &&& bh((n->0).left) == bh((n->0).right)
    &&& (is_black((n->0).left) != is_black((n->0).right))
}

/// Repair a pending red-red violation after an insertion into the `which`
/// child.  `count` is the signal from below: 0 nothing pending, 1 the
/// child subtree is valid but red-rooted, 2 the child holds a red-red
/// pair.  Returns the same kind of signal for this subtree.
fn backtrace_insert(node: &mut Option<Box<RbtNode>>, which: i8, count: i8) -> (c: i8)
    requires
        ({
            let t = (*old(node))->0;
            let ch = child_of(*t, which as int);
            let o = child_of(*t, -which as int);
            &&& (*old(node)) is Some
            &&& (which == 1 || which == -1)
            &&& (count == 0 || count == 1 || count == 2)
            &&& bst_ok(*old(node))
            &&& rb_ok(o)
            &&& bh(ch) == bh(o)
            &&& (count == 0 ==> rb_ok(ch) && (t.color is Red ==> is_black(ch) && is_black(o)))
            &&& (count == 1 ==> rb_ok(ch) && !is_black(ch) && (t.color is Red ==> is_black(o)))
            &&& (count == 2 ==> almost_rb(ch) && t.color is Black)
        }),
    ensures
        ({
            let t = (*old(node))->0;
            &&& (*final(node)) is Some
            &&& bst_ok(*final(node))
            &&& keys(*final(node)) == keys(*old(node))
            &&& inorder(*final(node)) == inorder(*old(node))
            &&& bh(*final(node)) == bh(*old(node))
            &&& (c == 0 || c == 1 || c == 2)
            &&& (c == 0 ==> rb_ok(*final(node)) && (is_black(*final(node))
                || color_of(*final(node)) == t.color))
            &&& (c == 1 ==> rb_ok(*final(node)) && !is_black(*final(node)))
            &&& (c == 2 ==> almost_rb(*final(node)) && t.color is Red
                && color_of(*final(node)) is Red)
            &&& (count == 0 ==> c == 0 && *final(node) == *old(node))
            &&& (count == 1 ==> *final(node) == *old(node) && (c == 2 <==> t.color is Red))
            &&& (count == 2 && !is_black(child_of(*t, -which as int)) ==> ({
                // red uncle: recolor only, hand the check one level up
                let f = (*final(node))->0;
                &&& c == 1
                &&& f.data == t.data
                &&& f.color is Red
                &&& t.left is Some && t.right is Some && f.left is Some && f.right is Some
                &&& same_but_color(*(t.left->0), *(f.left->0), Color::Black)
                &&& same_but_color(*(t.right->0), *(f.right->0), Color::Black)
            }))
            &&& (count == 2 && is_black(child_of(*t, -which as int)) ==> ({
                // black uncle: one or two rotations leave a black top
                // whose inner child is red, and the repair is finished
                let f = (*final(node))->0;
                &&& c == 0
                &&& f.color is Black
                &&& !is_black(child_of(*f, -which as int))
            }))
        }),
{
    if count == 0 {
        proof {
            let t = (*old(node))->0;
            assert(t.rb_here());
        }
        0
    } else if count == 2 {
        let oc = get_color(node, -which);
        proof {
            let t = (*old(node))->0;
            let o = child_of(*t, -which as int);
            if which == 1 {
                assert(spec_color_at(*old(node), -1) == spec_color_at(t.left, 0));
                assert(spec_color_at(t.left, 0) == color_of(t.left));
            } else {
                assert(spec_color_at(*old(node), 1) == spec_color_at(t.right, 0));
                assert(spec_color_at(t.right, 0) == color_of(t.right));
            }
            assert(oc == color_of(o));
        }
        if matches!(oc, Color::Red) {
            // Both children of a black node are red: recolor and hand the
            // red-red check one level up.
            set_color(node, 0, Color::Red);
            set_color(node, -1, Color::Black);
            set_color(node, 1, Color::Black);
            proof {
                let f = (*node)->0;
                assert((f.left->0).rb_here());
                assert((f.right->0).rb_here());
                assert(f.rb_here());
            }
            1
        } else {
            let inner_red = matches!(get_color(node, 2 * which), Color::Black);
            proof {
                let t = (*old(node))->0;
                let ch = child_of(*t, which as int);
                if which == 1 {
                    assert(spec_color_at(*old(node), 2) == spec_color_at(t.right, 1));
                    assert(spec_color_at(t.right, 1) == spec_color_at((t.right->0).right, 0));
                    assert(spec_color_at((t.right->0).right, 0) == color_of((ch->0).right));
                } else {
                    assert(spec_color_at(*old(node), -2) == spec_color_at(t.left, -1));
                    assert(spec_color_at(t.left, -1) == spec_color_at((t.left->0).left, 0));
                    assert(spec_color_at((t.left->0).left, 0) == color_of((ch->0).left));
                }
            }
            if !inner_red {
                // The red grandchild is on the outside: single rotation.
                if which == 1 {
                    rotate_left(node);
                    proof {
                        lemma_rot_left(*old(node), *node);
                    }
                } else {
                    rotate_right(node);
                    proof {
                        lemma_rot_right(*old(node), *node);
                    }
                }
            } else {
                // The red grandchild is on the inside: double rotation.
                let mut t = node.take().unwrap();
                if which == 1 {
                    let ghost pre_child = t.right;
                    rotate_right(&mut t.right);
                    proof {
                        lemma_rot_right(pre_child, t.right);
                    }
                    *node = Some(t);
                    let ghost mid = *node;
                    proof {
                        let t0 = (*old(node))->0;
                        let m = mid->0;
                        assert(keys(mid) == keys(m.left).union(keys(m.right)).insert(m.data));
                        assert(keys(*old(node)) == keys(t0.left).union(keys(t0.right)).insert(
                            t0.data));
                        assert(keys(mid) =~= keys(*old(node)));
                        assert(inorder(mid) == inorder(m.left) + seq![m.data] + inorder(m.right));
                        assert(inorder(*old(node)) == inorder(t0.left) + seq![t0.data] + inorder(
                            t0.right));
                        assert(inorder(mid) =~= inorder(*old(node)));
                        assert(m.bst_here());
                    }
                    rotate_left(node);
                    proof {
                        lemma_rot_left(mid, *node);
                    }
                } else {
                    let ghost pre_child = t.left;
                    rotate_left(&mut t.left);
                    proof {
                        lemma_rot_left(pre_child, t.left);
                    }
                    *node = Some(t);
                    let ghost mid = *node;
                    proof {
                        let t0 = (*old(node))->0;
                        let m = mid->0;
                        assert(keys(mid) == keys(m.left).union(keys(m.right)).insert(m.data));
                        assert(keys(*old(node)) == keys(t0.left).union(keys(t0.right)).insert(
                            t0.data));
                        assert(keys(mid) =~= keys(*old(node)));
                        assert(inorder(mid) == inorder(m.left) + seq![m.data] + inorder(m.right));
                        assert(inorder(*old(node)) == inorder(t0.left) + seq![t0.data] + inorder(
                            t0.right));
                        assert(inorder(mid) =~= inorder(*old(node)));
                        assert(m.bst_here());
                    }
                    rotate_right(node);
                    proof {
                        lemma_rot_right(mid, *node);
                    }
                }
            }
            set_color(node, 0, Color::Black);
            set_color(node, -which, Color::Red);
            proof {
                let f = (*node)->0;
                assert(f.left is Some && f.right is Some);
                assert((f.left->0).rb_here());
                assert((f.right->0).rb_here());
                assert(f.rb_here());
            }
            0
        }
    } else {
        let black = matches!(node.as_ref().unwrap().color, Color::Black);
        proof {
            let t = (*old(node))->0;
            if black {
                assert(t.rb_here());
            }
        }
        if black {
            0
        } else {
            2
        }
    }
}

/// Insert `item` into a valid subtree; returns the repair signal for the
/// parent (0 settled, 1 valid but red-rooted, 2 red-red pending) and
/// whether a new node was created (false exactly when the key was already
/// present, in which case the subtree is left unchanged).
fn insert_rec(node: &mut Option<Box<RbtNode>>, item: i64) -> (r: (i8, bool))
    requires
        bst_ok(*old(node)),
        rb_ok(*old(node)),
    ensures
        bst_ok(*final(node)),
        keys(*final(node)) == keys(*old(node)).insert(item),
        r.1 == !keys(*old(node)).contains(item),
        bh(*final(node)) == bh(*old(node)),
        r.0 == 0 || r.0 == 1 || r.0 == 2,
        r.0 == 0 ==> rb_ok(*final(node)) && (is_black(*final(node)) || color_of(*final(node))
            == color_of(*old(node))),
        r.0 == 1 ==> rb_ok(*final(node)) && !is_black(*final(node)),
        r.0 == 2 ==> almost_rb(*final(node)) && color_of(*old(node)) is Red
            && color_of(*final(node)) is Red,
        !r.1 ==> r.0 == 0,
    decreases *old(node),
{
    match node.take() {
        None => {
            *node = Some(Box::new(RbtNode::new(item)));
            proof {
                assert(keys(*node) =~= keys(*old(node)).insert(item));
            }
            (1, true)
        },
        Some(mut b) => {
            proof {
                assert(b.bst_here());
                assert(b.rb_here());
            }
            if item == b.data {
                *node = Some(b);
                proof {
                    let f = (*node)->0;
                    assert(f.bst_here() && f.rb_here());
                    assert(keys(*node).contains(item));
                    assert(keys(*node) =~= keys(*node).insert(item));
                }
                (0, false)
            } else if item > b.data {
                let (count, succeed) = insert_rec(&mut b.right, item);
                *node = Some(b);
                proof {
                    let f = (*node)->0;
                    assert(keys(*node) == keys(f.left).union(keys(f.right)).insert(f.data));
                    assert(keys(*node) =~= keys(*old(node)).insert(item));
                    assert(f.bst_here());
                }
                let count2 = backtrace_insert(node, 1, count);
                proof {
                    assert(keys(*node) =~= keys(*old(node)).insert(item));
                }
                (count2, succeed)
            } else {
                let (count, succeed) = insert_rec(&mut b.left, item);
                *node = Some(b);
                proof {
                    let f = (*node)->0;
                    assert(keys(*node) == keys(f.left).union(keys(f.right)).insert(f.data));
                    assert(keys(*node) =~= keys(*old(node)).insert(item));
                    assert(f.bst_here());
                }
                let count2 = backtrace_insert(node, -1, count);
                proof {
                    assert(keys(*node) =~= keys(*old(node)).insert(item));
                }
                (count2, succeed)
            }
        },
    }
}

impl Rbt {
    /// Insert `item`; returns false and leaves the tree unchanged if an
    /// equal key is already stored, true after inserting a new node.
    pub fn insert(&mut self, item: i64) -> (r: bool)
        requires
            old(self).wf(),
        ensures
            final(self).wf(),
            final(self).view() == old(self).view().insert(item),
            r == !old(self).view().contains(item),
    {
        let (count, ret) = insert_rec(&mut self.root, item);
        proof {
            assert(count != 2);
        }
        if count == 1 {
            set_color(&mut self.root, 0, Color::Black);
            proof {
                let f = self.root->0;
                assert(f.rb_here());
            }
        }
        ret
    }
}

/// Repair a subtree whose `which` child has lost one black node on every
/// path (`count == -1`; `count == 0` means nothing is pending).  Returns 0
/// when the deficit is absorbed here, -1 when this whole subtree is now
/// short one black node and the parent must continue.
///
/// A red sibling is first rotated up (case 1); the deficit then sits under
/// a red parent with a black sibling and is settled locally by one more
/// step, so the repair never climbs from there.
fn backtrace_remove(node: &mut Option<Box<RbtNode>>, which: i8, count: i8) -> (c: i8)
    requires
        ({
            let t = (*old(node))->0;
            let d = child_of(*t, which as int);
            let o = child_of(*t, -which as int);
            &&& (*old(node)) is Some
            &&& (which == 1 || which == -1)
            &&& (count == 0 || count == -1)
            &&& bst_ok(*old(node))
            &&& rb_ok(d)
            &&& rb_ok(o)
            &&& (t.color is Red ==> is_black(d) && is_black(o))
            &&& (count == 0 ==> bh(d) == bh(o))
            &&& (count == -1 ==> bh(d) + 1 == bh(o) && is_black(d))
        }),
    ensures
        ({
            let t = (*old(node))->0;
            let o = child_of(*t, -which as int);
            let target = bh(o) + if t.color is Black {
                1int
            } else {
                0int
            };
            &&& (*final(node)) is Some
            &&& bst_ok(*final(node))
            &&& keys(*final(node)) == keys(*old(node))
            &&& inorder(*final(node)) == inorder(*old(node))
            &&& (c == 0 || c == -1)
            &&& (count == 0 ==> c == 0 && *final(node) == *old(node))
            &&& (t.color is Red ==> c == 0)
            &&& (c == 0 ==> rb_ok(*final(node)) && bh(*final(node)) as int == target && (is_black(
                *final(node)) || color_of(*final(node)) == t.color))
            &&& (c == -1 ==> rb_ok(*final(node)) && bh(*final(node)) as int == target - 1
                && is_black(*final(node)))
            &&& (c == -1 ==> ({
                // the deficit climbs only out of the all-black case: node,
                // sibling and both nephews black, and the repair was
                // nothing but painting the sibling red
                let f = (*final(node))->0;
                &&& t.color is Black
                &&& o is Some
                &&& (o->0).color is Black
                &&& is_black((o->0).left) && is_black((o->0).right)
                &&& f.data == t.data
                &&& f.color == t.color
                &&& child_of(*f, which as int) == child_of(*t, which as int)
                &&& child_of(*f, -which as int) is Some
                &&& same_but_color(*(o->0), *(child_of(*f, -which as int)->0), Color::Red)
            }))
        }),
    decreases (if is_black(child_of(*((*old(node))->0), -which as int)) {
        0int
    } else {
        1int
    }),
{
    if count == 0 {
        proof {
            let t = (*old(node))->0;
            assert(t.rb_here());
        }
        return 0;
    }
    let c0 = get_color(node, 0);
    let oc = get_color(node, -which);
    proof {
        let t = (*old(node))->0;
        if which == 1 {
            assert(spec_color_at(*old(node), -1) == spec_color_at(t.left, 0));
            assert(spec_color_at(t.left, 0) == color_of(t.left));
        } else {
            assert(spec_color_at(*old(node), 1) == spec_color_at(t.right, 0));
            assert(spec_color_at(t.right, 0) == color_of(t.right));
        }
        assert(c0 == t.color);
        assert(oc == color_of(child_of(*t, -which as int)));
    }
    if matches!(oc, Color::Red) {
        // Case 1: red sibling.  Rotate it up, recolor, and settle the
        // deficit under the new red parent.
        proof {
            let t = (*old(node))->0;
            let o = child_of(*t, -which as int);
            assert((o->0).rb_here());
        }
        let ghost pre = *node;
        if which == 1 {
            rotate_right(node);
            proof {
                lemma_rot_right(pre, *node);
            }
        } else {
            rotate_left(node);
            proof {
                lemma_rot_left(pre, *node);
            }
        }
        set_color(node, 0, Color::Black);
        set_color(node, which, Color::Red);
        let ghost mid = *node;
        let mut t = node.take().unwrap();
        let c_inner = if which == 1 {
            backtrace_remove(&mut t.right, which, -1)
        } else {
            backtrace_remove(&mut t.left, which, -1)
        };
        *node = Some(t);
        proof {
            assert(c_inner == 0);
            let f = (*node)->0;
            let m = mid->0;
            assert(keys(mid) == keys(m.left).union(keys(m.right)).insert(m.data));
            assert(keys(*node) == keys(f.left).union(keys(f.right)).insert(f.data));
            assert(keys(*node) =~= keys(*old(node)));
            assert(inorder(mid) == inorder(m.left) + seq![m.data] + inorder(m.right));
            assert(inorder(*node) == inorder(f.left) + seq![f.data] + inorder(f.right));
            assert(inorder(*node) =~= inorder(*old(node)));
            assert(f.bst_here());
            assert(f.rb_here());
        }
        0
    } else {
        let far = get_color(node, -2 * which);
        proof {
            let t = (*old(node))->0;
            if which == 1 {
                assert(spec_color_at(*old(node), -2) == spec_color_at(t.left, -1));
                assert(spec_color_at(t.left, -1) == spec_color_at((t.left->0).left, 0));
            } else {
                assert(spec_color_at(*old(node), 2) == spec_color_at(t.right, 1));
                assert(spec_color_at(t.right, 1) == spec_color_at((t.right->0).right, 0));
            }
            let o = child_of(*t, -which as int);
            assert((o->0).rb_here());
        }
        if matches!(far, Color::Red) {
            // Case 2: the far (outer) nephew is red: one rotation and a
            // recoloring absorb the deficit.
            let ghost pre = *node;
            if which == 1 {
                rotate_right(node);
                proof {
                    lemma_rot_right(pre, *node);
                }
            } else {
                rotate_left(node);
                proof {
                    lemma_rot_left(pre, *node);
                }
            }
            set_color(node, 0, c0);
            set_color(node, -1, Color::Black);
            set_color(node, 1, Color::Black);
            proof {
                let t = (*old(node))->0;
                let o = child_of(*t, -which as int);
                let on = o->0;
                assert(on.rb_here());
                if which == 1 {
                    assert(!is_black(on.left));
                    assert((on.left->0).rb_here());
                } else {
                    assert(!is_black(on.right));
                    assert((on.right->0).rb_here());
                }
                let f = (*node)->0;
                assert((f.left->0).rb_here());
                assert((f.right->0).rb_here());
                assert(f.rb_here());
            }
            0
        } else {
            let near = if which == 1 {
                get_color(&node.as_ref().unwrap().left.as_ref().unwrap().right, 0)
            } else {
                get_color(&node.as_ref().unwrap().right.as_ref().unwrap().left, 0)
            };
            proof {
                let t = (*old(node))->0;
                let o = child_of(*t, -which as int);
                if which == 1 {
                    assert(near == color_of((o->0).right));
                } else {
                    assert(near == color_of((o->0).left));
                }
            }
            if matches!(near, Color::Red) {
                // Case 3: the near (inner) nephew is red: double rotation.
                let mut t = node.take().unwrap();
                if which == 1 {
                    let ghost pre_child = t.left;
                    rotate_left(&mut t.left);
                    proof {
                        lemma_rot_left(pre_child, t.left);
                    }
                } else {
                    let ghost pre_child = t.right;
                    rotate_right(&mut t.right);
                    proof {
                        lemma_rot_right(pre_child, t.right);
                    }
                }
                *node = Some(t);
                let ghost mid = *node;
                proof {
                    let t0 = (*old(node))->0;
                    let m = mid->0;
                    assert(keys(mid) == keys(m.left).union(keys(m.right)).insert(m.data));
                    assert(keys(*old(node)) == keys(t0.left).union(keys(t0.right)).insert(t0.data));
                    assert(keys(mid) =~= keys(*old(node)));
                    assert(inorder(mid) == inorder(m.left) + seq![m.data] + inorder(m.right));
                    assert(inorder(*old(node)) == inorder(t0.left) + seq![t0.data] + inorder(
                        t0.right));
                    assert(inorder(mid) =~= inorder(*old(node)));
                    assert(m.bst_here());
                }
                if which == 1 {
                    rotate_right(node);
                    proof {
                        lemma_rot_right(mid, *node);
                    }
                } else {
                    rotate_left(node);
                    proof {
                        lemma_rot_left(mid, *node);
                    }
                }
                set_color(node, 0, c0);
                set_color(node, -1, Color::Black);
                set_color(node, 1, Color::Black);
                proof {
                    let t0 = (*old(node))->0;
                    let o = child_of(*t0, -which as int);
                    let on = o->0;
                    assert(on.rb_here());
                    if which == 1 {
                        assert(!is_black(on.right));
                        assert((on.right->0).rb_here());
                    } else {
                        assert(!is_black(on.left));
                        assert((on.left->0).rb_here());
                    }
                    let f = (*node)->0;
                    assert((f.left->0).rb_here());
                    assert((f.right->0).rb_here());
                    assert(f.rb_here());
                }
                0
            } else if matches!(c0, Color::Red) {
                // Case 4: red parent, black sibling, black nephews:
                // recoloring alone restores the black counts.
                set_color(node, 0, Color::Black);
                set_color(node, -which, Color::Red);
                proof {
                    let f = (*node)->0;
                    let t = (*old(node))->0;
                    let o = child_of(*t, -which as int);
                    assert((o->0).rb_here());
                    if which == 1 {
                        assert((f.left->0).rb_here());
                    } else {
                        assert((f.right->0).rb_here());
                    }
                    assert(f.rb_here());
                }
                0
            } else {
                // Case 5: everything black: paint the sibling red and
                // pass the deficit to the parent.
                set_color(node, -which, Color::Red);
                proof {
                    let f = (*node)->0;
                    let t = (*old(node))->0;
                    let o = child_of(*t, -which as int);
                    assert((o->0).rb_here());
                    if which == 1 {
                        assert((f.left->0).rb_here());
                    } else {
                        assert((f.right->0).rb_here());
                    }
                    assert(f.rb_here());
                }
                -1
            }
        }
    }
}

/// Remove the rightmost (greatest) node of a nonempty valid subtree and
/// return its key together with the black-deficit signal (`-1` or `0`).
fn remove_right_most_rec(node: &mut Option<Box<RbtNode>>) -> (r: (i8, i64))
    requires
        (*old(node)) is Some,
        bst_ok(*old(node)),
        rb_ok(*old(node)),
    ensures
        bst_ok(*final(node)),
        keys(*old(node)).contains(r.1),
        keys(*final(node)) == keys(*old(node)).remove(r.1),
        forall|x: i64| keys(*old(node)).contains(x) ==> x <= r.1,
        r.0 == -1 || r.0 == 0,
        r.0 == 0 ==> rb_ok(*final(node)) && bh(*final(node)) == bh(*old(node)) && (is_black(
            *final(node)) || color_of(*final(node)) == color_of(*old(node))),
        r.0 == -1 ==> rb_ok(*final(node)) && bh(*final(node)) + 1 == bh(*old(node)) && is_black(
            *final(node)),
    decreases *old(node),
{
    let mut b = node.take().unwrap();
    proof {
        assert(b.bst_here());
        assert(b.rb_here());
    }
    if b.right.is_some() {
        let (delta, ret) = remove_right_most_rec(&mut b.right);
        *node = Some(b);
        proof {
            let f = (*node)->0;
            assert(keys(*node) == keys(f.left).union(keys(f.right)).insert(f.data));
            assert(keys(*old(node)).contains(ret));
            assert(keys(*node) =~= keys(*old(node)).remove(ret));
            assert(f.bst_here());
        }
        let c = backtrace_remove(node, 1, delta);
        proof {
            assert(keys(*node) =~= keys(*old(node)).remove(ret));
        }
        (c, ret)
    } else {
        let left_child = b.left.take();
        proof {
            assert(keys(b.right) =~= Set::<i64>::empty());
            assert(bh(b.right) == 0);
            assert(!keys(left_child).contains(b.data));
        }
        if matches!(b.color, Color::Black) {
            if left_child.is_some() {
                proof {
                    let l = left_child->0;
                    assert(l.rb_here());
                    if l.color is Black {
                        assert(bh(left_child) >= 1);
                        assert(false);
                    }
                    if l.left is Some {
                        assert((l.left->0).rb_here());
                        assert(bh(l.left) >= 1 || !is_black(l.left));
                        assert(false);
                    }
                    if l.right is Some {
                        assert((l.right->0).rb_here());
                        assert(bh(l.right) >= 1 || !is_black(l.right));
                        assert(false);
                    }
                }
                *node = left_child;
                set_color(node, 0, Color::Black);
                proof {
                    assert(keys(*node) =~= keys(*old(node)).remove(b.data));
                    assert(((*node)->0).rb_here());
                }
                (0, b.data)
            } else {
                *node = None;
                proof {
                    assert(keys(*node) =~= keys(*old(node)).remove(b.data));
                }
                (-1, b.data)
            }
        } else {
            proof {
                if left_child is Some {
                    let l = left_child->0;
                    assert(l.rb_here());
                    assert(is_black(left_child));
                    assert(bh(left_child) >= 1);
                    assert(false);
                }
            }
            *node = None;
            proof {
                assert(keys(*node) =~= keys(*old(node)).remove(b.data));
            }
            (0, b.data)
        }
    }
}

/// Remove the key that the comparison closure reports `Equal` for; `cmp`
/// must order candidates exactly as the target band `[lo, hi]` does.
fn remove_by_rec<F: Fn(&i64) -> core::cmp::Ordering>(
    node: &mut Option<Box<RbtNode>>,
    cmp: &F,
    Ghost(lo): Ghost<i64>,
    Ghost(hi): Ghost<i64>,
) -> (r: (i8, Option<i64>))
    requires
        bst_ok(*old(node)),
        rb_ok(*old(node)),
        crate::keyorder::cmp_for_range(*cmp, lo, hi),
    ensures
        bst_ok(*final(node)),
        r.1 matches Some(v) ==> keys(*old(node)).contains(v) && lo <= v <= hi && keys(
            *final(node),
        ) == keys(*old(node)).remove(v),
        r.1 is None ==> keys(*final(node)) == keys(*old(node)) && (forall|x: i64|
            keys(*old(node)).contains(x) ==> !(lo <= x <= hi)),
        r.0 == -1 || r.0 == 0,
        r.0 == 0 ==> rb_ok(*final(node)) && bh(*final(node)) == bh(*old(node)) && (is_black(
            *final(node)) || color_of(*final(node)) == color_of(*old(node))),
        r.0 == -1 ==> rb_ok(*final(node)) && bh(*final(node)) + 1 == bh(*old(node)) && is_black(
            *final(node)),
    decreases *old(node),
{
    match node.take() {
        None => {
            *node = None;
            proof {
                assert(keys(*node) =~= Set::<i64>::empty());
            }
            (0, None)
        },
        Some(mut b) => {
            proof {
                assert(b.bst_here());
                assert(b.rb_here());
            }
            let o = cmp(&b.data);
            proof {
                assert(o == crate::keyorder::range_ordering_of(lo, hi, b.data));
            }
            match o {
                core::cmp::Ordering::Equal => {
                    if b.left.is_none() {
                        proof {
                            assert(keys(b.left) =~= Set::<i64>::empty());
                            assert(bh(b.left) == 0);
                        }
                        if b.right.is_none() {
                            *node = None;
                            proof {
                                assert(keys(b.right) =~= Set::<i64>::empty());
                                assert(keys(*old(node)) =~= Set::<i64>::empty().insert(b.data));
                                assert(keys(*node) =~= keys(*old(node)).remove(b.data));
                            }
                            if matches!(b.color, Color::Black) {
                                (-1, Some(b.data))
                            } else {
                                (0, Some(b.data))
                            }
                        } else {
                            proof {
                                let rc = b.right->0;
                                assert(rc.rb_here());
                                if rc.color is Black {
                                    assert(bh(b.right) >= 1);
                                    assert(false);
                                }
                                if b.color is Red {
                                    assert(false);
                                }
                                if rc.left is Some {
                                    assert((rc.left->0).rb_here());
                                    assert(bh(rc.left) >= 1 || !is_black(rc.left));
                                    assert(false);
                                }
                                if rc.right is Some {
                                    assert((rc.right->0).rb_here());
                                    assert(bh(rc.right) >= 1 || !is_black(rc.right));
                                    assert(false);
                                }
                            }
                            let right = b.right.take();
                            *node = right;
                            set_color(node, 0, Color::Black);
                            proof {
                                assert(!keys(right).contains(b.data));
                                assert(keys(*node) =~= keys(*old(node)).remove(b.data));
                                assert(((*node)->0).rb_here());
                            }
                            (0, Some(b.data))
                        }
                    } else {
                        let (delta, pred) = remove_right_most_rec(&mut b.left);
                        let out = b.data;
                        b.data = pred;
                        *node = Some(b);
                        proof {
                            let f = (*node)->0;
                            assert(keys(*node) == keys(f.left).union(keys(f.right)).insert(f.data));
                            assert(pred < out);
                            assert(forall|x: i64| keys(f.left).contains(x) ==> x < pred);
                            assert(f.bst_here());
                            assert(keys(*node) =~= keys(*old(node)).remove(out));
                        }
                        let c = backtrace_remove(node, -1, delta);
                        proof {
                            assert(keys(*node) =~= keys(*old(node)).remove(out));
                        }
                        (c, Some(out))
                    }
                },
                core::cmp::Ordering::Greater => {
                    // every key of the band lies to the right
                    let (delta, ret) = remove_by_rec(&mut b.right, cmp, Ghost(lo), Ghost(hi));
                    *node = Some(b);
                    proof {
                        let f = (*node)->0;
                        assert(keys(*node) == keys(f.left).union(keys(f.right)).insert(f.data));
                        assert(f.bst_here());
                        if ret is Some {
                            let v = ret->0;
                            assert(v >= lo);
                            assert(!keys(f.left).contains(v) && v != f.data);
                            assert(keys(*node) =~= keys(*old(node)).remove(v));
                        } else {
                            assert(keys(*node) =~= keys(*old(node)));
                        }
                    }
                    let ghost mid = *node;
                    let c = backtrace_remove(node, 1, delta);
                    proof {
                        assert(keys(*node) == keys(mid));
                    }
                    (c, ret)
                },
                core::cmp::Ordering::Less => {
                    // every key of the band lies to the left
                    let (delta, ret) = remove_by_rec(&mut b.left, cmp, Ghost(lo), Ghost(hi));
                    *node = Some(b);
                    proof {
                        let f = (*node)->0;
                        assert(keys(*node) == keys(f.left).union(keys(f.right)).insert(f.data));
                        assert(f.bst_here());
                        if ret is Some {
                            let v = ret->0;
                            assert(v <= hi);
                            assert(!keys(f.right).contains(v) && v != f.data);
                            assert(keys(*node) =~= keys(*old(node)).remove(v));
                        } else {
                            assert(keys(*node) =~= keys(*old(node)));
                        }
                    }
                    let ghost mid = *node;
                    let c = backtrace_remove(node, -1, delta);
                    proof {
                        assert(keys(*node) == keys(mid));
                    }
                    (c, ret)
                },
            }
        },
    }
}

impl Rbt {
    /// Remove a key for which `cmp` answers `Equal`, walking right on
    /// `Greater` and left on `Less`; the closure must order candidates as
    /// some target band of keys does (see `keyorder::cmp_for_range`) — a
    /// full key is a one-key band, a partial key a wider one.  Returns the
    /// removed key, or `None` if no stored key matched; when exactly one
    /// stored key falls in the band, that key is the one removed.
    pub fn remove_by<F: Fn(&i64) -> core::cmp::Ordering>(&mut self, cmp: F) -> (r: Option<i64>)
        requires
            old(self).wf(),
            exists|lo: i64, hi: i64| crate::keyorder::cmp_for_range(cmp, lo, hi),
        ensures
            final(self).wf(),
            exists|lo: i64, hi: i64|
                #[trigger] crate::keyorder::cmp_for_range(cmp, lo, hi) && (match r {
                    Some(v) => old(self).view().contains(v) && lo <= v <= hi && final(self).view()
                        == old(self).view().remove(v),
                    None => final(self).view() == old(self).view() && (forall|x: i64|
                        old(self).view().contains(x) ==> !(lo <= x <= hi)),
                }),
    {
        let ghost (lo, hi) = choose|lo: i64, hi: i64| crate::keyorder::cmp_for_range(cmp, lo, hi);
        let (_, r) = remove_by_rec(&mut self.root, &cmp, Ghost(lo), Ghost(hi));
        r
    }

    /// Remove `item` from the tree if present; the tree is unchanged when
    /// `item` is not stored.
    pub fn remove(&mut self, item: &i64)
        requires
            old(self).wf(),
        ensures
            final(self).wf(),
            final(self).view() == old(self).view().remove(*item),
    {
        let ghost k = *item;
        let target = *item;
        let cmp = |x: &i64| -> (o: core::cmp::Ordering)
            ensures
                o == crate::keyorder::ordering_of(target, *x),
            {
                if target < *x {
                    core::cmp::Ordering::Less
                } else if target == *x {
                    core::cmp::Ordering::Equal
                } else {
                    core::cmp::Ordering::Greater
                }
            };
        proof {
            assert(crate::keyorder::cmp_for_range(cmp, k, k));
        }
        let (_, ret) = remove_by_rec(&mut self.root, &cmp, Ghost(k), Ghost(k));
        proof {
            if ret is None {
                assert(!old(self).view().contains(k));
                assert(final(self).view() =~= old(self).view().remove(k));
            }
        }
    }
}

/// Check the coloring invariant of a subtree from the ground: returns
/// whether it holds, and the black-height when it does.
fn rb_check(n: &Option<Box<RbtNode>>) -> (r: (bool, usize))
    requires
        count(*n) <= usize::MAX,
    ensures
        r.0 == rb_ok(*n),
        r.0 ==> r.1 == bh(*n),
        r.1 <= count(*n),
    decreases n,
{
    match n {
        None => (true, 0),
        Some(b) => {
            proof {
                assert(count(*n) == 1 + count(b.left) + count(b.right));
            }
            let (okl, hl) = rb_check(&b.left);
            if !okl {
                return (false, 0);
            }
            let (okr, hr) = rb_check(&b.right);
            if !okr {
                return (false, 0);
            }
            if hl != hr {
                return (false, 0);
            }
            if matches!(b.color, Color::Red) && (matches!(get_color(&b.left, 0), Color::Red)
                || matches!(get_color(&b.right, 0), Color::Red)) {
                return (false, 0);
            }
            proof {
                assert(spec_color_at(b.left, 0) == color_of(b.left));
                assert(spec_color_at(b.right, 0) == color_of(b.right));
            }
            let h = if matches!(b.color, Color::Black) {
                hl + 1
            } else {
                hl
            };
            (true, h)
        },
    }
}

impl Rbt {
    /// Whether the tree satisfies the red-black invariants: black root, no
    /// red node with a red child, equal black counts on every path.  Every
    /// public mutation keeps this true; the check recomputes it from the
    /// ground.  The node count must fit in a `usize`, which any tree in
    /// memory obeys.
    /// The coloring half of the invariant: valid colors and a black root
    /// (well-formedness is this together with the BST ordering).
    pub closed spec fn rb_valid(self) -> bool {
        rb_ok(self.root) && is_black(self.root)
    }

    /// Well-formedness contains the coloring half: in a well-formed tree
    /// the root is black, no red node has a red child, and every path to
    /// an absent child passes the same number of black nodes — the facts
    /// `is_rbt` recomputes from the ground.
    pub proof fn lemma_wf_rb_valid(self)
        requires
            self.wf(),
        ensures
            self.rb_valid(),
    {
    }

    pub fn is_rbt(&self) -> (r: bool)
        requires
            self.spec_count() <= usize::MAX,
        ensures
            r == self.rb_valid(),
    {
        match get_color(&self.root, 0) {
            Color::Red => {
                proof {
                    assert(spec_color_at(self.root, 0) == color_of(self.root));
                }
                false
            },
            Color::Black => {
                proof {
                    assert(spec_color_at(self.root, 0) == color_of(self.root));
                }
                rb_check(&self.root).0
            },
        }
    }
}

/// Append the in-order sequence of a subtree, reversed, to `out`.
fn collect_rev_inorder(n: &Option<Box<RbtNode>>, out: &mut Vec<i64>)
    ensures
        final(out)@ == old(out)@ + inorder(*n).reverse(),
    decreases n,
{
    match n {
        None => {
            proof {
                assert(out@ =~= old(out)@ + inorder(*n).reverse());
            }
        },
        Some(b) => {
            collect_rev_inorder(&b.right, out);
            out.push(b.data);
            collect_rev_inorder(&b.left, out);
            proof {
                assert(out@ =~= old(out)@ + inorder(*n).reverse());
            }
        },
    }
}

impl Rbt {
    /// An in-order (depth-first) iterator over the stored keys, ascending.
    pub fn iter_dfs(&self) -> (r: crate::avl::IterDfs)
        requires
            self.wf(),
        ensures
            r.remaining() == self.spec_inorder(),
    {
        let mut stack = Vec::<i64>::new();
        collect_rev_inorder(&self.root, &mut stack);
        let r = crate::avl::IterDfs::from_rev_stack(stack);
        proof {
            assert(r.remaining() =~= self.spec_inorder());
        }
        r
    }
}

/// The in-order sequence of a BST-ordered subtree lists exactly the stored
/// keys, strictly ascending, one entry per node.
proof fn lemma_inorder_props(n: Option<Box<RbtNode>>)
    requires
        bst_ok(n),
    ensures
        forall|x: i64| inorder(n).contains(x) == keys(n).contains(x),
        forall|i: int, j: int|
            0 <= i < j < inorder(n).len() ==> inorder(n)[i] < inorder(n)[j],
        inorder(n).len() == count(n),
    decreases n,
{
    match n {
        None => {
            assert(forall|x: i64| !inorder(n).contains(x));
        },
        Some(b) => {
            lemma_inorder_props(b.left);
            lemma_inorder_props(b.right);
            let s = inorder(n);
            let sl = inorder(b.left);
            let sr = inorder(b.right);
            assert(s == sl + seq![b.data] + sr);
            assert forall|x: i64| #[trigger] s.contains(x) implies keys(n).contains(x) by {
                let i = choose|i: int| 0 <= i < s.len() && s[i] == x;
                if i < sl.len() {
                    assert(sl[i] == x);
                    assert(sl.contains(x));
                } else if i == sl.len() {
                    assert(x == b.data);
                } else {
                    assert(sr[i - sl.len() - 1] == x);
                    assert(sr.contains(x));
                }
            }
            assert forall|x: i64| keys(n).contains(x) implies #[trigger] s.contains(x) by {
                assert(keys(n) == keys(b.left).union(keys(b.right)).insert(b.data));
                if keys(b.left).contains(x) {
                    assert(sl.contains(x));
                    let i = choose|i: int| 0 <= i < sl.len() && sl[i] == x;
                    assert(s[i] == x);
                } else if x == b.data {
                    assert(s[sl.len() as int] == x);
                } else {
                    assert(keys(b.right).contains(x));
                    assert(sr.contains(x));
                    let i = choose|i: int| 0 <= i < sr.len() && sr[i] == x;
                    assert(s[sl.len() + 1 + i] == x);
                }
            }
            assert forall|i: int, j: int| 0 <= i < j < s.len() implies s[i] < s[j] by {
                if j < sl.len() {
                } else if i > sl.len() {
                    assert(s[i] == sr[i - sl.len() - 1]);
                    assert(s[j] == sr[j - sl.len() - 1]);
                } else {
                    if i < sl.len() {
                        assert(s[i] == sl[i]);
                        assert(sl.contains(sl[i]));
                        assert(keys(b.left).contains(s[i]));
                        assert(s[i] < b.data);
                    }
                    if j > sl.len() {
                        assert(s[j] == sr[j - sl.len() - 1]);
                        assert(sr.contains(sr[j - sl.len() - 1]));
                        assert(keys(b.right).contains(s[j]));
                        assert(s[j] > b.data);
                    }
                }
            }
        },
    }
}

impl Rbt {
    /// The BST-order law: in a well-formed tree the in-order traversal is
    /// strictly ascending, and it lists exactly the stored key set, whose
    /// size is the node count.
    pub proof fn lemma_bst_order(self)
        requires
            self.wf(),
        ensures
            forall|i: int, j: int|
                0 <= i < j < self.spec_inorder().len() ==> self.spec_inorder()[i]
                    < self.spec_inorder()[j],
            self.spec_inorder().to_set() == self.view(),
            self.view().finite(),
            self.view().len() == self.spec_count(),
            self.spec_inorder().len() == self.spec_count(),
    {
        lemma_inorder_props(self.root);
        let s = self.spec_inorder();
        assert(s.to_set() =~= self.view());
        vstd::seq_lib::seq_to_set_is_finite(s);
        assert(s.no_duplicates());
        s.unique_seq_to_set();
    }
}

} // verus!
