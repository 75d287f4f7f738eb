use utils::{Avl, DisjointSet, Heap, Rbt, SegmentTree, Trie};

fn avl_dfs_vec(t: &Avl) -> Vec<i64> {
    let mut it = t.iter_dfs();
    let mut v = Vec::new();
    while let Some(x) = it.next() {
        v.push(x);
    }
    v
}

fn rbt_dfs_vec(t: &Rbt) -> Vec<i64> {
    let mut it = t.iter_dfs();
    let mut v = Vec::new();
    while let Some(x) = it.next() {
        v.push(x);
    }
    v
}

// In-order traversal stays strictly ascending through mixed inserts and
// removes, on both trees.
#[test]
fn bst_order_under_mixed_ops() {
    let keys = [41, 7, 99, 3, 58, 12, 77, 0, 23, 64, 88, 5, 31];
    let mut avl = Avl::new();
    let mut rbt = Rbt::new();
    for k in keys {
        avl.insert(k);
        rbt.insert(k);
        let a = avl_dfs_vec(&avl);
        for i in 1..a.len() {
            assert!(a[i - 1] < a[i]);
        }
        let b = rbt_dfs_vec(&rbt);
        for i in 1..b.len() {
            assert!(b[i - 1] < b[i]);
        }
    }
    for k in [41, 0, 88, 12] {
        avl.remove(&k);
        rbt.remove(&k);
        let a = avl_dfs_vec(&avl);
        for i in 1..a.len() {
            assert!(a[i - 1] < a[i]);
        }
        let b = rbt_dfs_vec(&rbt);
        for i in 1..b.len() {
            assert!(b[i - 1] < b[i]);
        }
    }
}

// The stored AVL balance factors match the true height differences after
// every single mutation.
#[test]
fn avl_balance_after_each_op() {
    let mut t = Avl::new();
    for k in [50, 25, 75, 12, 37, 62, 87, 6, 18, 31, 43, 56, 68, 81, 93] {
        t.insert(k);
        assert!(t.check_balance());
    }
    for k in [50, 6, 93, 37, 25] {
        t.remove(&k);
        assert!(t.check_balance());
    }
}

// The red-black invariants hold after every single mutation.
#[test]
fn rbt_invariants_after_each_op() {
    let mut t = Rbt::new();
    for k in [50, 25, 75, 12, 37, 62, 87, 6, 18, 31, 43, 56, 68, 81, 93] {
        t.insert(k);
        assert!(t.is_rbt());
    }
    for k in [50, 6, 93, 37, 25] {
        t.remove(&k);
        assert!(t.is_rbt());
    }
}

// Round trip: a successful insert makes search true; a subsequent
// successful remove makes search false again.
#[test]
fn round_trip_insert_search_remove() {
    let mut avl = Avl::new();
    assert!(avl.insert(42));
    assert!(avl.search(&42));
    assert_eq!(Some(42), avl.remove_by(|x: &i64| 42.cmp(x)));
    assert!(!avl.search(&42));

    let mut rbt = Rbt::new();
    assert!(rbt.insert(42));
    assert!(rbt.search(&42));
    assert_eq!(Some(42), rbt.remove_by(|x: &i64| 42.cmp(x)));
    assert!(!rbt.search(&42));
}

// Duplicate insert: true then false, and the contents do not grow on the
// second call.
#[test]
fn duplicate_insert_is_a_no_op() {
    let mut avl = Avl::new();
    assert!(avl.insert(7));
    let before = avl_dfs_vec(&avl);
    assert!(!avl.insert(7));
    assert_eq!(before, avl_dfs_vec(&avl));

    let mut rbt = Rbt::new();
    assert!(rbt.insert(7));
    let before = rbt_dfs_vec(&rbt);
    assert!(!rbt.insert(7));
    assert_eq!(before, rbt_dfs_vec(&rbt));
}

// AVL height bound: for n distinct keys, height <= ~1.44 * log2(n + 2).
#[test]
fn avl_height_bound() {
    let mut t = Avl::new();
    let mut k: i64 = 0;
    for _ in 0..100 {
        // scrambled but distinct keys
        k = (k * 37 + 11) % 1000 + 1000 * (k % 7);
        t.insert(k);
    }
    let n = avl_dfs_vec(&t).len() as f64;
    let bound = 1.44 * (n + 2.0).log2();
    assert!((t.height() as f64) <= bound);
}

// Edge cases: operations on the empty and single-node trees.
#[test]
fn tree_edge_cases() {
    let mut avl = Avl::new();
    assert!(!avl.search(&1));
    assert_eq!(None, avl.remove_by(|x: &i64| 1.cmp(x)));
    assert_eq!(0, avl.height());
    assert!(avl.insert(5));
    assert_eq!(1, avl.height());
    avl.remove(&5);
    assert_eq!(0, avl.height());
    assert!(avl_dfs_vec(&avl).is_empty());

    let mut rbt = Rbt::new();
    assert!(!rbt.search(&1));
    assert_eq!(None, rbt.remove_by(|x: &i64| 1.cmp(x)));
    assert!(rbt.insert(5));
    rbt.remove(&5);
    assert!(rbt.is_rbt());
    assert!(rbt_dfs_vec(&rbt).is_empty());
}

// The heap delivers its contents in ascending order, duplicates included.
#[test]
fn heap_pop_ascending() {
    let mut h = Heap::new();
    for x in [5, -3, 9, 0, 5, 2, -3, 7] {
        h.push(x);
    }
    assert_eq!(h.len(), 8);
    assert_eq!(h.peek(), Some(-3));
    let mut got = Vec::new();
    while let Some(x) = h.pop() {
        got.push(x);
    }
    assert_eq!(got, vec![-3, -3, 0, 2, 5, 5, 7, 9]);
    assert!(h.is_empty());
    assert_eq!(h.pop(), None);
    assert_eq!(h.peek(), None);
}

// pushpop returns the minimum of the combined contents.
#[test]
fn heap_pushpop() {
    let mut h = Heap::new();
    assert_eq!(h.pushpop(4), 4);
    h.push(10);
    h.push(3);
    assert_eq!(h.pushpop(1), 1);
    assert_eq!(h.pushpop(8), 3);
    assert_eq!(h.pop(), Some(8));
    assert_eq!(h.pop(), Some(10));
    assert_eq!(h.pop(), None);
}

// The trie stores a string together with all of its prefixes, and nothing
// else.
#[test]
fn trie_paths() {
    let mut t = Trie::new();
    assert!(t.contains(&[]));
    assert!(!t.contains(&[1]));
    t.insert(&[1, 2, 3]);
    assert!(t.contains(&[1]));
    assert!(t.contains(&[1, 2]));
    assert!(t.contains(&[1, 2, 3]));
    assert!(!t.contains(&[1, 2, 3, 4]));
    assert!(!t.contains(&[2]));
    t.insert(&[1, 2, 9]);
    assert!(t.contains(&[1, 2, 9]));
    assert!(t.contains(&[1, 2, 3]));

    let chain = Trie::from_iter(&[4, 0, 4]);
    assert!(chain.contains(&[4, 0, 4]));
    assert!(chain.contains(&[4, 0]));
    assert!(!chain.contains(&[4, 1]));
    assert!(!chain.contains(&[0]));
}

// Segment-tree sums track point updates, including at the boundaries.
#[test]
fn segment_tree_updates() {
    let mut st = SegmentTree::new(vec![-2, 4, 0, 7]);
    assert_eq!(st.query(0, 3), 9);
    assert_eq!(st.query(0, 0), -2);
    assert_eq!(st.query(3, 3), 7);
    assert_eq!(st.query(2, 1), 0);
    st.update_by_diff(0, 5);
    assert_eq!(st.query(0, 0), 3);
    assert_eq!(st.query(0, 3), 14);
    st.update(3, -1);
    assert_eq!(st.query(2, 3), -1);
    assert_eq!(st.query(0, 3), 6);

    let z = SegmentTree::empty(5);
    assert_eq!(z.query(0, 4), 0);
}

// A single-element tree answers searches through a partial comparison
// closure exactly like a direct search.
#[test]
fn search_by_matches_search() {
    let mut t = Avl::new();
    for k in [10, 20, 30] {
        t.insert(k);
    }
    assert_eq!(t.search_by(|x: &i64| 20.cmp(x)), Some(20));
    assert_eq!(t.search_by(|x: &i64| 25.cmp(x)), None);
    let mut r = Rbt::new();
    for k in [10, 20, 30] {
        r.insert(k);
    }
    assert_eq!(r.search_by(|x: &i64| 30.cmp(x)), Some(30));
    assert_eq!(r.search_by(|x: &i64| 5.cmp(x)), None);
}

// Union-find: components are reflexive singletons at the start, and union
// joins exactly the two components involved.
#[test]
fn disjointset_components() {
    let mut ds = DisjointSet::new(6);
    for i in 0..6 {
        for j in 0..6 {
            assert_eq!(ds.is_same_component(i, j), i == j);
        }
    }
    ds.union(0, 1);
    ds.union(2, 3);
    assert!(ds.is_same_component(0, 1));
    assert!(ds.is_same_component(2, 3));
    assert!(!ds.is_same_component(1, 2));
    assert!(!ds.is_same_component(0, 4));
    ds.union(1, 3);
    assert!(ds.is_same_component(0, 3));
    assert!(ds.is_same_component(1, 2));
    assert!(!ds.is_same_component(0, 5));
    // joining twice changes nothing
    ds.union(0, 2);
    assert!(ds.is_same_component(0, 2));
    assert!(!ds.is_same_component(4, 5));
}

// Removing an interior key with two children promotes its in-order
// predecessor into its place.
#[test]
fn remove_interior_uses_predecessor() {
    let mut t = Avl::new();
    for k in [5, 3, 8, 2, 4] {
        t.insert(k);
    }
    t.remove(&5);
    assert_eq!(t.iter_bfs(), vec![4, 3, 8, 2]);
    assert!(t.check_balance());

    let mut r = Rbt::new();
    for k in [5, 3, 8, 2, 4] {
        r.insert(k);
    }
    r.remove(&5);
    let mut it = r.iter_dfs();
    let mut v = Vec::new();
    while let Some(x) = it.next() {
        v.push(x);
    }
    assert_eq!(v, vec![2, 3, 4, 8]);
    assert!(r.is_rbt());
}

// A predicate that compares only the leading component of a composite key
// finds (and removes) the unique matching full record, or reports absence.
#[test]
fn search_by_partial_key() {
    // keys encode (group, member) pairs as group * 100 + member
    let mut t = Avl::new();
    for k in [105, 237, 412, 399, 518] {
        t.insert(k);
    }
    assert_eq!(t.search_by(|x: &i64| 4.cmp(&(x / 100))), Some(412));
    assert_eq!(t.search_by(|x: &i64| 9.cmp(&(x / 100))), None);
    assert_eq!(t.remove_by(|x: &i64| 4.cmp(&(x / 100))), Some(412));
    assert_eq!(t.search_by(|x: &i64| 4.cmp(&(x / 100))), None);

    let mut r = Rbt::new();
    for k in [105, 237, 412, 399, 518] {
        r.insert(k);
    }
    assert_eq!(r.search_by(|x: &i64| 4.cmp(&(x / 100))), Some(412));
    assert_eq!(r.remove_by(|x: &i64| 9.cmp(&(x / 100))), None);
    assert_eq!(r.remove_by(|x: &i64| 4.cmp(&(x / 100))), Some(412));
    assert_eq!(r.search_by(|x: &i64| 4.cmp(&(x / 100))), None);
}
