use std::collections::HashMap;
use utils::{Bisect, DisjointSet, Heap, SegmentTree};

fn is_a_min_heap(data: &Vec<i64>) {
    if data.len() > 1 {
        let is_even = (data.len() & 1) == 0;
        let mut n2 = data.len() >> 1;
        if is_even {
            n2 -= 1;
        }
        for i in 0..n2 {
            println!("{}, {}, {}", data[i], data[2 * i + 1], data[2 * i + 2]);
            assert!(data[i] <= data[2 * i + 1]);
            assert!(data[i] <= data[2 * i + 2]);
        }
        if is_even {
            let i = n2;
            println!("{}, {}", data[i], data[2 * i + 1]);
            assert!(data[i] <= data[2 * i + 1]);
        }
    }
    println!();
}

#[test]
fn test_heap() {
    let heap = Heap::from_vec(vec![4, 9, 7, 3, 1, 8, 6, 0, 5, 2, 0]);
    is_a_min_heap(&heap.into_inner());

    let heap = Heap::from_vec(Vec::new());
    is_a_min_heap(&heap.into_inner());

    let heap = Heap::from_vec(vec![1]);
    is_a_min_heap(&heap.into_inner());

    let mut heap = Heap::with_capacity(12);
    for i in [11, 10, 4, 9, 7, 3, 1, 8, 6, 0, 5, 2] {
        heap.push(i);
    }
    is_a_min_heap(&heap.into_inner());
}

#[test]
fn test_bisect() {
    let vec1: Vec<i64> = vec![2, 2, 2, 3, 4, 5, 6, 6, 6, 6];
    assert_eq!(0, vec1.bisect_left(2));
    assert_eq!(3, vec1.bisect_right(2));
    assert_eq!(6, vec1.bisect_left(6));
    assert_eq!(10, vec1.bisect_right(6));
}

#[test]
fn test_segmenttree() {
    let mut st = SegmentTree::new(vec![1, 3, 5, 7, 9, 11]);
    assert_eq!(36, st.query(0, 5));
    assert_eq!(9, st.query(0, 2));
    assert_eq!(15, st.query(1, 3));
    assert_eq!(32, st.query(2, 5));

    st.update(1, 9);
    assert_eq!(42, st.query(0, 5));
    assert_eq!(15, st.query(0, 2));
    assert_eq!(21, st.query(1, 3));
    assert_eq!(32, st.query(2, 5));
}

#[test]
fn test_disjointset() {
    let dct: HashMap<char, usize> = ['a', 'b', 'c', 'd', 'e', 'f', 'g', 'h', 'i', 'j']
        .into_iter()
        .enumerate()
        .map(|(i, c)| (c, i))
        .collect();
    let mut ds = DisjointSet::new(dct.len());
    for (c1, c2) in [
        ('b', 'd'),
        ('e', 'g'),
        ('a', 'c'),
        ('h', 'i'),
        ('a', 'b'),
        ('e', 'f'),
        ('b', 'c'),
    ] {
        ds.union(*dct.get(&c1).unwrap(), *dct.get(&c2).unwrap());
    }
    assert!(ds.is_same_component(0, 1));
    assert!(ds.is_same_component(1, 2));
    assert!(ds.is_same_component(2, 3));
    assert!(!ds.is_same_component(3, 4));
    assert!(ds.is_same_component(4, 5));
    assert!(ds.is_same_component(5, 6));
    assert!(!ds.is_same_component(6, 7));
    assert!(ds.is_same_component(7, 8));
    assert!(!ds.is_same_component(8, 9));
    assert_eq!(*ds.parents(), vec![3, 3, 3, 3, 6, 6, 6, 8, 8, 9]);
}
