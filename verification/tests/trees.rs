use utils::{Avl, Rbt};

fn dfs_vec(t: &Avl) -> Vec<i64> {
    let mut it = t.iter_dfs();
    let mut v = Vec::new();
    while let Some(x) = it.next() {
        v.push(x);
    }
    v
}

fn rbt_dfs_vec(t: &Rbt) -> Vec<i64> {
    let mut it = t.iter_dfs();
    let mut v = Vec::new();
    while let Some(x) = it.next() {
        v.push(x);
    }
    v
}

fn assert_valid_bst(t: &Avl) {
    let res = dfs_vec(t);
    for i in 1..res.len() {
        assert!(res[i - 1] <= res[i]);
    }
}

fn rbt_assert_valid_bst(t: &Rbt) {
    let res = rbt_dfs_vec(t);
    for i in 1..res.len() {
        assert!(res[i - 1] <= res[i]);
    }
}

#[test]
fn test_avl() {
    let mut t1 = Avl::new();
    for i in [20, 4, 26, 3, 9, 15] {
        t1.insert(i);
    }
    assert_eq!(t1.iter_bfs(), vec![9, 4, 20, 3, 15, 26]);

    let mut t2 = Avl::new();
    for i in [20, 4, 26, 3, 9, 21, 30, 2, 7, 11, 15] {
        t2.insert(i);
    }
    assert_eq!(t2.iter_bfs(), vec![9, 4, 20, 3, 7, 11, 26, 2, 15, 21, 30]);

    let mut t3 = Avl::new();
    for i in [20, 4, 26, 3, 9, 8] {
        t3.insert(i);
    }
    assert_eq!(t3.iter_bfs(), vec![9, 4, 20, 3, 8, 26]);

    let mut t4 = Avl::new();
    for i in [20, 4, 26, 3, 9, 21, 30, 2, 7, 11, 8] {
        t4.insert(i);
    }
    assert_eq!(t4.iter_bfs(), vec![9, 4, 20, 3, 7, 11, 26, 2, 8, 21, 30]);

    assert_eq!(4, t4.height());
    assert!(t4.search(&8));
    assert!(!t4.search(&88));
    assert_eq!(Some(8), t4.search_by(|x: &i64| 8.cmp(x)));
    assert_eq!(None, t4.search_by(|x: &i64| 88.cmp(x)));

    // delete
    let mut t5 = Avl::new();
    for i in [2, 1, 4, 3, 5] {
        t5.insert(i);
    }
    assert_eq!(Some(1), t5.remove_by(|x: &i64| 1.cmp(x)));
    assert_eq!(t5.iter_bfs(), vec![4, 2, 5, 3]);

    let mut t6 = Avl::new();
    for i in [6, 2, 9, 1, 4, 8, 66, 3, 5, 7, 65, 67, 68] {
        t6.insert(i);
    }
    t6.remove(&1);
    assert_eq!(t6.iter_bfs(), vec![6, 4, 9, 2, 5, 8, 66, 3, 7, 65, 67, 68]);

    let mut t7 = Avl::new();
    for i in [5, 2, 8, 1, 3, 7, 65, 4, 6, 9, 66, 67] {
        t7.insert(i);
    }
    t7.remove(&1);
    assert_eq!(t7.iter_bfs(), vec![8, 5, 65, 3, 7, 9, 66, 2, 4, 6, 67]);

    // iter
    assert_eq!(dfs_vec(&t7), vec![2, 3, 4, 5, 6, 7, 8, 9, 65, 66, 67]);
    assert_eq!(t7.iter_bfs(), vec![8, 5, 65, 3, 7, 9, 66, 2, 4, 6, 67]);

    // the stored balance factors are correct
    assert!(t1.check_balance());
    assert!(t2.check_balance());
    assert!(t3.check_balance());
    assert!(t4.check_balance());
    assert!(t5.check_balance());
    assert!(t6.check_balance());
    assert!(t7.check_balance());

    let mut t8 = Avl::new();
    for i in [
        8, 94, 4, 50, 17, 15, 37, 1, 25, 42, 39, 13, 83, 32, 89, 24, 6, 70, 90, 22, 10, 11, 68,
        72, 49, 99, 45, 19, 38, 28, 63, 16, 77, 46, 65, 33, 34, 60, 53, 54, 40, 84, 2, 56, 57,
        44, 59, 92, 95, 41, 98, 97, 80, 29, 87, 18, 26, 67, 79, 88, 30, 20, 35, 81, 78, 55, 12,
        43, 85, 82, 0, 62, 96, 61, 71, 23, 9, 74, 27, 91, 69, 76, 52, 47, 64, 86, 75, 5, 7, 36,
        21, 93, 66, 31, 50, 17, 58, 14, 3, 51, 48, 73, // 50, 17 insert twice
    ] {
        t8.insert(i);
    }
    assert_valid_bst(&t8);
    for i in [8, 94, 4, 50, 17, 15, 37, 1, 25] {
        t8.remove(&i);
        assert_valid_bst(&t8);
    }

    // composite (group, member) records, encoded as group * 100 + member;
    // a predicate on the group alone finds and removes the full record
    let mut t9 = Avl::new();
    for i in [405, 402, 8, 101, 103, 207, 204, 306, 309] {
        t9.insert(i);
    }
    assert_eq!(Some(402), t9.remove_by(|x: &i64| 4.cmp(&(x / 100))));
    assert_eq!(None, t9.remove_by(|x: &i64| 9.cmp(&(x / 100))));
    assert!(!t9.insert(405));
}

#[test]
fn test_rbt() {
    let lst = vec![
        8, 94, 4, 50, 17, 15, 37, 1, 25, 42, 39, 13, 83, 32, 89, 24, 6, 70, 90, 22, 10, 11, 68,
        72, 49, 99, 45, 19, 38, 28, 63, 16, 77, 46, 65, 33, 34, 60, 53, 54, 40, 84, 2, 56, 57,
        44, 59, 92, 95, 41, 98, 97, 80, 29, 87, 18, 26, 67, 79, 88, 30, 20, 35, 81, 78, 55, 12,
        43, 85, 82, 0, 62, 96, 61, 71, 23, 9, 74, 27, 91, 69, 76, 52, 47, 64, 86, 75, 5, 7, 36,
        21, 93, 66, 31, 50, 17, 58, 14, 3, 51, 48, 73, // 50, 17 insert twice
    ];
    let mut t8 = Rbt::new();

    for i in lst.clone() {
        t8.insert(i);
    }
    assert!(!t8.insert(50));
    rbt_assert_valid_bst(&t8);

    for i in lst {
        t8.remove(&i);
        assert!(t8.is_rbt());
    }
    rbt_assert_valid_bst(&t8);
}
