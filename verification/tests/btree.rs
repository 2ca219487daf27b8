use interview::btree::BTree;

#[test]
fn test_basic() {
    let mut tree = BTree::new();
    assert!(tree.is_empty());
    assert_eq!(0, tree.len());
    assert_eq!(0, tree.depth());
    tree.insert(1, "01");
    assert!(!tree.is_empty());
    assert_eq!(1, tree.len());
    assert_eq!(1, tree.depth());
    tree.insert(2, "10");
    assert!(!tree.is_empty());
    assert_eq!(2, tree.len());
    assert_eq!(2, tree.depth());
    tree.insert(0, "00");
    assert!(!tree.is_empty());
    assert_eq!(3, tree.len());
    assert_eq!(2, tree.depth());

    assert_eq!(Some(&"01"), tree.get(&1));
    assert_eq!(Some(&"10"), tree.get(&2));
    assert_eq!(Some(&"00"), tree.get(&0));
    assert_eq!(None, tree.get(&3));

    assert_eq!(Some("01"), tree.delete(&1));
    assert!(!tree.is_empty());
    assert_eq!(None, tree.get(&1));
    assert_eq!(Some(&"10"), tree.get(&2));
    assert_eq!(Some(&"00"), tree.get(&0));
    assert_eq!(2, tree.len());
    assert_eq!(2, tree.depth());

    assert_eq!(Some("10"), tree.delete(&2));
    assert!(!tree.is_empty());
    assert_eq!(1, tree.len());
    assert_eq!(1, tree.depth());
    assert_eq!(Some("00"), tree.delete(&0));
    assert!(tree.is_empty());
    assert_eq!(0, tree.len());
    assert_eq!(0, tree.depth());
}

#[test]
fn test_in_order() {
    let mut tree = BTree::new();
    tree.insert(1, "01");
    tree.insert(2, "10");
    tree.insert(0, "00");
    tree.insert(3, "11");
    let mut it = tree.into_iter();
    assert_eq!(Some((&0, &"00")), it.next());
    assert_eq!(Some((&1, &"01")), it.next());
    assert_eq!(Some((&2, &"10")), it.next());
    assert_eq!(Some((&3, &"11")), it.next());
}

#[test]
fn test_from_it() {
    let iter = (0..3).map(|i| (i, i.to_string()));
    let tree = BTree::from_iter(iter.collect());
    assert_eq!(Some(&String::from("1")), tree.get(&1));
    assert_eq!(Some(&String::from("2")), tree.get(&2));
    assert_eq!(Some(&String::from("0")), tree.get(&0));
    assert_eq!(None, tree.get(&3));
}

#[test]
fn test_wikipedia() {
    let mut tree = BTree::new();
    tree.insert(8, "8");
    tree.insert(3, "3");
    tree.insert(1, "1");
    tree.insert(6, "6");
    tree.insert(4, "4");
    tree.insert(7, "7");
    tree.insert(10, "10");
    tree.insert(14, "14");
    tree.insert(13, "13");
    assert_eq!(9, tree.len());
    assert_eq!(4, tree.depth());

    let mut it = tree.into_iter();
    assert_eq!(Some((&1, &"1")), it.next());
    assert_eq!(Some((&3, &"3")), it.next());
    assert_eq!(Some((&4, &"4")), it.next());
    assert_eq!(Some((&6, &"6")), it.next());
    assert_eq!(Some((&7, &"7")), it.next());
    assert_eq!(Some((&8, &"8")), it.next());
    assert_eq!(Some((&10, &"10")), it.next());
    assert_eq!(Some((&13, &"13")), it.next());
    assert_eq!(Some((&14, &"14")), it.next());
}

fn keys_in_order(tree: &BTree<i32, i32>) -> Vec<i32> {
    let mut keys = vec![];
    let mut it = tree.into_iter();
    while let Some((k, v)) = it.next() {
        assert_eq!(k * 10, *v);
        keys.push(*k);
    }
    assert_eq!(None, it.next());
    keys
}

#[test]
fn test_empty_tree() {
    let tree: BTree<i32, &str> = BTree::new();
    assert!(tree.is_empty());
    assert_eq!(0, tree.len());
    assert_eq!(0, tree.depth());
    let mut it = tree.into_iter();
    assert_eq!(None, it.next());
    assert_eq!(None, it.next());
    assert_eq!(None, tree.get(&1));
    let other: BTree<i32, &str> = BTree::default();
    assert!(other.is_empty());
}

#[test]
fn test_traversal_ascends() {
    let mut tree = BTree::new();
    for k in [50, 20, 70, 10, 30, 60, 80, 25, 35, 65, 20, 80, 5] {
        tree.insert(k, k * 10);
    }
    assert_eq!(
        vec![5, 10, 20, 25, 30, 35, 50, 60, 65, 70, 80],
        keys_in_order(&tree)
    );
    assert_eq!(11, tree.len());
    assert_eq!(4, tree.depth());
}

#[test]
fn test_sorted_inserts_make_a_chain() {
    let mut tree = BTree::new();
    for k in 0..20 {
        tree.insert(k, k * 10);
    }
    assert_eq!(20, tree.len());
    assert_eq!(20, tree.depth());
    assert_eq!((0..20).collect::<Vec<i32>>(), keys_in_order(&tree));
}

#[test]
fn test_stored_value_is_found() {
    let mut tree = BTree::new();
    tree.insert(4, "four");
    tree.insert(2, "two");
    tree.insert(6, "six");
    tree.insert(2, "zwei");
    assert_eq!(Some("six"), tree.delete(&6));
    tree.insert(5, "five");
    assert_eq!(Some(&"four"), tree.get(&4));
    assert_eq!(Some(&"zwei"), tree.get(&2));
    assert_eq!(Some(&"five"), tree.get(&5));
    assert_eq!(None, tree.get(&6));
}

#[test]
fn test_overwrite_keeps_len() {
    let mut tree = BTree::new();
    tree.insert(3, "a");
    tree.insert(1, "b");
    assert_eq!(2, tree.len());
    tree.insert(3, "c");
    assert_eq!(2, tree.len());
    assert_eq!(2, tree.depth());
    assert_eq!(Some(&"c"), tree.get(&3));
    assert_eq!(Some(&"b"), tree.get(&1));
}

#[test]
fn test_delete_absent_changes_nothing() {
    let mut tree = BTree::new();
    for k in [8, 3, 10] {
        tree.insert(k, k * 10);
    }
    assert_eq!(None, tree.delete(&4));
    assert_eq!(None, tree.delete(&11));
    assert_eq!(3, tree.len());
    assert_eq!(2, tree.depth());
    assert_eq!(vec![3, 8, 10], keys_in_order(&tree));
    let mut empty: BTree<i32, i32> = BTree::new();
    assert_eq!(None, empty.delete(&1));
    assert!(empty.is_empty());
}

#[test]
fn test_delete_with_two_children() {
    let mut tree = BTree::new();
    for k in [8, 3, 1, 6, 4, 7, 10, 14, 13] {
        tree.insert(k, k * 10);
    }
    assert_eq!(Some(30), tree.delete(&3));
    assert_eq!(None, tree.get(&3));
    assert_eq!(8, tree.len());
    assert_eq!(4, tree.depth());
    assert_eq!(vec![1, 4, 6, 7, 8, 10, 13, 14], keys_in_order(&tree));
    assert_eq!(Some(80), tree.delete(&8));
    assert_eq!(7, tree.len());
    assert_eq!(vec![1, 4, 6, 7, 10, 13, 14], keys_in_order(&tree));
    assert_eq!(Some(100), tree.delete(&10));
    assert_eq!(Some(&130), tree.get(&13));
    assert_eq!(4, tree.depth());
    assert_eq!(Some(10), tree.delete(&1));
    assert_eq!(Some(70), tree.delete(&7));
    assert_eq!(3, tree.depth());
}

#[test]
fn test_delete_with_one_child() {
    let mut tree = BTree::new();
    for k in [5, 3, 4, 9, 8] {
        tree.insert(k, k * 10);
    }
    assert_eq!(Some(30), tree.delete(&3));
    assert_eq!(Some(90), tree.delete(&9));
    assert_eq!(2, tree.depth());
    assert_eq!(vec![4, 5, 8], keys_in_order(&tree));
}

#[test]
fn test_from_iter_later_pair_wins() {
    let tree = BTree::from_iter(vec![(2, 20), (1, 0), (3, 30), (1, 10)]);
    assert_eq!(3, tree.len());
    assert_eq!(2, tree.depth());
    assert_eq!(vec![1, 2, 3], keys_in_order(&tree));
    let none: BTree<i32, i32> = BTree::from_iter(vec![]);
    assert!(none.is_empty());
}
