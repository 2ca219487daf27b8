use interview::array::{
    dedup, duplicate, duplicates, get_averages, get_winner, longest_arith_seq_length,
    min_cost, min_cost_sorted, missing_number, missing_numbers, pairs_product, range, reverse,
    IntSet, SnapshotArray,
};

#[test]
fn test_missing_number() {
    assert_eq!(None, missing_number(&[1, 2, 3], 1, 3));
    assert_eq!(None, missing_number(&[3, 2, 1], 1, 3));
    assert_eq!(Some(2), missing_number(&[1, 3], 1, 3));
    assert_eq!(Some(2), missing_number(&[1, 3, 1, 3], 1, 3));
    assert_eq!(Some(1), missing_number(&[2, 3], 1, 3));
    assert_eq!(Some(3), missing_number(&[1, 2], 1, 3));
    assert_eq!(Some(2), missing_number(&[3, 1], 1, 3));
    assert_eq!(Some(1), missing_number(&[3, 2], 1, 3));
    assert_eq!(Some(3), missing_number(&[2, 1], 1, 3));
    assert_eq!(
        Some(100),
        missing_number(&((1..100).collect::<Vec<i32>>()), 1, 100)
    );
}

#[test]
fn test_missing_numbers_in_order() {
    assert_eq!(
        IntSet::from_vec(vec![2, 4, 5]),
        missing_numbers(&[6, 3, 1, 3], 1, 6)
    );
    assert_eq!(IntSet::new(), missing_numbers(&[], 3, 2));
    assert_eq!(IntSet::from_vec(vec![-1, 0, 1]), missing_numbers(&[], -1, 1));
}

#[test]
fn test_duplicate() {
    assert_eq!(None, duplicate(&[1, 2, 3]));
    assert_eq!(Some(1), duplicate(&[1, 2, 3, 1]));
    assert_eq!(Some(1), duplicate(&[1, 1, 2, 3]));
    assert_eq!(Some(3), duplicate(&[1, 2, 3, 3]));
}

#[test]
fn test_duplicates() {
    assert_eq!(IntSet::new(), duplicates(&[1, 2, 3]));
    assert_eq!(IntSet::from_vec(vec!(1)), duplicates(&[1, 2, 3, 1]));
    assert_eq!(IntSet::from_vec(vec!(1)), duplicates(&[1, 1, 2, 3]));
    assert_eq!(IntSet::from_vec(vec!(3)), duplicates(&[1, 2, 3, 3]));
    assert_eq!(IntSet::from_vec(vec!(1, 3)), duplicates(&[1, 1, 2, 3, 3]));
}

#[test]
fn test_duplicates_by_second_occurrence() {
    assert_eq!(
        IntSet::from_vec(vec![3, 1]),
        duplicates(&[1, 3, 3, 1, 3, 1])
    );
}

#[test]
fn test_range() {
    assert_eq!((0, 0), range(&[0]));
    assert_eq!((0, 1), range(&[0, 1]));
    assert_eq!((-1, 1), range(&[0, 1, -1]));
}

#[test]
fn test_pairs_product() {
    let e: Vec<(i32, i32)> = vec![];
    assert_eq!(e, pairs_product(&[], 2));
    assert_eq!(vec!((1, 2)), pairs_product(&[1, 2], 2));
    assert_eq!(vec!((2, 3)), pairs_product(&[1, 2, 3], 6));
    assert_eq!(vec!((2, 6), (3, 4)), pairs_product(&[1, 2, 3, 4, 6], 12));
}

#[test]
fn test_dedup() {
    let mut nbs = vec![3, 1, 1, 2, 3];
    dedup(&mut nbs);
    assert_eq!(vec!(3, 1, 2), nbs);
}

#[test]
fn array_test_reverse() {
    let mut nbs = vec![1, 2, 3, 4];
    reverse(&mut nbs);
    assert_eq!(vec!(4, 3, 2, 1), nbs);
    let mut nbs = vec![1, 2, 3, 4, 5];
    reverse(&mut nbs);
    assert_eq!(vec!(5, 4, 3, 2, 1), nbs);
    let mut nbs = vec![];
    reverse(&mut nbs);
    assert_eq!(vec!() as Vec<i32>, nbs);
    let mut nbs = vec![1];
    reverse(&mut nbs);
    assert_eq!(vec!(1), nbs);
}

#[test]
fn test_int_set() {
    let mut s = IntSet::new();
    assert_eq!(None, s.first());
    assert!(s.insert(4));
    assert!(s.insert(2));
    assert!(!s.insert(4));
    assert!(s.contains(2));
    assert!(!s.contains(3));
    assert_eq!(Some(4), s.first());
    assert_eq!(IntSet::from_slice(&[4, 2]), s);
    assert!(s.remove(&4));
    assert!(!s.remove(&4));
    assert_eq!(Some(2), s.first());
    assert_eq!(IntSet::default(), IntSet::new());
    let mut twice = IntSet::from_vec(vec![1, 2, 1]);
    assert!(twice.remove(&1));
    assert_eq!(IntSet::from_vec(vec![2, 1]), twice);
}

#[test]
fn test_snapshot() {
    let mut snapshot = SnapshotArray::new(3);
    snapshot.set(0, 5);
    assert_eq!(0, snapshot.snap());
    assert_eq!(5, snapshot.get(0, 0));
    snapshot.set(0, 4);
    snapshot.set(0, 6);
    assert_eq!(5, snapshot.get(0, 0));
    assert_eq!(6, snapshot.get(0, 1));
    assert_eq!(0, snapshot.get(1, 1));
    assert_eq!(0, snapshot.get(1, 0));
}

#[test]
fn test_snapshot_between_writes() {
    let mut snapshot = SnapshotArray::new(2);
    snapshot.set(1, 7);
    assert_eq!(0, snapshot.snap());
    assert_eq!(1, snapshot.snap());
    assert_eq!(2, snapshot.snap());
    snapshot.set(1, 9);
    assert_eq!(3, snapshot.snap());
    assert_eq!(7, snapshot.get(1, 0));
    assert_eq!(7, snapshot.get(1, 1));
    assert_eq!(7, snapshot.get(1, 2));
    assert_eq!(9, snapshot.get(1, 3));
    assert_eq!(9, snapshot.get(1, 40));
    assert_eq!(0, snapshot.get(1, -1));
    assert_eq!(0, snapshot.get(0, 3));
}

#[test]
fn test_get_averages() {
    assert_eq!(
        vec![-1, -1, -1, 5, 4, 4, -1, -1, -1],
        get_averages(vec![7, 4, 3, 9, 1, 8, 5, 2, 6], 3)
    );
    assert_eq!(vec![100000], get_averages(vec![100000], 0));
    assert_eq!(vec![-1], get_averages(vec![8], 10000));
}

#[test]
fn test_get_averages_rounds_to_zero() {
    assert_eq!(vec![-1, -2, -1], get_averages(vec![-3, -2, -3], 1));
    assert_eq!(vec![-1, 2, -1], get_averages(vec![3, 2, 3], 1));
    assert_eq!(Vec::<i32>::new(), get_averages(vec![], 1));
}

#[test]
fn test_longest_arith_seq_length() {
    assert_eq!(4, longest_arith_seq_length(vec![3, 6, 9, 12]));
    assert_eq!(3, longest_arith_seq_length(vec![9, 4, 7, 2, 10]));
    assert_eq!(4, longest_arith_seq_length(vec![20, 1, 15, 3, 10, 5, 8]));
}

#[test]
fn test_longest_arith_seq_length_short() {
    assert_eq!(0, longest_arith_seq_length(vec![]));
    assert_eq!(0, longest_arith_seq_length(vec![5]));
    assert_eq!(2, longest_arith_seq_length(vec![5, 5]));
}

#[test]
fn test_winner() {
    assert_eq!(5, get_winner(vec![2, 1, 3, 5, 4, 6, 7], 2));
    assert_eq!(3, get_winner(vec![3, 2, 1], 10));
}

#[test]
fn test_winner_after_the_row() {
    assert_eq!(9, get_winner(vec![1, 9, 2, 3], 4));
    assert_eq!(2, get_winner(vec![1, 2], 1));
}

#[test]
fn test_min_cost() {
    assert_eq!(8, min_cost(vec![1, 3, 5, 2], vec![2, 3, 1, 14]));
    assert_eq!(0, min_cost(vec![0, 0, 0, 0], vec![2, 3, 1, 14]));
}

#[test]
fn test_min_cost_sorts_first() {
    assert_eq!(0, min_cost(vec![], vec![]));
    assert_eq!(0, min_cost(vec![7], vec![3]));
    assert_eq!(8, min_cost(vec![9, 1, 5], vec![1, 1, 0]));
    assert_eq!(12, min_cost(vec![9, 1, 5], vec![1, 2, 3]));
    assert_eq!(2000000, min_cost(vec![2000000, 0], vec![3, 1]));
    assert_eq!(
        4294967295,
        min_cost(vec![i32::MAX, i32::MIN], vec![1, 5])
    );
    assert_eq!(8, min_cost_sorted(&vec![(1, 2), (2, 14), (3, 3), (5, 1)]));
}
