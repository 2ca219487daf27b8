use interview::matrix::{count_negatives, equal_pairs, Solution};

#[test]
fn test_count_negatives() {
    assert_eq!(
        8,
        count_negatives(vec![
            vec![4, 3, 2, -1],
            vec![3, 2, 1, -1],
            vec![1, 1, -1, -2],
            vec![-1, -1, -2, -3]
        ])
    );
    assert_eq!(0, count_negatives(vec![vec![3, 2], vec![1, 0]]));
}

#[test]
fn test_count_negatives_all() {
    assert_eq!(4, count_negatives(vec![vec![-1, -1], vec![-2, -2]]));
    assert_eq!(0, count_negatives(vec![vec![], vec![]]));
}

#[test]
fn test_equal_pairs() {
    assert_eq!(
        1,
        equal_pairs(vec![vec![3, 2, 1], vec![1, 7, 6], vec![2, 7, 7]])
    );
    assert_eq!(
        3,
        equal_pairs(vec![
            vec![3, 1, 2, 2],
            vec![1, 4, 4, 5],
            vec![2, 4, 2, 2],
            vec![2, 4, 2, 2]
        ])
    );
}

#[test]
fn test_equal_pairs_small() {
    assert_eq!(0, equal_pairs(vec![]));
    assert_eq!(1, equal_pairs(vec![vec![100000]]));
    assert_eq!(0, equal_pairs(vec![vec![1, 2], vec![3, 4]]));
}

#[test]
fn test_count_paths() {
    assert_eq!(8, Solution::count_paths(vec![vec![1, 1], vec![3, 4]]));
    assert_eq!(3, Solution::count_paths(vec![vec![1], vec![2]]));
}

#[test]
fn test_count_paths_flat() {
    assert_eq!(4, Solution::count_paths(vec![vec![5, 5], vec![5, 5]]));
    assert_eq!(10, Solution::count_paths(vec![vec![1, 2, 3, 4]]));
}
