use interview::sorting::{
    bubble_sort, heap_sort, insertion_sort, merge_sort, quick_sort, quick_sort_partial,
};

fn check_sort(f: &dyn Fn(&mut Vec<i32>)) {
    let mut nbs = vec![3, 2, 1];
    f(&mut nbs);
    assert_eq!(vec!(1, 2, 3), nbs);
    let mut nbs = vec![1, 2, 3];
    f(&mut nbs);
    assert_eq!(vec!(1, 2, 3), nbs);
    let mut nbs = vec![3, 2, 35, 1, -2, 100];
    f(&mut nbs);
    assert_eq!(vec!(-2, 1, 2, 3, 35, 100), nbs);
}

#[test]
fn test_quick_sort() {
    check_sort(&quick_sort);
}

#[test]
fn test_bubble_sort() {
    check_sort(&bubble_sort);
}

#[test]
fn test_insertion_sort() {
    check_sort(&insertion_sort);
}

#[test]
fn test_merge_sort() {
    check_sort(&merge_sort);
}

#[test]
fn test_quick_sort_partial() {
    let mut nbs = vec![9, 8, 7, 6, 5, 4];
    quick_sort_partial(&mut nbs, 1, 4);
    assert_eq!(vec![9, 5, 6, 7, 8, 4], nbs);
    quick_sort_partial(&mut nbs, 3, 3);
    assert_eq!(vec![9, 5, 6, 7, 8, 4], nbs);
}

#[test]
fn test_sorts_with_repeats() {
    let mut nbs = vec![2, 1, 2, 1, 2, 2, 1];
    quick_sort(&mut nbs);
    assert_eq!(vec![1, 1, 1, 2, 2, 2, 2], nbs);
    let mut nbs = vec![4, 2, 3, 1];
    merge_sort(&mut nbs);
    assert_eq!(vec![1, 2, 3, 4], nbs);
    let mut nbs: Vec<i32> = vec![];
    quick_sort(&mut nbs);
    insertion_sort(&mut nbs);
    assert!(nbs.is_empty());
}

#[test]
fn test_heap_sort() {
    check_sort(&heap_sort);
}

#[test]
fn test_heap_sort_looks_at_last_child() {
    let mut nbs = vec![4, 2, 3, 1];
    heap_sort(&mut nbs);
    assert_eq!(vec![1, 2, 3, 4], nbs);
    let mut nbs = vec![7];
    heap_sort(&mut nbs);
    assert_eq!(vec![7], nbs);
    let mut nbs = vec![5, 1, 4, 1, 5, 9, 2, 6, 5, 3, 5];
    heap_sort(&mut nbs);
    assert_eq!(vec![1, 1, 2, 3, 4, 5, 5, 5, 5, 6, 9], nbs);
}
