use interview::llist::LList;

#[test]
fn test_push_pop() {
    let mut l = LList::new();
    assert_eq!(0, l.size());
    assert_eq!(true, l.is_empty());
    l.push(5);
    assert_eq!(1, l.size());
    assert_eq!(false, l.is_empty());
    assert_eq!(5, l.pop());
    assert_eq!(0, l.size());
    assert_eq!(true, l.is_empty());

    l.push(5);
    l.push(10);
    assert_eq!(2, l.size());
    assert_eq!(false, l.is_empty());
    assert_eq!(10, l.pop());
    assert_eq!(1, l.size());
    assert_eq!(false, l.is_empty());
    assert_eq!(5, l.pop());
    assert_eq!(0, l.size());
    assert_eq!(true, l.is_empty());
}

#[test]
fn test_head() {
    let mut l = LList::new();
    l.push(5);
    assert_eq!(&5, l.head());
    assert_eq!(&5, l.head());
    l.push(10);
    assert_eq!(&10, l.head());
    assert_eq!(10, l.pop());
    assert_eq!(&5, l.head());
}

#[test]
fn llist_test_reverse() {
    let mut l = LList::new();
    l.push(5);
    l.push(10);
    l.push(20);
    assert_eq!(3, l.size());
    l.reverse();
    assert_eq!(3, l.size());
    assert_eq!(5, l.pop());
    assert_eq!(10, l.pop());
    assert_eq!(20, l.pop());
    assert_eq!(0, l.size());
}

#[test]
fn test_into_iter() {
    let mut l = LList::new();
    l.push(5);
    l.push(10);
    l.push(20);
    assert_eq!(3, l.size());
    let mut v = vec![];
    let mut it = l.into_iter();
    while let Some(d) = it.next() {
        v.push(d.clone());
    }
    assert_eq!(None, it.next());
    assert_eq!(3, l.size());
    assert_eq!(vec!(20, 10, 5), v);
}

#[test]
fn test_from_iter() {
    let iter = (0..3).into_iter();
    let mut l = LList::from_iter(iter.collect());
    assert_eq!(3, l.size());
    assert_eq!(0, l.pop());
    assert_eq!(1, l.pop());
    assert_eq!(2, l.pop());
}

#[test]
fn test_clear() {
    let mut l = LList::new();
    l.push(5);
    l.push(10);
    l.push(20);
    assert_eq!(3, l.size());
    l.clear();
    assert_eq!(0, l.size());
    assert!(l.is_empty());
}

#[test]
fn test_map() {
    let mut l = LList::new();
    l.push(5);
    l.push(10);
    l.push(20);
    l.map(|i| i * 3);
    assert_eq!(60, l.pop());
    assert_eq!(30, l.pop());
    assert_eq!(15, l.pop());
}
