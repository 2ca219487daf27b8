use interview::math::{largest_altitude, max_profit, max_value, summary_ranges};

#[test]
fn test_summary_ranges() {
    assert_eq!(
        vec!["0->2", "4->5", "7"],
        summary_ranges(vec![0, 1, 2, 4, 5, 7])
    );
    assert_eq!(
        vec!["0", "2->4", "6", "8->9"],
        summary_ranges(vec![0, 2, 3, 4, 6, 8, 9])
    );
}

#[test]
fn test_summary_ranges_signs() {
    assert_eq!(Vec::<String>::new(), summary_ranges(vec![]));
    assert_eq!(vec!["-12->-10", "105"], summary_ranges(vec![-12, -11, -10, 105]));
    assert_eq!(vec!["-1->0"], summary_ranges(vec![-1, 0]));
}

#[test]
fn test_largest_altitude() {
    assert_eq!(1, largest_altitude(vec![-5, 1, 5, 0, -7]));
    assert_eq!(0, largest_altitude(vec![-4, -3, -2, -1, 4, 3, 2]));
}

#[test]
fn test_max_profit() {
    assert_eq!(8, max_profit(vec![1, 3, 2, 8, 4, 9], 2));
    assert_eq!(6, max_profit(vec![1, 3, 7, 5, 10, 3], 3));
}

#[test]
fn test_max_profit_none() {
    assert_eq!(0, max_profit(vec![], 2));
    assert_eq!(0, max_profit(vec![5, 4, 3], 1));
}

#[test]
fn test_max_value() {
    assert_eq!(2, max_value(4, 2, 6));
    assert_eq!(3, max_value(6, 1, 10));
    assert_eq!(7, max_value(3, 2, 18));
    assert_eq!(1, max_value(4, 0, 4));
    assert_eq!(10102750, max_value(9, 0, 90924720));
    assert_eq!(271698267, max_value(3, 0, 815094800));
    assert_eq!(8, max_value(5, 4, 30));
    assert_eq!(11049, max_value(8067, 368, 59432211));
}

#[test]
fn test_max_value_single() {
    assert_eq!(5, max_value(1, 0, 5));
    assert_eq!(1, max_value(3, 1, 2));
}
