use interview::bit::min_flips;

#[test]
fn test_min_flips() {
    assert_eq!(3, min_flips(2, 6, 5));
    assert_eq!(1, min_flips(4, 2, 7));
    assert_eq!(0, min_flips(1, 2, 3));
}

#[test]
fn test_min_flips_edges() {
    assert_eq!(0, min_flips(0, 0, 0));
    assert_eq!(2, min_flips(1, 1, 0));
    assert_eq!(1, min_flips(0, 0, 0x2000_0000));
    assert_eq!(1, min_flips(-1, -2, -4));
}
