use interview::dynamic::{bowling, coins, lcs, lis, parens, rod, subset_sum, Term};

#[test]
fn test_bowling() {
    assert_eq!(0, bowling(&[]));
    assert_eq!(4, bowling(&[4]));
    assert_eq!(0, bowling(&[-4]));
    assert_eq!(6, bowling(&[2, 3]));
    assert_eq!(110, bowling(&[1, 1, 9, 9, 2, -5, -5]));
    assert_eq!(110, bowling(&[-3, 1, 1, 9, 9, 2, -5, -5]));
}

#[test]
fn test_lcs() {
    assert_eq!(vec!['E', 'L'], lcs(&['T', 'E', 'L'], &['H', 'E', 'L', 'L']));
    assert_eq!(Vec::<char>::new(), lcs(&[], &['H', 'E', 'L', 'L']));
    assert_eq!(Vec::<char>::new(), lcs(&['T', 'E', 'L'], &[]));
    assert_eq!(
        vec!['H', 'I'],
        lcs(&['T', 'H', 'E', 'I', 'R'], &['H', 'A', 'B', 'I', 'T'])
    );
    assert_eq!(
        vec!['I', 'E', 'L', 'L', 'O'],
        lcs(
            &['H', 'I', 'E', 'R', 'O', 'G', 'L', 'Y', 'P', 'H', 'O', 'L', 'O', 'G', 'Y'],
            &['M', 'I', 'C', 'H', 'A', 'E', 'L', 'A', 'N', 'G', 'E', 'L', 'O']
        )
    );
}

#[test]
fn test_coins() {
    assert_eq!(105, coins(&[5, 10, 100, 25]));
}

#[test]
fn test_coins_second_player_ahead() {
    assert_eq!(2, coins(&[1, 100, 1]));
    assert_eq!(7, coins(&[7]));
}

#[test]
fn test_parens() {
    assert_eq!(
        88,
        parens(&[7, 4, 3, 5], &[Term::Plus, Term::Times, Term::Plus])
    );
    assert_eq!(
        15,
        parens(&[7, -4, 3, -5], &[Term::Plus, Term::Times, Term::Plus])
    );
}

#[test]
fn test_parens_single() {
    assert_eq!(-3, parens(&[-3], &[]));
}

#[test]
fn test_rod() {
    assert_eq!(33, rod(&[1, 10, 13, 18, 20, 31, 32]))
}

#[test]
fn test_rod_empty() {
    assert_eq!(0, rod(&[]));
    assert_eq!(5, rod(&[5]));
}

#[test]
fn test_subset_sum() {
    assert!(subset_sum(21, &[2, 5, 7, 8, 9]));
    assert!(!subset_sum(25, &[2, 5, 7, 8, 9]))
}

#[test]
fn test_subset_sum_edges() {
    assert!(subset_sum(0, &[]));
    assert!(!subset_sum(1, &[]));
    assert!(!subset_sum(4, &[2]));
}

#[test]
fn test_lis() {
    assert_eq!(Vec::<char>::new(), lis(&[]));
    assert_eq!(vec!['A'], lis(&['H', 'A']));
    assert_eq!(
        vec!['E', 'M', 'P', 'T', 'Y'],
        lis(&['E', 'M', 'P', 'A', 'T', 'H', 'Y'])
    );
    assert_eq!(
        vec!['A', 'B', 'O', 'R', 'T'],
        lis(&['C', 'A', 'R', 'B', 'O', 'H', 'Y', 'D', 'R', 'A', 'T', 'E'])
    );
}

#[test]
fn test_lis_numbers() {
    assert_eq!(vec![1, 2, 3], lis(&[1, 2, 3]));
    assert_eq!(vec![1], lis(&[3, 2, 1]));
    assert_eq!(vec![2, 2 + 1], lis(&[2, 2, 3]));
}
