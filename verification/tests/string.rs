use interview::deranged::{is_deranged, longest_deranged};
use interview::string::{
    anagram, char_occurrences, min_distance, next_greatest_letter, palindrome, permutations,
    reverse,
};
use std::collections::HashSet;
use std::iter::FromIterator;

#[test]
fn test_anagram() {
    assert!(anagram("hello", "hello"));
    assert!(anagram("hello", "holle"));
    assert!(anagram("", ""));
    assert!(!anagram("hello", "hola"));
}

#[test]
fn test_anagram_counts() {
    assert!(!anagram("aab", "abb"));
    assert!(!anagram("ab", "abc"));
    assert!(!anagram("abc", "ab"));
}

#[test]
fn test_occurrences() {
    assert_eq!(1, char_occurrences("hello", &'h'));
    assert_eq!(2, char_occurrences("hello", &'l'));
    assert_eq!(0, char_occurrences("hello", &'a'));
}

#[test]
fn string_test_reverse() {
    let mut s1 = String::from("hello");
    reverse(&mut s1);
    assert_eq!("olleh", &s1);
}

#[test]
fn test_reverse_edges() {
    let mut s1 = String::new();
    reverse(&mut s1);
    assert_eq!("", &s1);
    let mut s1 = String::from("a\u{e9}z");
    reverse(&mut s1);
    assert_eq!("z\u{e9}a", &s1);
}

#[test]
fn test_palindrome() {
    assert!(palindrome("kayak"));
    assert!(!palindrome("hello"));
}

#[test]
fn test_min_distance() {
    assert_eq!(0, min_distance("horse".into(), "horse".into()));
    assert_eq!(3, min_distance("horse".into(), "ros".into()));
    assert_eq!(5, min_distance("intention".into(), "execution".into()));
    assert_eq!(3, min_distance("kitten".into(), "sitting".into()));
}

#[test]
fn test_min_distance_empty() {
    assert_eq!(0, min_distance("".into(), "".into()));
    assert_eq!(3, min_distance("".into(), "abc".into()));
    assert_eq!(2, min_distance("ab".into(), "".into()));
}

#[test]
fn test_next_greatest_letter() {
    assert_eq!('c', next_greatest_letter(vec!['c', 'f', 'j'], 'a'));
    assert_eq!('f', next_greatest_letter(vec!['c', 'f', 'j'], 'c'));
    assert_eq!('x', next_greatest_letter(vec!['x', 'x', 'y', 'y'], 'z'));
}

#[test]
fn test_is_deranged() {
    assert!(is_deranged("excitation", "intoxicate"));
    assert!(!is_deranged("abc", "cba"));
    assert!(is_deranged("", "abc"));
    assert!(is_deranged("ab", "bac"));
}

#[test]
fn test_permutations() {
    let s: HashSet<String> = HashSet::from_iter(
        ["abc", "bac", "acb", "cab", "cba", "bca"]
            .iter()
            .map(|s| String::from(*s)),
    );
    let found = permutations("abc");
    assert_eq!(6, found.len());
    let found: HashSet<String> = HashSet::from_iter(found.into_iter());
    assert_eq!(s, found);
}

#[test]
fn test_permutations_repeats() {
    let mut found = permutations("aab");
    found.sort();
    assert_eq!(vec!["aab", "aba", "baa"], found);
    assert_eq!(vec![String::new()], permutations(""));
    assert_eq!(vec!["zz"], permutations("zz"));
}

#[test]
fn test_longest_deranged() {
    let mut v: Vec<String> = ["cat", "intoxicate", "act", "dog", "excitation", "tac", "god"]
        .iter()
        .map(|s| String::from(*s))
        .collect();
    assert_eq!(
        Some((String::from("excitation"), String::from("intoxicate"))),
        longest_deranged(&mut v)
    );
    assert_eq!(
        vec!["excitation", "intoxicate", "act", "cat", "dog", "god", "tac"],
        v
    );
}

#[test]
fn test_longest_deranged_order_of_partners() {
    let mut v: Vec<String> = ["tac", "cat", "act", "xy"]
        .iter()
        .map(|s| String::from(*s))
        .collect();
    assert_eq!(
        Some((String::from("act"), String::from("tac"))),
        longest_deranged(&mut v)
    );
    let mut v: Vec<String> = ["abc", "acb", "abd", "z"]
        .iter()
        .map(|s| String::from(*s))
        .collect();
    assert_eq!(None, longest_deranged(&mut v));
    let mut v: Vec<String> = vec![];
    assert_eq!(None, longest_deranged(&mut v));
}
