//! Problems on strings.
use vstd::prelude::*;
use std::collections::HashMap;
use vstd::string::StringSliceAdditionalSpecFns;
use vstd::utf8::encode_utf8;
use crate::text::{chars_of, pop_char, push_char, string_of};

verus! {

broadcast use vstd::std_specs::hash::group_hash_axioms;

/// The number of the character.
pub open spec fn code_of(c: char) -> u32 {
    c as u32
}

/// Two characters with the same number are the same.
proof fn lemma_codes_differ(c: char, d: char)
    ensures
        code_of(c) == code_of(d) ==> c == d,
{
}

/// How often `c` occurs in `s`.
pub open spec fn occurrences(s: Seq<char>, c: char) -> nat
    decreases s.len(),
{
    if s.len() == 0 {
        0
    } else {
        occurrences(s.drop_last(), c) + if s.last() == c {
            1nat
        } else {
            0nat
        }
    }
}

/// A character occurs no more often than the string is long.
proof fn lemma_occurrences_bound(s: Seq<char>, c: char)
    ensures
        occurrences(s, c) <= s.len(),
    decreases s.len(),
{
    if s.len() > 0 {
        lemma_occurrences_bound(s.drop_last(), c);
    }
}

/// A character occurs in a string exactly if it stands at some place.
proof fn lemma_occurs_somewhere(s: Seq<char>, c: char)
    ensures
        occurrences(s, c) > 0 <==> s.contains(c),
    decreases s.len(),
{
    if s.len() > 0 {
        lemma_occurs_somewhere(s.drop_last(), c);
        if s.drop_last().contains(c) {
            let i = choose|i: int| 0 <= i < s.drop_last().len() && s.drop_last()[i] == c;
            assert(s[i] == c);
        }
        if s.contains(c) {
            let i = choose|i: int| 0 <= i < s.len() && s[i] == c;
            if i < s.len() - 1 {
                assert(s.drop_last()[i] == c);
            }
        }
    }
}

/// For every character of the string how often it occurs, under the number
/// of the character.
fn char_count(s1: &str) -> (ch1: HashMap<u32, u32>)
    requires
        s1@.len() <= u32::MAX,
    ensures
        forall|c: char| #[trigger] ch1@.contains_key(code_of(c)) <==> occurrences(s1@, c) > 0,
        forall|c: char| #[trigger] ch1@.contains_key(code_of(c)) ==> ch1@[code_of(c)] == occurrences(s1@, c),
{
    let chars = chars_of(s1);
    let mut ch1: HashMap<u32, u32> = HashMap::new();
    let mut i: usize = 0;
    while i < chars.len()
        invariant
            i <= chars.len(),
            chars@ == s1@,
            s1@.len() <= u32::MAX,
            forall|c: char| #[trigger] ch1@.contains_key(code_of(c)) <==> occurrences(chars@.take(i as int), c) > 0,
            forall|c: char| #[trigger] ch1@.contains_key(code_of(c)) ==> ch1@[code_of(c)] == occurrences(chars@.take(i as int), c),
        decreases chars.len() - i,
    {
        let c = chars[i];
        let key = c as u32;
        assert(key == code_of(c));
        let n = match ch1.get(&key) {
            Some(x) => *x,
            None => 0,
        };
        let ghost before = ch1@;
        proof {
            lemma_occurrences_bound(chars@.take(i as int), c);
            assert(chars@.take(i + 1).drop_last() =~= chars@.take(i as int));
            assert(before.contains_key(code_of(c)) <==> occurrences(chars@.take(i as int), c) > 0);
            assert(n == occurrences(chars@.take(i as int), c));
        }
        ch1.insert(key, n + 1);
        proof {
            assert(ch1@ == before.insert(key, (n + 1) as u32));
            assert(chars@.take(i + 1).last() == c);
            assert forall|d: char|
                (#[trigger] ch1@.contains_key(code_of(d)) <==> occurrences(chars@.take(i + 1), d)
                    > 0) && (ch1@.contains_key(code_of(d)) ==> ch1@[code_of(d)] == occurrences(
                    chars@.take(i + 1),
                    d,
                )) by {
                assert(before.contains_key(code_of(d)) <==> occurrences(chars@.take(i as int), d)
                    > 0);
                assert(occurrences(chars@.take(i + 1), d) == occurrences(chars@.take(i as int), d)
                    + if c == d {
                    1nat
                } else {
                    0nat
                });
                if d != c {
                    lemma_codes_differ(c, d);
                    assert(code_of(d) != key);
                }
            }
        }
        i += 1;
    }
    proof {
        assert(chars@.take(chars@.len() as int) =~= chars@);
    }
    ch1
}

/// Whether the two tables give every character of `chars` the same count.
fn same_counts(chars: &Vec<char>, a: &HashMap<u32, u32>, b: &HashMap<u32, u32>) -> (r: bool)
    ensures
        r == forall|i: int|
            0 <= i < chars@.len() ==> (a@.contains_key(#[trigger] code_of(chars@[i]))
                == b@.contains_key(code_of(chars@[i])) && (a@.contains_key(code_of(chars@[i]))
                ==> a@[code_of(chars@[i])] == b@[code_of(chars@[i])])),
{
    let mut i: usize = 0;
    while i < chars.len()
        invariant
            i <= chars.len(),
            forall|k: int|
                0 <= k < i ==> (a@.contains_key(#[trigger] code_of(chars@[k])) == b@.contains_key(
                    code_of(chars@[k]),
                ) && (a@.contains_key(code_of(chars@[k])) ==> a@[code_of(chars@[k])]
                    == b@[code_of(chars@[k])])),
        decreases chars.len() - i,
    {
        let key = chars[i] as u32;
        assert(key == code_of(chars@[i as int]));
        let same = match (a.get(&key), b.get(&key)) {
            (Some(x), Some(y)) => *x == *y,
            (None, None) => true,
            _ => false,
        };
        if !same {
            return false;
        }
        i += 1;
    }
    true
}

/// Whether each of the two strings is a rearrangement of the other: every
/// character occurs in both equally often.
pub fn anagram(s1: &str, s2: &str) -> (r: bool)
    requires
        s1@.len() <= u32::MAX,
        s2@.len() <= u32::MAX,
    ensures
        r == forall|c: char| occurrences(s1@, c) == occurrences(s2@, c),
{
    let m1 = char_count(s1);
    let m2 = char_count(s2);
    let c1 = chars_of(s1);
    let c2 = chars_of(s2);
    let r = same_counts(&c1, &m1, &m2) && same_counts(&c2, &m1, &m2);
    proof {
        if r {
            assert forall|c: char| occurrences(s1@, c) == occurrences(s2@, c) by {
                lemma_occurs_somewhere(s1@, c);
                lemma_occurs_somewhere(s2@, c);
                if s1@.contains(c) {
                    let i = choose|i: int| 0 <= i < s1@.len() && s1@[i] == c;
                    assert(m1@.contains_key(code_of(c1@[i])));
                } else if s2@.contains(c) {
                    let i = choose|i: int| 0 <= i < s2@.len() && s2@[i] == c;
                    assert(m2@.contains_key(code_of(c2@[i])));
                } else {
                }
            }
        } else {
            let chars = if !same_counts_holds(c1@, m1@, m2@) {
                c1@
            } else {
                c2@
            };
            let i = choose|i: int|
                0 <= i < chars.len() && !(m1@.contains_key(#[trigger] code_of(chars[i]))
                    == m2@.contains_key(code_of(chars[i])) && (m1@.contains_key(code_of(chars[i]))
                    ==> m1@[code_of(chars[i])] == m2@[code_of(chars[i])]));
            let c = chars[i];
            assert(occurrences(s1@, c) != occurrences(s2@, c));
        }
    }
    r
}

/// What `same_counts` decides.
spec fn same_counts_holds(chars: Seq<char>, a: Map<u32, u32>, b: Map<u32, u32>) -> bool {
    forall|i: int|
        0 <= i < chars.len() ==> (a.contains_key(#[trigger] code_of(chars[i])) == b.contains_key(
            code_of(chars[i]),
        ) && (a.contains_key(code_of(chars[i])) ==> a[code_of(chars[i])] == b[code_of(chars[i])]))
}

/// How often the character occurs in the string.
pub fn char_occurrences(s: &str, c: &char) -> (r: u32)
    requires
        s@.len() <= u32::MAX,
    ensures
        r == occurrences(s@, *c),
{
    let m = char_count(s);
    let key = *c as u32;
    assert(key == code_of(*c));
    proof {
        assert(m@.contains_key(code_of(*c)) <==> occurrences(s@, *c) > 0);
    }
    match m.get(&key) {
        Some(x) => *x,
        None => 0,
    }
}

/// Reverses the string in place.
pub fn reverse(s1: &mut String)
    ensures
        final(s1)@ == old(s1)@.reverse(),
{
    let mut v: Vec<char> = Vec::new();
    loop
        invariant
            v@.len() + s1@.len() == old(s1)@.len(),
            s1@ == old(s1)@.take(s1@.len() as int),
            forall|k: int| 0 <= k < v@.len() ==> v@[k] == old(s1)@[old(s1)@.len() - 1 - k],
        ensures
            s1@.len() == 0,
            v@ == old(s1)@.reverse(),
        decreases s1@.len(),
    {
        match pop_char(s1) {
            Some(c) => {
                v.push(c);
            },
            None => {
                proof {
                    assert(v@ =~= old(s1)@.reverse());
                }
                break ;
            },
        }
    }
    let mut i: usize = 0;
    while i < v.len()
        invariant
            i <= v.len(),
            s1@ == v@.take(i as int),
        decreases v.len() - i,
    {
        push_char(s1, v[i]);
        proof {
            assert(v@.take(i + 1) =~= v@.take(i as int).push(v@[i as int]));
        }
        i += 1;
    }
    proof {
        assert(v@.take(v@.len() as int) =~= v@);
    }
}

/// Whether the string reads the same from both ends.
pub fn palindrome(s: &str) -> (r: bool)
    ensures
        r == (s@ == s@.reverse()),
{
    let s1 = s.to_owned();
    let mut s2 = s.to_owned();
    reverse(&mut s2);
    s1 == s2
}

/// The least number of bytes to put in, take out or replace that turns the
/// first `i` bytes of `a` into the first `j` bytes of `b`.
pub open spec fn edit_distance(a: Seq<u8>, b: Seq<u8>, i: int, j: int) -> int
    decreases i + j,
{
    if i <= 0 {
        if j <= 0 {
            0
        } else {
            j
        }
    } else if j <= 0 {
        i
    } else if a[i - 1] == b[j - 1] {
        edit_distance(a, b, i - 1, j - 1)
    } else {
        let delete = edit_distance(a, b, i - 1, j);
        let insert = edit_distance(a, b, i, j - 1);
        let replace = edit_distance(a, b, i - 1, j - 1);
        1 + if delete <= insert && delete <= replace {
            delete
        } else if insert <= replace {
            insert
        } else {
            replace
        }
    }
}

/// The distance is no more than the longer of the two prefixes.
proof fn lemma_edit_distance_bound(a: Seq<u8>, b: Seq<u8>, i: int, j: int)
    requires
        0 <= i,
        0 <= j,
    ensures
        0 <= edit_distance(a, b, i, j) <= i + j,
    decreases i + j,
{
    if i > 0 && j > 0 {
        lemma_edit_distance_bound(a, b, i - 1, j - 1);
        lemma_edit_distance_bound(a, b, i - 1, j);
        lemma_edit_distance_bound(a, b, i, j - 1);
    }
}

/// The edit distance of the two words, taken byte by byte. Together they
/// must be shorter than the greatest `i32`.
pub fn min_distance(word1: String, word2: String) -> (r: i32)
    requires
        encode_utf8(word1@).len() + encode_utf8(word2@).len() < i32::MAX,
    ensures
        r == edit_distance(
            encode_utf8(word1@),
            encode_utf8(word2@),
            encode_utf8(word1@).len() as int,
            encode_utf8(word2@).len() as int,
        ),
{
    let c1: &[u8] = word1.as_str().as_bytes();
    let c2: &[u8] = word2.as_str().as_bytes();
    let (l1, l2) = (c1.len(), c2.len());
    let mut m: Vec<Vec<i32>> = vec![vec![0i32; l2 + 1]; l1 + 1];
    let mut i: usize = 0;
    while i < l1
        invariant
            i <= l1,
            l1 + l2 < i32::MAX,
            m@.len() == l1 + 1,
            forall|x: int| 0 <= x <= l1 ==> (#[trigger] m@[x])@.len() == l2 + 1,
            forall|x: int| 1 <= x <= i ==> (#[trigger] m@[x])@[0] == x,
            forall|y: int| 0 <= y <= l2 ==> #[trigger] m@[0]@[y] == 0,
        decreases l1 - i,
    {
        let ghost before = m@;
        m[i + 1][0] = i as i32 + 1;
        proof {
            assert forall|x: int| 1 <= x <= i + 1 implies (#[trigger] m@[x])@[0] == x by {
                if x <= i {
                    assert(m@[x] == before[x]);
                }
            }
        }
        i += 1;
    }
    let mut i: usize = 0;
    while i < l2
        invariant
            i <= l2,
            l1 + l2 < i32::MAX,
            m@.len() == l1 + 1,
            forall|x: int| 0 <= x <= l1 ==> (#[trigger] m@[x])@.len() == l2 + 1,
            forall|x: int| 1 <= x <= l1 ==> (#[trigger] m@[x])@[0] == x,
            forall|y: int| 1 <= y <= i ==> #[trigger] m@[0]@[y] == y,
            m@[0]@[0] == 0,
        decreases l2 - i,
    {
        let ghost before = m@;
        m[0][i + 1] = i as i32 + 1;
        proof {
            assert forall|x: int| 1 <= x <= l1 implies (#[trigger] m@[x])@[0] == x by {
                assert(m@[x] == before[x]);
            }
        }
        i += 1;
    }
    let mut j: usize = 0;
    while j < l2
        invariant
            j <= l2,
            l1 == c1@.len(),
            l2 == c2@.len(),
            l1 + l2 < i32::MAX,
            m@.len() == l1 + 1,
            forall|x: int| 0 <= x <= l1 ==> (#[trigger] m@[x])@.len() == l2 + 1,
            forall|x: int, y: int|
                0 <= x <= l1 && 0 <= y <= l2 && (x == 0 || y <= j) ==> #[trigger] m@[x]@[y]
                    == edit_distance(c1@, c2@, x, y),
        decreases l2 - j,
    {
        let cj = c2[j];
        let mut i: usize = 0;
        while i < l1
            invariant
                i <= l1,
                j < l2,
                cj == c2@[j as int],
                l1 == c1@.len(),
                l2 == c2@.len(),
                l1 + l2 < i32::MAX,
                m@.len() == l1 + 1,
                forall|x: int| 0 <= x <= l1 ==> (#[trigger] m@[x])@.len() == l2 + 1,
                forall|x: int, y: int|
                    0 <= x <= l1 && 0 <= y <= l2 && (x == 0 || y <= j || (y == j + 1 && x <= i))
                        ==> #[trigger] m@[x]@[y] == edit_distance(c1@, c2@, x, y),
            decreases l1 - i,
        {
            let ci = c1[i];
            let ghost before = m@;
            proof {
                lemma_edit_distance_bound(c1@, c2@, i as int, j as int);
                lemma_edit_distance_bound(c1@, c2@, i + 1, j as int);
                lemma_edit_distance_bound(c1@, c2@, i as int, j + 1);
                assert(m@[i as int]@[j as int] == edit_distance(c1@, c2@, i as int, j as int));
                assert(m@[i as int]@[j + 1] == edit_distance(c1@, c2@, i as int, j + 1));
                assert(m@[i + 1]@[j as int] == edit_distance(c1@, c2@, i + 1, j as int));
            }
            if ci == cj {
                m[i + 1][j + 1] = m[i][j];
            } else {
                let delete = m[i][j + 1];
                let insert = m[i + 1][j];
                let replace = m[i][j];
                let least = if delete <= insert && delete <= replace {
                    delete
                } else if insert <= replace {
                    insert
                } else {
                    replace
                };
                m[i + 1][j + 1] = 1 + least;
            }
            proof {
                assert forall|x: int, y: int|
                    0 <= x <= l1 && 0 <= y <= l2 && (x == 0 || y <= j || (y == j + 1 && x <= i
                        + 1)) implies #[trigger] m@[x]@[y] == edit_distance(c1@, c2@, x, y) by {
                    if x == i + 1 && y == j + 1 {
                    } else {
                        assert(m@[x]@[y] == before[x]@[y]);
                    }
                }
            }
            i += 1;
        }
        j += 1;
    }
    m[l1][l2]
}

/// Whether `x` is no later in order than `target`.
fn not_above(x: &char, target: &char) -> (r: bool)
    ensures
        r == (*x <= *target),
{
    *x <= *target
}

/// The letters never fall from front to back.
pub open spec fn letters_sorted(letters: Seq<char>) -> bool {
    forall|i: int, j: int| 0 <= i <= j < letters.len() ==> letters[i] <= letters[j]
}

/// The slice's `partition_point` with the test `not_above`. Trusted: where
/// the letters are sorted, the result is a place of the slice or its
/// length, none before it is above the target and all from it on are.
#[verifier::external_body]
fn first_above(letters: &Vec<char>, target: char) -> (ix: usize)
    ensures
        letters_sorted(letters@) ==> ix <= letters@.len(),
        letters_sorted(letters@) ==> forall|k: int| 0 <= k < ix ==> #[trigger] letters@[k] <= target,
        letters_sorted(letters@) ==> forall|k: int|
            ix <= k < letters@.len() ==> #[trigger] letters@[k] > target,
{
    letters.partition_point(|x| not_above(x, &target))
}

/// The first letter after the target in a sorted row of letters that is
/// taken to go round: the first of the row where no letter is above the
/// target. The row must not be empty; of a row that is not sorted only some
/// letter of it is returned.
pub fn next_greatest_letter(letters: Vec<char>, target: char) -> (r: char)
    requires
        letters@.len() > 0,
    ensures
        letters@.contains(r),
        letters_sorted(letters@) ==> (r > target || r == letters@[0]),
        letters_sorted(letters@) ==> forall|k: int|
            0 <= k < letters@.len() && #[trigger] letters@[k] > target ==> target < r
                <= letters@[k],
{
    let ix = first_above(&letters, target);
    if ix < letters.len() {
        letters[ix]
    } else {
        letters[0]
    }
}

/// `p` agrees with `v` before the place `st` and holds from `st` on the
/// characters that `v` holds there, in any order.
pub open spec fn arranged_from(v: Seq<char>, p: Seq<char>, st: int) -> bool {
    &&& p.len() == v.len()
    &&& forall|k: int| 0 <= k < st ==> p[k] == v[k]
    &&& p.skip(st).to_multiset() == v.skip(st).to_multiset()
}

/// One of the characters of `v` from `st` up to, not including, `i` stands
/// in `p` at `st`.
pub open spec fn headed(v: Seq<char>, p: Seq<char>, st: int, i: int) -> bool {
    exists|j: int| st <= j < i && v[j] == p[st]
}

/// `p` is one of the sequences of `acc`.
pub open spec fn listed(acc: Seq<Vec<char>>, p: Seq<char>) -> bool {
    exists|i: int| 0 <= i < acc.len() && (#[trigger] acc[i])@ == p
}

/// No sequence occurs in `acc` twice.
pub open spec fn all_differ(acc: Seq<Vec<char>>) -> bool {
    forall|i: int, j: int| 0 <= i < j < acc.len() ==> (#[trigger] acc[i])@ != (#[trigger] acc[j])@
}

/// What stands first in a sequence is in its bag, and the rest is the bag
/// without it.
proof fn lemma_head_and_rest(s: Seq<char>, st: int)
    requires
        0 <= st < s.len(),
    ensures
        s.skip(st).to_multiset() == s.skip(st + 1).to_multiset().insert(s[st]),
{
    let rest = s.skip(st + 1);
    assert(s.skip(st) =~= seq![s[st]] + rest);
    vstd::seq_lib::lemma_multiset_commutative(seq![s[st]], rest);
    assert(seq![s[st]] =~= Seq::<char>::empty().push(s[st]));
    vstd::seq_lib::to_multiset_build(Seq::<char>::empty(), s[st]);
    vstd::seq_lib::to_multiset_len(Seq::<char>::empty());
    assert(Seq::<char>::empty().to_multiset() =~= vstd::multiset::Multiset::empty()) by {
        broadcast use vstd::multiset::group_multiset_axioms;

    }
    assert(s.skip(st).to_multiset() =~= rest.to_multiset().insert(s[st])) by {
        broadcast use vstd::multiset::group_multiset_axioms;

    }
}

/// With the same character at `st`: to be arranged from `st` on is to be
/// arranged from `st + 1` on.
proof fn lemma_arranged_step(v: Seq<char>, w: Seq<char>, p: Seq<char>, st: int)
    requires
        0 <= st < v.len(),
        arranged_from(v, w, st),
        p.len() == v.len(),
        p[st] == w[st],
    ensures
        arranged_from(v, p, st) <==> arranged_from(w, p, st + 1),
{
    lemma_head_and_rest(w, st);
    lemma_head_and_rest(p, st);
    let a = w.skip(st + 1).to_multiset();
    let b = p.skip(st + 1).to_multiset();
    let x = w[st];
    assert(a.insert(x).remove(x) =~= a) by {
        broadcast use vstd::multiset::group_multiset_axioms;

    }
    assert(b.insert(x).remove(x) =~= b) by {
        broadcast use vstd::multiset::group_multiset_axioms;

    }
    if arranged_from(v, p, st) {
        assert(a.insert(x) == b.insert(x));
        assert(a == b);
        assert forall|k: int| 0 <= k < st + 1 implies p[k] == w[k] by {}
    }
    if arranged_from(w, p, st + 1) {
        assert forall|k: int| 0 <= k < st implies p[k] == v[k] by {
            assert(p[k] == w[k]);
        }
    }
}

/// What is arranged from `st` on has at `st` one of the characters that
/// stand from `st` on.
proof fn lemma_arranged_head(v: Seq<char>, p: Seq<char>, st: int) -> (j: int)
    requires
        0 <= st < v.len(),
        arranged_from(v, p, st),
    ensures
        st <= j < v.len(),
        v[j] == p[st],
{
    let a = p.skip(st);
    let b = v.skip(st);
    assert(a[0] == p[st]);
    vstd::seq_lib::to_multiset_contains(a, p[st]);
    vstd::seq_lib::to_multiset_contains(b, p[st]);
    assert(a.contains(p[st]));
    let k = choose|k: int| 0 <= k < b.len() && b[k] == p[st];
    k + st
}

/// Whether `acc` holds the sequence of `v`.
fn holds(acc: &Vec<Vec<char>>, v: &Vec<char>) -> (r: bool)
    ensures
        r == listed(acc@, v@),
{
    let mut i: usize = 0;
    while i < acc.len()
        invariant
            i <= acc.len(),
            forall|k: int| 0 <= k < i ==> (#[trigger] acc@[k])@ != v@,
        decreases acc.len() - i,
    {
        let w = &acc[i];
        let mut same = w.len() == v.len();
        let mut k: usize = 0;
        while same && k < w.len()
            invariant
                same ==> w@.len() == v@.len(),
                same ==> k <= w@.len(),
                same ==> forall|x: int| 0 <= x < k ==> w@[x] == v@[x],
                !same ==> w@ != v@,
            decreases w.len() - k + if same { 1int } else { 0int },
        {
            if w[k] != v[k] {
                same = false;
            } else {
                k += 1;
            }
        }
        if same {
            proof {
                assert(w@ =~= v@);
            }
            return true;
        }
        i += 1;
    }
    false
}

/// Adds to `s` every arrangement of `v` that keeps what stands before
/// `st`, unless `s` holds it: each character from `st` on in turn is put at
/// `st`, and the rest is arranged in the same way.
fn permute(v: Vec<char>, st: usize, s: &mut Vec<Vec<char>>)
    requires
        st <= v@.len(),
        all_differ(old(s)@),
    ensures
        all_differ(final(s)@),
        forall|p: Seq<char>| #[trigger]
            listed(final(s)@, p) <==> listed(old(s)@, p) || arranged_from(v@, p, st as int),
    decreases v@.len() - st,
{
    let ghost v0 = v@;
    let mut cur = v;
    if st == cur.len() {
        proof {
            assert forall|p: Seq<char>| arranged_from(v0, p, st as int) <==> p == v0 by {
                if arranged_from(v0, p, st as int) {
                    assert(p =~= v0);
                }
                if p == v0 {
                    assert(p.skip(st as int) =~= v0.skip(st as int));
                }
            }
        }
        if !holds(s, &cur) {
            let ghost before = s@;
            s.push(cur);
            proof {
                assert forall|p: Seq<char>| #[trigger]
                    listed(s@, p) <==> listed(before, p) || p == v0 by {
                    if listed(before, p) {
                        let i = choose|i: int| 0 <= i < before.len() && (#[trigger] before[i])@ == p;
                        assert(s@[i]@ == p);
                    }
                    if p == v0 {
                        assert(s@[before.len() as int]@ == p);
                    }
                    if listed(s@, p) {
                        let i = choose|i: int| 0 <= i < s@.len() && (#[trigger] s@[i])@ == p;
                        if i < before.len() {
                            assert(before[i]@ == p);
                        }
                    }
                }
                assert forall|i: int, j: int| 0 <= i < j < s@.len() implies (#[trigger] s@[i])@ != (
                #[trigger] s@[j])@ by {
                    if j == before.len() {
                        assert(before[i]@ == s@[i]@);
                    } else {
                        assert(before[i]@ == s@[i]@ && before[j]@ == s@[j]@);
                    }
                }
            }
        }
    } else {
        let n = cur.len();
        let mut i: usize = st;
        while i < n
            invariant
                st < n,
                st <= i <= n,
                v0 == v@,
                n == v0.len(),
                cur@.len() == n,
                all_differ(s@),
                arranged_from(v0, cur@, st as int),
                forall|k: int| i <= k < n ==> cur@[k] == v0[k],
                forall|p: Seq<char>| #[trigger]
                    listed(s@, p) <==> listed(old(s)@, p) || (arranged_from(v0, p, st as int)
                        && headed(v0, p, st as int, i as int)),
            decreases n - i,
        {
            let ghost before_swap = cur@;
            let a = cur[st];
            let b = cur[i];
            cur[st] = b;
            cur[i] = a;
            proof {
                let w = cur@;
                assert(w[st as int] == v0[i as int]);
                assert forall|k: int| i + 1 <= k < n implies w[k] == v0[k] by {}
                let sub = before_swap.skip(st as int);
                crate::bags::lemma_exchange_keeps_bag(sub, 0, i - st);
                assert(w.skip(st as int) =~= sub.update(0, sub[i - st]).update(i - st, sub[0]));
            }
            let ghost listed_before = s@;
            let copy = cur.clone();
            proof {
                assert(copy@ =~= cur@);
            }
            permute(copy, st + 1, s);
            proof {
                let w = cur@;
                assert forall|p: Seq<char>| #[trigger]
                    listed(s@, p) <==> listed(old(s)@, p) || (arranged_from(v0, p, st as int)
                        && headed(v0, p, st as int, i + 1)) by {
                    assert(listed(s@, p) <==> listed(listed_before, p) || arranged_from(
                        w,
                        p,
                        st + 1,
                    ));
                    assert(listed(listed_before, p) <==> listed(old(s)@, p) || (arranged_from(
                        v0,
                        p,
                        st as int,
                    ) && headed(v0, p, st as int, i as int)));
                    if headed(v0, p, st as int, i as int) {
                        let j = choose|j: int| st <= j < i && v0[j] == p[st as int];
                        assert(st <= j < i + 1 && v0[j] == p[st as int]);
                    }
                    if p.len() == n && p[st as int] == w[st as int] {
                        lemma_arranged_step(v0, w, p, st as int);
                    }
                    if arranged_from(w, p, st + 1) {
                        assert(p[st as int] == w[st as int]);
                        assert(v0[i as int] == p[st as int]);
                    }
                    if arranged_from(v0, p, st as int) && headed(v0, p, st as int, i + 1) {
                        let j = choose|j: int| st <= j < i + 1 && v0[j] == p[st as int];
                        if j == i {
                            assert(p[st as int] == w[st as int]);
                        } else {
                            assert(st <= j < i && v0[j] == p[st as int]);
                        }
                    }
                }
            }
            i += 1;
        }
        proof {
            assert forall|p: Seq<char>| #[trigger]
                listed(s@, p) <==> listed(old(s)@, p) || arranged_from(v0, p, st as int) by {
                if arranged_from(v0, p, st as int) {
                    let j = lemma_arranged_head(v0, p, st as int);
                    assert(st <= j < n && v0[j] == p[st as int]);
                }
            }
        }
    }
}

/// `p` is the text of one of the strings of `r`.
pub open spec fn among(r: Seq<String>, p: Seq<char>) -> bool {
    exists|i: int| 0 <= i < r.len() && (#[trigger] r[i])@ == p
}

/// All arrangements of the characters of the string, each of them once.
pub fn permutations(s: &str) -> (r: Vec<String>)
    ensures
        forall|i: int, j: int| 0 <= i < j < r@.len() ==> (#[trigger] r@[i])@ != (#[trigger] r@[j])@,
        forall|p: Seq<char>| #[trigger] among(r@, p) <==> p.to_multiset() == s@.to_multiset(),
{
    let mut found: Vec<Vec<char>> = Vec::new();
    let chars = chars_of(s);
    permute(chars, 0, &mut found);
    let mut r: Vec<String> = Vec::new();
    let mut i: usize = 0;
    while i < found.len()
        invariant
            i <= found.len(),
            r@.len() == i,
            forall|k: int| 0 <= k < i ==> (#[trigger] r@[k])@ == found@[k]@,
        decreases found.len() - i,
    {
        r.push(string_of(&found[i]));
        i += 1;
    }
    proof {
        assert forall|p: Seq<char>| #[trigger]
            among(r@, p) <==> p.to_multiset() == s@.to_multiset() by {
            assert(listed(found@, p) <==> arranged_from(s@, p, 0));
            assert(p.skip(0) =~= p);
            assert(s@.skip(0) =~= s@);
            if p.to_multiset() == s@.to_multiset() {
                vstd::seq_lib::to_multiset_len(p);
                vstd::seq_lib::to_multiset_len(s@);
            }
            if listed(found@, p) {
                let i = choose|i: int| 0 <= i < found@.len() && (#[trigger] found@[i])@ == p;
                assert(r@[i]@ == p);
            }
            if exists|i: int| 0 <= i < r@.len() && (#[trigger] r@[i])@ == p {
                let i = choose|i: int| 0 <= i < r@.len() && (#[trigger] r@[i])@ == p;
                assert(found@[i]@ == p);
            }
        }
        assert forall|i: int, j: int| 0 <= i < j < r@.len() implies (#[trigger] r@[i])@ != (
        #[trigger] r@[j])@ by {
            assert(found@[i]@ != found@[j]@);
        }
    }
    r
}

} // verus!
