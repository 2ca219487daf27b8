//! Deranged anagrams: words with the same letters of which no letter keeps
//! its place.
use vstd::prelude::*;
use vstd::utf8::encode_utf8;
use core::cmp::Ordering;
use crate::string::{anagram, occurrences};
use crate::text::{chars_of, texts};

verus! {

/// At no place do the two sequences hold the same character.
pub open spec fn deranged(a: Seq<char>, b: Seq<char>) -> bool {
    forall|i: int| 0 <= i < a.len() && i < b.len() ==> a[i] != b[i]
}

/// Whether the two strings differ at every place that both have.
pub fn is_deranged(s1: &str, s2: &str) -> (r: bool)
    ensures
        r == deranged(s1@, s2@),
{
    let a = chars_of(s1);
    let b = chars_of(s2);
    let mut i: usize = 0;
    while i < a.len() && i < b.len()
        invariant
            a@ == s1@,
            b@ == s2@,
            forall|k: int| 0 <= k < i ==> a@[k] != b@[k],
        decreases a.len() - i,
    {
        if a[i] == b[i] {
            return false;
        }
        i += 1;
    }
    true
}

/// How two rows of bytes compare, the first difference deciding and a row
/// coming before those that continue it: negative where `a` comes first,
/// zero where the two are the same, positive where `b` comes first.
pub open spec fn byte_rank(a: Seq<u8>, b: Seq<u8>) -> int
    decreases a.len(),
{
    if a.len() == 0 {
        if b.len() == 0 {
            0
        } else {
            -1
        }
    } else if b.len() == 0 {
        1
    } else if a[0] < b[0] {
        -1
    } else if a[0] > b[0] {
        1
    } else {
        byte_rank(a.skip(1), b.skip(1))
    }
}

/// How two words compare: the one with more bytes comes first, and of two
/// with as many bytes the one that comes first by its bytes.
pub open spec fn word_rank(a: Seq<char>, b: Seq<char>) -> int {
    if encode_utf8(a).len() > encode_utf8(b).len() {
        -1
    } else if encode_utf8(a).len() < encode_utf8(b).len() {
        1
    } else {
        byte_rank(encode_utf8(a), encode_utf8(b))
    }
}

/// No word comes after a later one.
pub open spec fn in_word_order(w: Seq<Seq<char>>) -> bool {
    forall|i: int, j: int| 0 <= i < j < w.len() ==> word_rank(w[i], w[j]) <= 0
}

/// `str`'s `cmp`. Trusted: strings are ordered by their bytes, the first
/// difference deciding.
#[verifier::external_body]
fn text_order(a: &str, b: &str) -> (o: Ordering)
    ensures
        o == Ordering::Less <==> byte_rank(encode_utf8(a@), encode_utf8(b@)) < 0,
        o == Ordering::Equal <==> byte_rank(encode_utf8(a@), encode_utf8(b@)) == 0,
        o == Ordering::Greater <==> byte_rank(encode_utf8(a@), encode_utf8(b@)) > 0,
{
    a.cmp(b)
}

/// How two words compare: the longer first, then by their bytes.
fn word_order(s1: &String, s2: &String) -> (o: Ordering)
    ensures
        o == Ordering::Less <==> word_rank(s1@, s2@) < 0,
        o == Ordering::Equal <==> word_rank(s1@, s2@) == 0,
        o == Ordering::Greater <==> word_rank(s1@, s2@) > 0,
{
    let (l1, l2) = (s1.as_str().as_bytes().len(), s2.as_str().as_bytes().len());
    if l2 < l1 {
        Ordering::Less
    } else if l2 > l1 {
        Ordering::Greater
    } else {
        text_order(s1.as_str(), s2.as_str())
    }
}

/// The slice's `sort_by` with the order of `word_order`. Trusted: the words
/// are rearranged so that none comes after a later one.
#[verifier::external_body]
fn sort_words(v: &mut Vec<String>)
    ensures
        in_word_order(texts(final(v)@)),
        texts(final(v)@).to_multiset() == texts(old(v)@).to_multiset(),
{
    v.sort_by(|s1, s2| word_order(s1, s2))
}

/// Each of the two words is a rearrangement of the other, and they differ
/// at every place.
pub open spec fn deranged_anagrams(a: Seq<char>, b: Seq<char>) -> bool {
    deranged(a, b) && forall|c: char| occurrences(a, c) == occurrences(b, c)
}

/// The place where the run of words with as many bytes as the word at `j`
/// begins: the first place after the last one before `j` at which the
/// number of bytes falls.
pub open spec fn run_begin(w: Seq<Seq<char>>, j: int) -> int
    decreases j,
{
    if j <= 0 {
        0
    } else if encode_utf8(w[j]).len() < shortest_upto(w, j) {
        j
    } else {
        run_begin(w, j - 1)
    }
}

/// The least number of bytes of a word before `j`; the greatest `usize`
/// where there is none.
pub open spec fn shortest_upto(w: Seq<Seq<char>>, j: int) -> int
    decreases j,
{
    if j <= 0 {
        usize::MAX as int
    } else if encode_utf8(w[j - 1]).len() < shortest_upto(w, j - 1) {
        encode_utf8(w[j - 1]).len() as int
    } else {
        shortest_upto(w, j - 1)
    }
}

/// The first word from `from` up to, not including, `upto` that is a
/// deranged anagram of the word at `j`, by its place.
pub open spec fn partner(w: Seq<Seq<char>>, j: int, from: int, upto: int) -> Option<int>
    decreases upto - from,
{
    if from >= upto {
        None
    } else if deranged_anagrams(w[from], w[j]) {
        Some(from)
    } else {
        partner(w, j, from + 1, upto)
    }
}

/// The first word from `j` on that has a partner in its run before it, with
/// that partner: the places of the two.
pub open spec fn first_pair(w: Seq<Seq<char>>, j: int) -> Option<(int, int)>
    decreases w.len() - j,
{
    if j < 0 || j >= w.len() {
        None
    } else {
        match partner(w, j, run_begin(w, j), j) {
            Some(i) => Some((i, j)),
            None => first_pair(w, j + 1),
        }
    }
}

/// A run begins at or before its word.
proof fn lemma_run_begin(w: Seq<Seq<char>>, j: int)
    requires
        0 <= j,
    ensures
        0 <= run_begin(w, j) <= j,
    decreases j,
{
    if j > 0 {
        lemma_run_begin(w, j - 1);
    }
}

/// Puts the words in order, the longest first and words of one length by
/// their bytes, and returns the first word that is a deranged anagram of a
/// word before it in the run of words of its length, after that word: the
/// longest deranged anagrams. `None` where there are none. No word may be
/// longer than the greatest `u32`.
pub fn longest_deranged(v: &mut Vec<String>) -> (r: Option<(String, String)>)
    requires
        forall|i: int| 0 <= i < old(v)@.len() ==> (#[trigger] old(v)@[i])@.len() <= u32::MAX,
    ensures
        in_word_order(texts(final(v)@)),
        texts(final(v)@).to_multiset() == texts(old(v)@).to_multiset(),
        match (r, first_pair(texts(final(v)@), 0)) {
            (Some((a, b)), Some((i, j))) => 0 <= i < j < final(v)@.len() && a@ == final(v)@[i]@
                && b@ == final(v)@[j]@,
            (None, None) => true,
            _ => false,
        },
{
    let ghost before = texts(v@);
    sort_words(v);
    let ghost w = texts(v@);
    proof {
        vstd::seq_lib::to_multiset_len(before);
        vstd::seq_lib::to_multiset_len(w);
        assert forall|i: int| 0 <= i < v@.len() implies (#[trigger] v@[i])@.len() <= u32::MAX by {
            vstd::seq_lib::to_multiset_contains(before, w[i]);
            vstd::seq_lib::to_multiset_contains(w, w[i]);
            assert(w.contains(w[i]));
            let k = choose|k: int| 0 <= k < before.len() && before[k] == w[i];
            assert(old(v)@[k]@ == before[k]);
        }
    }
    let n = v.len();
    let mut previous_length: usize = usize::MAX;
    let mut begin: usize = 0;
    let mut j: usize = 0;
    while j < n
        invariant
            n == v@.len(),
            w == texts(v@),
            in_word_order(w),
            w.to_multiset() == texts(old(v)@).to_multiset(),
            j <= n,
            forall|i: int| 0 <= i < v@.len() ==> (#[trigger] v@[i])@.len() <= u32::MAX,
            previous_length == shortest_upto(w, j as int),
            j > 0 ==> begin == run_begin(w, j - 1),
            j == 0 ==> begin == 0,
            first_pair(w, 0) == first_pair(w, j as int),
        decreases n - j,
    {
        let s = &v[j];
        proof {
            assert(w[j as int] == v@[j as int]@);
            lemma_run_begin(w, j as int);
        }
        if s.as_str().as_bytes().len() < previous_length {
            begin = j;
            previous_length = s.as_str().as_bytes().len();
        }
        proof {
            assert(begin == run_begin(w, j as int));
            assert(previous_length == shortest_upto(w, j + 1));
        }
        let mut i: usize = begin;
        while i < j
            invariant
                n == v@.len(),
                w == texts(v@),
                in_word_order(w),
                w.to_multiset() == texts(old(v)@).to_multiset(),
                first_pair(w, 0) == first_pair(w, j as int),
                begin == run_begin(w, j as int),
                begin <= i <= j < n,
                *s == v@[j as int],
                forall|i: int| 0 <= i < v@.len() ==> (#[trigger] v@[i])@.len() <= u32::MAX,
                partner(w, j as int, begin as int, j as int) == partner(
                    w,
                    j as int,
                    i as int,
                    j as int,
                ),
            decreases j - i,
        {
            let a = &v[i];
            proof {
                assert(w[i as int] == v@[i as int]@);
                assert(w[j as int] == v@[j as int]@);
            }
            if is_deranged(a.as_str(), s.as_str()) && anagram(a.as_str(), s.as_str()) {
                return Some((a.clone(), s.clone()));
            }
            i += 1;
        }
        j += 1;
    }
    None
}

} // verus!
