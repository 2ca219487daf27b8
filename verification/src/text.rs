//! Texts: the few operations on strings that are taken from the standard
//! library on trust, each with what its documentation says of it, and what
//! the library builds on them.
use vstd::prelude::*;

verus! {

/// The character of the digit `d`, which is below ten.
pub open spec fn digit_char(d: int) -> char {
    if d == 0 {
        '0'
    } else if d == 1 {
        '1'
    } else if d == 2 {
        '2'
    } else if d == 3 {
        '3'
    } else if d == 4 {
        '4'
    } else if d == 5 {
        '5'
    } else if d == 6 {
        '6'
    } else if d == 7 {
        '7'
    } else if d == 8 {
        '8'
    } else {
        '9'
    }
}

/// The decimal digits of `n`, without leading zeros; `0` for zero.
pub open spec fn digits_text(n: nat) -> Seq<char>
    decreases n,
{
    if n < 10 {
        seq![digit_char(n as int)]
    } else {
        digits_text(n / 10).push(digit_char(n as int % 10))
    }
}

/// The decimal text of `i`: a minus sign if it is negative, then the digits
/// of its absolute value.
pub open spec fn decimal_text(i: int) -> Seq<char> {
    if i < 0 {
        seq!['-'] + digits_text((-i) as nat)
    } else {
        digits_text(i as nat)
    }
}

/// `i128`'s `to_string`. Trusted: the result is the decimal text of `i`, as
/// the standard library's `Display` for integers writes it.
#[verifier::external_body]
pub(crate) fn decimal(i: i128) -> (s: String)
    ensures
        s@ == decimal_text(i as int),
{
    i.to_string()
}

/// The value of a decimal digit; `None` for any other character.
pub open spec fn digit_value(c: char) -> Option<int> {
    if c == '0' {
        Some(0)
    } else if c == '1' {
        Some(1)
    } else if c == '2' {
        Some(2)
    } else if c == '3' {
        Some(3)
    } else if c == '4' {
        Some(4)
    } else if c == '5' {
        Some(5)
    } else if c == '6' {
        Some(6)
    } else if c == '7' {
        Some(7)
    } else if c == '8' {
        Some(8)
    } else if c == '9' {
        Some(9)
    } else {
        None
    }
}

/// The number that a row of decimal digits stands for; `None` where the
/// row is empty or holds another character.
pub open spec fn digits_value(s: Seq<char>) -> Option<int>
    decreases s.len(),
{
    if s.len() == 0 {
        None
    } else if s.len() == 1 {
        digit_value(s[0])
    } else {
        match (digits_value(s.drop_last()), digit_value(s.last())) {
            (Some(a), Some(d)) => Some(10 * a + d),
            _ => None,
        }
    }
}

/// The `u64` that a text stands for: a row of decimal digits, which a plus
/// sign may precede, whose number is no more than the greatest `u64`.
pub open spec fn parsed_u64(s: Seq<char>) -> Option<u64> {
    let digits = if s.len() > 0 && s[0] == '+' {
        s.skip(1)
    } else {
        s
    };
    match digits_value(digits) {
        Some(v) => if v <= u64::MAX {
            Some(v as u64)
        } else {
            None
        },
        None => None,
    }
}

/// `str::parse` for `u64`. Trusted: the result is the number that the text
/// stands for in decimal, `None` where it stands for none.
#[verifier::external_body]
pub(crate) fn parse_u64(s: &str) -> (r: Option<u64>)
    ensures
        r == parsed_u64(s@),
{
    s.parse::<u64>().ok()
}

/// `String::push`. Trusted: the character is appended to the string.
#[verifier::external_body]
pub(crate) fn push_char(s: &mut String, c: char)
    ensures
        final(s)@ == old(s)@.push(c),
{
    s.push(c)
}

/// `String::pop`. Trusted: the last character is taken off the string and
/// returned; an empty string stays empty and gives `None`.
#[verifier::external_body]
pub(crate) fn pop_char(s: &mut String) -> (r: Option<char>)
    ensures
        old(s)@.len() == 0 ==> r is None && final(s)@ == old(s)@,
        old(s)@.len() > 0 ==> r == Some(old(s)@.last()) && final(s)@ == old(s)@.drop_last(),
{
    s.pop()
}

/// `String::push_str`. Trusted: the characters of `t` are appended to the
/// string.
#[verifier::external_body]
pub(crate) fn push_text(s: &mut String, t: &str)
    ensures
        final(s)@ == old(s)@ + t@,
{
    s.push_str(t)
}

/// The characters of the string, in their order.
pub(crate) fn chars_of(s: &str) -> (v: Vec<char>)
    ensures
        v@ == s@,
{
    let mut v: Vec<char> = Vec::new();
    for c in it: s.chars()
        invariant
            it.seq() == s@,
            v@ == s@.take(it.index() as int),
    {
        proof {
            assert(s@.take(it.index() + 1) =~= s@.take(it.index() as int).push(c));
        }
        v.push(c);
    }
    proof {
        assert(s@.take(s@.len() as int) =~= s@);
    }
    v
}

/// The pieces into which the separator cuts a text: a text without the
/// separator is one piece, and every separator ends a piece and begins
/// another, which may be empty.
pub open spec fn pieces(s: Seq<char>, sep: char) -> Seq<Seq<char>>
    decreases s.len(),
{
    if s.len() == 0 {
        seq![Seq::empty()]
    } else if s.last() == sep {
        pieces(s.drop_last(), sep).push(Seq::empty())
    } else {
        pieces(s.drop_last(), sep).drop_last().push(
            pieces(s.drop_last(), sep).last().push(s.last()),
        )
    }
}

/// The texts of a vector of strings.
pub open spec fn texts(v: Seq<String>) -> Seq<Seq<char>> {
    Seq::new(v.len(), |i: int| v[i]@)
}

/// The string of the characters of `v`.
pub(crate) fn string_of(v: &Vec<char>) -> (s: String)
    ensures
        s@ == v@,
{
    let mut s = String::new();
    let mut i: usize = 0;
    while i < v.len()
        invariant
            i <= v.len(),
            s@ == v@.take(i as int),
        decreases v.len() - i,
    {
        push_char(&mut s, v[i]);
        proof {
            assert(v@.take(i + 1) =~= v@.take(i as int).push(v@[i as int]));
        }
        i += 1;
    }
    proof {
        assert(v@.take(v@.len() as int) =~= v@);
    }
    s
}

/// Cuts the text at every separator.
pub(crate) fn split_text(s: &str, sep: char) -> (parts: Vec<String>)
    ensures
        texts(parts@) == pieces(s@, sep),
{
    let chars = chars_of(s);
    let mut parts: Vec<String> = Vec::new();
    let mut cur: Vec<char> = Vec::new();
    let mut i: usize = 0;
    proof {
        assert(texts(parts@).push(cur@) =~= pieces(chars@.take(0), sep));
    }
    while i < chars.len()
        invariant
            i <= chars.len(),
            chars@ == s@,
            texts(parts@).push(cur@) == pieces(chars@.take(i as int), sep),
        decreases chars.len() - i,
    {
        let c = chars[i];
        let ghost done = texts(parts@);
        let ghost open = cur@;
        proof {
            assert(chars@.take(i + 1).drop_last() =~= chars@.take(i as int));
            assert(done.push(open).drop_last() =~= done);
        }
        if c == sep {
            let piece = string_of(&cur);
            parts.push(piece);
            cur = Vec::new();
            proof {
                assert(texts(parts@) =~= done.push(open));
            }
        } else {
            cur.push(c);
        }
        i += 1;
    }
    let ghost done = texts(parts@);
    let piece = string_of(&cur);
    parts.push(piece);
    proof {
        assert(chars@.take(chars@.len() as int) =~= chars@);
        assert(texts(parts@) =~= done.push(cur@));
    }
    parts
}

/// A text that is cut where two texts were joined by a separator falls into
/// the pieces of the one and the pieces of the other.
pub proof fn lemma_pieces_of_joined(a: Seq<char>, b: Seq<char>, sep: char)
    ensures
        pieces(a.push(sep) + b, sep) == pieces(a, sep) + pieces(b, sep),
        pieces(b, sep).len() >= 1,
    decreases b.len(),
{
    let whole = a.push(sep) + b;
    if b.len() == 0 {
        assert(whole =~= a.push(sep));
        assert(whole.drop_last() =~= a);
        assert(pieces(a, sep).push(Seq::empty()) =~= pieces(a, sep) + pieces(b, sep));
    } else {
        let before = b.drop_last();
        lemma_pieces_of_joined(a, before, sep);
        assert(whole.drop_last() =~= a.push(sep) + before);
        let p = pieces(a, sep) + pieces(before, sep);
        if b.last() == sep {
            assert(p.push(Seq::empty()) =~= pieces(a, sep) + pieces(before, sep).push(
                Seq::empty(),
            ));
        } else {
            assert(p.drop_last().push(p.last().push(b.last())) =~= pieces(a, sep) + pieces(
                before,
                sep,
            ).drop_last().push(pieces(before, sep).last().push(b.last())));
        }
    }
}

/// A text without the separator is its own single piece.
pub proof fn lemma_one_piece(a: Seq<char>, sep: char)
    requires
        !a.contains(sep),
    ensures
        pieces(a, sep) == seq![a],
    decreases a.len(),
{
    if a.len() == 0 {
        assert(a =~= Seq::<char>::empty());
    } else {
        let before = a.drop_last();
        assert(a[a.len() - 1] != sep);
        assert forall|i: int| 0 <= i < before.len() implies before[i] != sep by {
            assert(a[i] != sep);
        }
        lemma_one_piece(before, sep);
        assert(seq![before].drop_last().push(seq![before].last().push(a.last())) =~= seq![a]) by {
            assert(before.push(a.last()) =~= a);
        }
    }
}

/// The decimal digits of a number stand for that number, and hold digits
/// only.
pub proof fn lemma_digits_read_back(n: nat)
    ensures
        digits_value(digits_text(n)) == Some(n as int),
        digits_text(n).len() >= 1,
        forall|i: int| 0 <= i < digits_text(n).len() ==> digit_value(#[trigger] digits_text(n)[i]) is Some,
    decreases n,
{
    if n >= 10 {
        lemma_digits_read_back(n / 10);
        let before = digits_text(n / 10);
        let d = digit_char(n as int % 10);
        assert(before.push(d).drop_last() =~= before);
        assert(digit_value(d) == Some(n as int % 10));
        assert forall|i: int| 0 <= i < digits_text(n).len() implies digit_value(
            #[trigger] digits_text(n)[i],
        ) is Some by {
            if i < before.len() {
                assert(digits_text(n)[i] == before[i]);
            }
        }
    }
}

} // verus!
