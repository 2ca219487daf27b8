//! Records of a password file, one record a line.
use vstd::prelude::*;
use crate::text::{
    decimal, decimal_text, digit_value, digits_text, lemma_digits_read_back, lemma_one_piece,
    lemma_pieces_of_joined, parse_u64, parsed_u64, pieces, push_char, push_text, split_text, texts,
};

verus! {

/// A password record with all its fields.
#[derive(Eq, PartialEq, Debug)]
pub struct PasswordRecord {
    pub account: String,
    pub password: String,
    pub uid: u64,
    pub gid: u64,
    pub gecos: Vec<String>,
    pub directory: String,
    pub shell: String,
}

/// The texts of `items` with `sep` between each two neighbours.
pub open spec fn joined(items: Seq<Seq<char>>, sep: char) -> Seq<char>
    decreases items.len(),
{
    if items.len() == 0 {
        Seq::empty()
    } else if items.len() == 1 {
        items[0]
    } else {
        joined(items.drop_last(), sep).push(sep) + items.last()
    }
}

/// The texts of a vector of string slices.
pub open spec fn slice_texts(v: Seq<&str>) -> Seq<Seq<char>> {
    Seq::new(v.len(), |i: int| v[i]@)
}

impl PasswordRecord {
    /// The line of the record: its seven fields with a colon between each
    /// two, the two numbers in decimal, the parts of the fifth field with a
    /// comma between each two.
    pub open spec fn line(&self) -> Seq<char> {
        self.account@.push(':') + self.password@.push(':') + decimal_text(self.uid as int).push(
            ':',
        ) + decimal_text(self.gid as int).push(':') + joined(texts(self.gecos@), ',').push(':')
            + self.directory@.push(':') + self.shell@
    }

    /// A record with copies of the given fields.
    pub fn new(
        account: &str,
        password: &str,
        uid: u64,
        gid: u64,
        gecos: Vec<&str>,
        directory: &str,
        shell: &str,
    ) -> (r: PasswordRecord)
        ensures
            r.account@ == account@,
            r.password@ == password@,
            r.uid == uid,
            r.gid == gid,
            texts(r.gecos@) == slice_texts(gecos@),
            r.directory@ == directory@,
            r.shell@ == shell@,
    {
        let mut parts: Vec<String> = Vec::new();
        let mut i: usize = 0;
        while i < gecos.len()
            invariant
                i <= gecos.len(),
                parts@.len() == i,
                forall|k: int| 0 <= k < i ==> (#[trigger] parts@[k])@ == gecos@[k]@,
            decreases gecos.len() - i,
        {
            parts.push(gecos[i].to_owned());
            i += 1;
        }
        proof {
            assert(texts(parts@) =~= slice_texts(gecos@));
        }
        PasswordRecord {
            account: account.to_owned(),
            password: password.to_owned(),
            uid,
            gid,
            gecos: parts,
            directory: directory.to_owned(),
            shell: shell.to_owned(),
        }
    }

    /// The record as one line.
    pub fn to_line(&self) -> (s: String)
        ensures
            s@ == self.line(),
    {
        let mut gecos = String::new();
        let mut i: usize = 0;
        while i < self.gecos.len()
            invariant
                i <= self.gecos.len(),
                gecos@ == joined(texts(self.gecos@).take(i as int), ','),
            decreases self.gecos.len() - i,
        {
            proof {
                let all = texts(self.gecos@);
                assert(all.take(i + 1).drop_last() =~= all.take(i as int));
                assert(all.take(i + 1).last() == self.gecos@[i as int]@);
                if i == 0 {
                    assert(gecos@ + self.gecos@[0]@ =~= self.gecos@[0]@);
                }
            }
            if i > 0 {
                push_char(&mut gecos, ',');
            }
            push_text(&mut gecos, self.gecos[i].as_str());
            i += 1;
        }
        proof {
            assert(texts(self.gecos@).take(self.gecos@.len() as int) =~= texts(self.gecos@));
        }
        let mut s = String::new();
        push_text(&mut s, self.account.as_str());
        push_char(&mut s, ':');
        push_text(&mut s, self.password.as_str());
        push_char(&mut s, ':');
        let uid = decimal(self.uid as i128);
        push_text(&mut s, uid.as_str());
        push_char(&mut s, ':');
        let gid = decimal(self.gid as i128);
        push_text(&mut s, gid.as_str());
        push_char(&mut s, ':');
        push_text(&mut s, gecos.as_str());
        push_char(&mut s, ':');
        push_text(&mut s, self.directory.as_str());
        push_char(&mut s, ':');
        push_text(&mut s, self.shell.as_str());
        proof {
            assert(s@ =~= self.line());
        }
        s
    }

    /// Whether a line can be read as a record: the colons cut it into seven
    /// fields at least, and the third and the fourth stand for a `u64`.
    pub open spec fn readable(line: Seq<char>) -> bool {
        &&& pieces(line, ':').len() >= 7
        &&& parsed_u64(pieces(line, ':')[2]) is Some
        &&& parsed_u64(pieces(line, ':')[3]) is Some
    }

    /// The record that a readable line holds: the colons cut it into its
    /// fields, the commas cut the fifth field into its parts; what follows
    /// the seventh field is left out.
    pub fn from_line(line: &str) -> (r: PasswordRecord)
        requires
            Self::readable(line@),
        ensures
            r.account@ == pieces(line@, ':')[0],
            r.password@ == pieces(line@, ':')[1],
            Some(r.uid) == parsed_u64(pieces(line@, ':')[2]),
            Some(r.gid) == parsed_u64(pieces(line@, ':')[3]),
            texts(r.gecos@) == pieces(pieces(line@, ':')[4], ','),
            r.directory@ == pieces(line@, ':')[5],
            r.shell@ == pieces(line@, ':')[6],
    {
        let sp = split_text(line, ':');
        proof {
            assert(texts(sp@).len() == sp@.len());
            assert forall|k: int| 0 <= k < sp@.len() implies (#[trigger] sp@[k])@ == pieces(
                line@,
                ':',
            )[k] by {
                assert(texts(sp@)[k] == sp@[k]@);
            }
        }
        let uid = match parse_u64(sp[2].as_str()) {
            Some(u) => u,
            None => unreached(),
        };
        let gid = match parse_u64(sp[3].as_str()) {
            Some(g) => g,
            None => unreached(),
        };
        let gecos = split_text(sp[4].as_str(), ',');
        PasswordRecord {
            account: sp[0].clone(),
            password: sp[1].clone(),
            uid,
            gid,
            gecos,
            directory: sp[5].clone(),
            shell: sp[6].clone(),
        }
    }
}

/// No text of `items` holds the character `c`.
pub open spec fn all_without(items: Seq<Seq<char>>, c: char) -> bool {
    forall|i: int| 0 <= i < items.len() ==> !(#[trigger] items[i]).contains(c)
}

/// Texts without the separator that are joined by it are cut into
/// themselves again, where there is a text.
pub proof fn lemma_joined_reads_back(items: Seq<Seq<char>>, sep: char)
    requires
        items.len() >= 1,
        all_without(items, sep),
    ensures
        pieces(joined(items, sep), sep) == items,
    decreases items.len(),
{
    if items.len() == 1 {
        lemma_one_piece(items[0], sep);
        assert(seq![items[0]] =~= items);
    } else {
        let before = items.drop_last();
        assert(all_without(before, sep)) by {
            assert forall|i: int| 0 <= i < before.len() implies !(#[trigger] before[i]).contains(
                sep,
            ) by {
                assert(before[i] == items[i]);
            }
        }
        lemma_joined_reads_back(before, sep);
        lemma_pieces_of_joined(joined(before, sep), items.last(), sep);
        lemma_one_piece(items.last(), sep);
        assert(before + seq![items.last()] =~= items);
    }
}

/// Texts without a character, joined by another, are without it still.
proof fn lemma_joined_without(items: Seq<Seq<char>>, sep: char, c: char)
    requires
        all_without(items, c),
        sep != c,
    ensures
        !joined(items, sep).contains(c),
    decreases items.len(),
{
    if items.len() == 1 {
    } else if items.len() > 1 {
        let before = items.drop_last();
        assert(all_without(before, c)) by {
            assert forall|i: int| 0 <= i < before.len() implies !(#[trigger] before[i]).contains(
                c,
            ) by {
                assert(before[i] == items[i]);
            }
        }
        lemma_joined_without(before, sep, c);
        let j = joined(before, sep);
        let whole = j.push(sep) + items.last();
        if whole.contains(c) {
            let i = choose|i: int| 0 <= i < whole.len() && whole[i] == c;
            if i < j.len() {
                assert(j[i] == c);
                assert(j.contains(c));
            } else if i > j.len() {
                assert(items.last()[i - j.len() - 1] == c);
                assert(items.last().contains(c));
            }
        }
    }
}

/// The decimal text of a `u64` is read as that number, and holds no colon.
proof fn lemma_number_reads_back(n: u64)
    ensures
        parsed_u64(decimal_text(n as int)) == Some(n),
        !decimal_text(n as int).contains(':'),
{
    lemma_digits_read_back(n as nat);
    let text = digits_text(n as nat);
    assert(digit_value(text[0]) is Some);
    if text.contains(':') {
        let i = choose|i: int| 0 <= i < text.len() && text[i] == ':';
        assert(digit_value(text[i]) is Some);
    }
}

/// The line of a record is read as that record, where the record has a
/// part in its fifth field, no text of it holds a colon, and no part of the
/// fifth field holds a comma: the line is readable, the colons cut it into
/// the seven fields, and the commas cut the fifth field into its parts.
pub proof fn lemma_line_reads_back(r: PasswordRecord)
    requires
        r.gecos@.len() >= 1,
        !r.account@.contains(':'),
        !r.password@.contains(':'),
        !r.directory@.contains(':'),
        !r.shell@.contains(':'),
        all_without(texts(r.gecos@), ':'),
        all_without(texts(r.gecos@), ','),
    ensures
        PasswordRecord::readable(r.line()),
        pieces(r.line(), ':') == seq![
            r.account@,
            r.password@,
            decimal_text(r.uid as int),
            decimal_text(r.gid as int),
            joined(texts(r.gecos@), ','),
            r.directory@,
            r.shell@,
        ],
        parsed_u64(decimal_text(r.uid as int)) == Some(r.uid),
        parsed_u64(decimal_text(r.gid as int)) == Some(r.gid),
        pieces(joined(texts(r.gecos@), ','), ',') == texts(r.gecos@),
{
    let uid = decimal_text(r.uid as int);
    let gid = decimal_text(r.gid as int);
    let gecos = joined(texts(r.gecos@), ',');
    lemma_number_reads_back(r.uid);
    lemma_number_reads_back(r.gid);
    lemma_joined_reads_back(texts(r.gecos@), ',');
    lemma_joined_without(texts(r.gecos@), ',', ':');
    lemma_one_piece(r.account@, ':');
    lemma_one_piece(r.password@, ':');
    lemma_one_piece(uid, ':');
    lemma_one_piece(gid, ':');
    lemma_one_piece(gecos, ':');
    lemma_one_piece(r.directory@, ':');
    lemma_one_piece(r.shell@, ':');
    let t6 = r.shell@;
    let t5 = r.directory@.push(':') + t6;
    let t4 = gecos.push(':') + t5;
    let t3 = gid.push(':') + t4;
    let t2 = uid.push(':') + t3;
    let t1 = r.password@.push(':') + t2;
    let t0 = r.account@.push(':') + t1;
    lemma_pieces_of_joined(r.directory@, t6, ':');
    lemma_pieces_of_joined(gecos, t5, ':');
    lemma_pieces_of_joined(gid, t4, ':');
    lemma_pieces_of_joined(uid, t3, ':');
    lemma_pieces_of_joined(r.password@, t2, ':');
    lemma_pieces_of_joined(r.account@, t1, ':');
    assert(r.line() =~= t0);
    assert(pieces(t0, ':') =~= seq![
        r.account@,
        r.password@,
        uid,
        gid,
        gecos,
        r.directory@,
        r.shell@,
    ]);
}

} // verus!
