//! Problems on arrays of integers, and two small containers: a set kept in a
//! vector and an array of which snapshots can be taken.
use vstd::prelude::*;
use crate::bags::lemma_same_bag_member;
use crate::numbers::{distance, toward_zero};
use crate::sorting::swap;

verus! {

/// A set of integers kept in a vector, in the order in which they came in.
/// Its view is that sequence. A set made by `new` and filled by `insert`
/// holds no number twice; `from_slice` and `from_vec` take the numbers as
/// they are given.
#[derive(Eq, PartialEq, Debug)]
pub struct IntSet {
    data: Vec<i32>,
}

impl View for IntSet {
    type V = Seq<i32>;

    closed spec fn view(&self) -> Seq<i32> {
        self.data@
    }
}

impl Default for IntSet {
    /// The empty set.
    fn default() -> (s: IntSet)
        ensures
            s@ == Seq::<i32>::empty(),
    {
        IntSet::new()
    }
}

/// The numbers of `s` rise strictly from front to back.
pub open spec fn rising(s: Seq<i32>) -> bool {
    forall|i: int, j: int| 0 <= i < j < s.len() ==> s[i] < s[j]
}

/// `s` with only the first occurrence of every number kept.
pub open spec fn firsts(s: Seq<i32>) -> Seq<i32>
    decreases s.len(),
{
    if s.len() == 0 {
        s
    } else if s.drop_last().contains(s.last()) {
        firsts(s.drop_last())
    } else {
        firsts(s.drop_last()).push(s.last())
    }
}

/// The numbers that occur in `s` more than once, each of them once, in the
/// order of their second occurrences.
pub open spec fn repeats(s: Seq<i32>) -> Seq<i32>
    decreases s.len(),
{
    if s.len() == 0 {
        s
    } else if s.drop_last().contains(s.last()) && !repeats(s.drop_last()).contains(s.last()) {
        repeats(s.drop_last()).push(s.last())
    } else {
        repeats(s.drop_last())
    }
}

/// `firsts` keeps every number that occurs, and holds none twice.
pub proof fn lemma_firsts(s: Seq<i32>)
    ensures
        forall|x: i32| firsts(s).contains(x) <==> s.contains(x),
        firsts(s).no_duplicates(),
    decreases s.len(),
{
    if s.len() > 0 {
        let p = s.drop_last();
        let f = firsts(p);
        lemma_firsts(p);
        assert forall|x: i32| firsts(s).contains(x) <==> s.contains(x) by {
            if s.contains(x) {
                let i = choose|i: int| 0 <= i < s.len() && s[i] == x;
                if i < p.len() {
                    assert(p[i] == x);
                    assert(p.contains(x));
                    assert(f.contains(x));
                    let k = choose|k: int| 0 <= k < f.len() && f[k] == x;
                    assert(firsts(s).contains(x)) by {
                        if p.contains(s.last()) {
                        } else {
                            assert(f.push(s.last())[k] == x);
                        }
                    }
                } else {
                    assert(x == s.last());
                    if !p.contains(s.last()) {
                        assert(f.push(x)[f.len() as int] == x);
                    }
                }
            }
            if firsts(s).contains(x) {
                let k = choose|k: int| 0 <= k < firsts(s).len() && firsts(s)[k] == x;
                if p.contains(s.last()) || k < f.len() {
                    assert(f[k] == x);
                    assert(f.contains(x));
                    assert(p.contains(x));
                    let i = choose|i: int| 0 <= i < p.len() && p[i] == x;
                    assert(s[i] == x);
                } else {
                    assert(s[s.len() - 1] == x);
                }
            }
        }
        if !p.contains(s.last()) {
            assert(!f.contains(s.last()));
            assert forall|i: int, j: int|
                0 <= i < f.len() + 1 && 0 <= j < f.len() + 1 && i != j implies f.push(s.last())[i]
                != f.push(s.last())[j] by {
                if i < f.len() && j < f.len() {
                } else if i < f.len() {
                    assert(f.contains(f[i]));
                } else {
                    assert(f.contains(f[j]));
                }
            }
        }
    }
}

/// `repeats` holds exactly the numbers that occur at two places, and holds
/// none twice.
pub proof fn lemma_repeats(s: Seq<i32>)
    ensures
        forall|x: i32|
            repeats(s).contains(x) <==> exists|i: int, j: int|
                0 <= i < j < s.len() && s[i] == x && s[j] == x,
        repeats(s).no_duplicates(),
    decreases s.len(),
{
    if s.len() > 0 {
        let p = s.drop_last();
        let r = repeats(p);
        let last = s.last();
        lemma_repeats(p);
        let fresh = p.contains(last) && !r.contains(last);
        assert forall|x: i32|
            repeats(s).contains(x) <==> exists|i: int, j: int|
                0 <= i < j < s.len() && s[i] == x && s[j] == x by {
            if repeats(s).contains(x) {
                let k = choose|k: int| 0 <= k < repeats(s).len() && repeats(s)[k] == x;
                if fresh && k == r.len() {
                    let i = choose|i: int| 0 <= i < p.len() && p[i] == last;
                    assert(s[i] == x && s[s.len() - 1] == x);
                } else {
                    assert(r[k] == x);
                    assert(r.contains(x));
                    let (i, j) = choose|i: int, j: int|
                        0 <= i < j < p.len() && p[i] == x && p[j] == x;
                    assert(s[i] == x && s[j] == x);
                }
            }
            if exists|i: int, j: int| 0 <= i < j < s.len() && s[i] == x && s[j] == x {
                let (i, j) = choose|i: int, j: int|
                    0 <= i < j < s.len() && s[i] == x && s[j] == x;
                if j < p.len() {
                    assert(p[i] == x && p[j] == x);
                    assert(r.contains(x));
                    let k = choose|k: int| 0 <= k < r.len() && r[k] == x;
                    if fresh {
                        assert(r.push(last)[k] == x);
                    }
                } else {
                    assert(p[i] == last);
                    assert(p.contains(last));
                    if r.contains(last) {
                    } else {
                        assert(r.push(last)[r.len() as int] == x);
                    }
                }
            }
        }
        if fresh {
            assert forall|i: int, j: int|
                0 <= i < r.len() + 1 && 0 <= j < r.len() + 1 && i != j implies r.push(last)[i]
                != r.push(last)[j] by {
                if i < r.len() && j < r.len() {
                } else if i < r.len() {
                    assert(r.contains(r[i]));
                } else {
                    assert(r.contains(r[j]));
                }
            }
        }
    }
}

impl IntSet {
    /// The empty set.
    pub fn new() -> (s: IntSet)
        ensures
            s@ == Seq::<i32>::empty(),
    {
        IntSet { data: Vec::new() }
    }

    /// A set that holds the numbers of `nbs` as they stand.
    pub fn from_slice(nbs: &[i32]) -> (s: IntSet)
        ensures
            s@ == nbs@,
    {
        let mut v: Vec<i32> = Vec::new();
        let mut i: usize = 0;
        while i < nbs.len()
            invariant
                i <= nbs.len(),
                v@ == nbs@.take(i as int),
            decreases nbs.len() - i,
        {
            v.push(nbs[i]);
            proof {
                assert(nbs@.take(i + 1) =~= nbs@.take(i as int).push(nbs@[i as int]));
            }
            i += 1;
        }
        proof {
            assert(nbs@.take(nbs@.len() as int) =~= nbs@);
        }
        IntSet { data: v }
    }

    /// A set that holds the numbers of `v` as they stand.
    pub fn from_vec(v: Vec<i32>) -> (s: IntSet)
        ensures
            s@ == v@,
    {
        IntSet { data: v }
    }

    /// Whether the set holds `i`.
    pub fn contains(&self, i: i32) -> (r: bool)
        ensures
            r == self@.contains(i),
    {
        let mut k: usize = 0;
        while k < self.data.len()
            invariant
                k <= self.data.len(),
                forall|j: int| 0 <= j < k ==> self.data@[j] != i,
            decreases self.data.len() - k,
        {
            if self.data[k] == i {
                return true;
            }
            k += 1;
        }
        false
    }

    /// Puts `i` at the end unless the set holds it already. Returns whether
    /// the set has changed.
    pub fn insert(&mut self, i: i32) -> (changed: bool)
        ensures
            changed == !old(self)@.contains(i),
            final(self)@ == if old(self)@.contains(i) {
                old(self)@
            } else {
                old(self)@.push(i)
            },
    {
        if self.contains(i) {
            return false;
        }
        self.data.push(i);
        true
    }

    /// Takes the first occurrence of `i` out of the set. Returns whether the
    /// set has changed.
    pub fn remove(&mut self, i: &i32) -> (changed: bool)
        ensures
            changed == old(self)@.contains(*i),
            final(self)@ == old(self)@.remove_value(*i),
    {
        let mut k: usize = 0;
        while k < self.data.len()
            invariant
                k <= self.data.len(),
                self.data@ == old(self).data@,
                forall|j: int| 0 <= j < k ==> self.data@[j] != *i,
            decreases self.data.len() - k,
        {
            if self.data[k] == *i {
                proof {
                    self.data@.index_of_first_ensures(*i);
                }
                self.data.remove(k);
                return true;
            }
            k += 1;
        }
        proof {
            self.data@.index_of_first_ensures(*i);
        }
        false
    }

    /// The number that came in first, or `None` if the set is empty.
    pub fn first(&self) -> (r: Option<i32>)
        ensures
            r == if self@.len() == 0 {
                None
            } else {
                Some(self@[0])
            },
    {
        if self.data.len() == 0 {
            None
        } else {
            Some(self.data[0])
        }
    }
}

/// Taking a number out of a strictly rising sequence leaves a strictly
/// rising sequence that holds every other number of it and no more.
proof fn lemma_remove_from_rising(s: Seq<i32>, x: i32)
    requires
        rising(s),
    ensures
        rising(s.remove_value(x)),
        forall|y: i32| s.remove_value(x).contains(y) <==> s.contains(y) && y != x,
{
    s.index_of_first_ensures(x);
    match s.index_of_first(x) {
        None => {},
        Some(k) => {
            let r = s.remove(k);
            s.remove_ensures(k);
            assert forall|y: i32| r.contains(y) <==> s.contains(y) && y != x by {
                if r.contains(y) {
                    let i = choose|i: int| 0 <= i < r.len() && r[i] == y;
                    if i < k {
                        assert(s[i] == y);
                    } else {
                        assert(s[i + 1] == y);
                    }
                }
                if s.contains(y) && y != x {
                    let i = choose|i: int| 0 <= i < s.len() && s[i] == y;
                    if i < k {
                        assert(r[i] == y);
                    } else {
                        assert(r[i - 1] == y);
                    }
                }
            }
            assert forall|i: int, j: int| 0 <= i < j < r.len() implies r[i] < r[j] by {
                let a = if i < k { i } else { i + 1 };
                let b = if j < k { j } else { j + 1 };
                assert(r[i] == s[a] && r[j] == s[b]);
            }
        },
    }
}

/// The numbers from `low` to `high`, both included, that `nbs` does not
/// hold, in rising order. Every number of `nbs` must lie in that range.
pub fn missing_numbers(nbs: &[i32], low: i32, high: i32) -> (s: IntSet)
    requires
        high < i32::MAX,
        forall|i: int| 0 <= i < nbs@.len() ==> low <= #[trigger] nbs@[i] && nbs@[i] <= high,
    ensures
        rising(s@),
        forall|x: i32| s@.contains(x) <==> low <= x <= high && !nbs@.contains(x),
{
    let mut all: Vec<i32> = Vec::new();
    let mut x: i32 = low;
    while x < high + 1
        invariant
            high < i32::MAX,
            low <= x,
            x <= high + 1 || all@.len() == 0,
            rising(all@),
            forall|y: i32| all@.contains(y) <==> low <= y < x,
        decreases high + 1 - x,
    {
        proof {
            let a = all@;
            let b = all@.push(x);
            assert forall|y: i32| b.contains(y) <==> low <= y < x + 1 by {
                if b.contains(y) {
                    let i = choose|i: int| 0 <= i < b.len() && b[i] == y;
                    if i < a.len() {
                        assert(a.contains(a[i]));
                    }
                }
                if low <= y < x {
                    assert(a.contains(y));
                    let i = choose|i: int| 0 <= i < a.len() && a[i] == y;
                    assert(b[i] == y);
                }
                if y == x {
                    assert(b[a.len() as int] == y);
                }
            }
            assert forall|i: int, j: int| 0 <= i < j < b.len() implies b[i] < b[j] by {
                assert(a.contains(a[i]));
            }
        }
        all.push(x);
        x += 1;
    }
    let mut s = IntSet::from_vec(all);
    let mut k: usize = 0;
    while k < nbs.len()
        invariant
            k <= nbs.len(),
            rising(s@),
            forall|y: i32| s@.contains(y) <==> low <= y <= high && !nbs@.take(k as int).contains(y),
        decreases nbs.len() - k,
    {
        proof {
            lemma_remove_from_rising(s@, nbs@[k as int]);
            let t0 = nbs@.take(k as int);
            let t1 = nbs@.take(k + 1);
            assert forall|y: i32| t1.contains(y) <==> t0.contains(y) || y == nbs@[k as int] by {
                if t1.contains(y) {
                    let i = choose|i: int| 0 <= i < t1.len() && t1[i] == y;
                    if i < k {
                        assert(t0[i] == y);
                    }
                }
                if t0.contains(y) {
                    let i = choose|i: int| 0 <= i < t0.len() && t0[i] == y;
                    assert(t1[i] == y);
                }
                if y == nbs@[k as int] {
                    assert(t1[k as int] == y);
                }
            }
        }
        let ghost before = s@;
        s.remove(&nbs[k]);
        proof {
            let x = nbs@[k as int];
            assert forall|y: i32|
                s@.contains(y) <==> low <= y <= high && !nbs@.take(k + 1).contains(y) by {
                assert(s@.contains(y) <==> before.contains(y) && y != x);
                assert(before.contains(y) <==> low <= y <= high && !nbs@.take(k as int).contains(
                    y,
                ));
                assert(nbs@.take(k + 1).contains(y) <==> nbs@.take(k as int).contains(y) || y
                    == x);
            }
        }
        k += 1;
    }
    proof {
        assert(nbs@.take(nbs@.len() as int) =~= nbs@);
    }
    s
}

/// The least number from `low` to `high`, both included, that `nbs` does not
/// hold. Every number of `nbs` must lie in that range.
pub fn missing_number(nbs: &[i32], low: i32, high: i32) -> (r: Option<i32>)
    requires
        high < i32::MAX,
        forall|i: int| 0 <= i < nbs@.len() ==> low <= #[trigger] nbs@[i] && nbs@[i] <= high,
    ensures
        match r {
            Some(m) => low <= m <= high && !nbs@.contains(m) && forall|x: i32|
                low <= x < m ==> nbs@.contains(x),
            None => forall|x: i32| low <= x <= high ==> nbs@.contains(x),
        },
{
    let s = missing_numbers(nbs, low, high);
    let r = s.first();
    proof {
        match r {
            Some(m) => {
                assert(s@.contains(s@[0]));
                assert forall|x: i32| low <= x < m implies nbs@.contains(x) by {
                    if !nbs@.contains(x) {
                        assert(s@.contains(x));
                        let i = choose|i: int| 0 <= i < s@.len() && s@[i] == x;
                        if i > 0 {
                            assert(s@[0] < s@[i]);
                        }
                    }
                }
            },
            None => {
                assert forall|x: i32| low <= x <= high implies nbs@.contains(x) by {
                    if !nbs@.contains(x) {
                        assert(s@.contains(x));
                    }
                }
            },
        }
    }
    r
}

/// The numbers that occur in `nbs` more than once, each of them once, in the
/// order of their second occurrences.
pub fn duplicates(nbs: &[i32]) -> (dup: IntSet)
    ensures
        dup@ == repeats(nbs@),
        dup@.no_duplicates(),
        forall|x: i32|
            dup@.contains(x) <==> exists|i: int, j: int|
                0 <= i < j < nbs@.len() && nbs@[i] == x && nbs@[j] == x,
{
    let mut s = IntSet::new();
    let mut dup = IntSet::new();
    let mut k: usize = 0;
    while k < nbs.len()
        invariant
            k <= nbs.len(),
            s@ == firsts(nbs@.take(k as int)),
            dup@ == repeats(nbs@.take(k as int)),
        decreases nbs.len() - k,
    {
        proof {
            lemma_firsts(nbs@.take(k as int));
            assert(nbs@.take(k + 1).drop_last() =~= nbs@.take(k as int));
        }
        let changed = s.insert(nbs[k]);
        if !changed {
            dup.insert(nbs[k]);
        }
        k += 1;
    }
    proof {
        assert(nbs@.take(nbs@.len() as int) =~= nbs@);
        lemma_repeats(nbs@);
    }
    dup
}

/// The number whose second occurrence in `nbs` comes first, or `None` where
/// no number occurs twice.
pub fn duplicate(nbs: &[i32]) -> (r: Option<i32>)
    ensures
        r == if repeats(nbs@).len() == 0 {
            None
        } else {
            Some(repeats(nbs@)[0])
        },
        r is None <==> nbs@.no_duplicates(),
{
    let d = duplicates(nbs);
    proof {
        if d@.len() > 0 {
            assert(d@.contains(d@[0]));
        }
        if !nbs@.no_duplicates() {
            let (i, j) = choose|i: int, j: int|
                0 <= i < nbs@.len() && 0 <= j < nbs@.len() && i != j && nbs@[i] == nbs@[j];
            if i < j {
                assert(d@.contains(nbs@[i]));
            } else {
                assert(d@.contains(nbs@[j]));
            }
        }
    }
    d.first()
}

/// Keeps the first occurrence of every number and drops the others.
pub fn dedup(nbs: &mut Vec<i32>)
    ensures
        final(nbs)@ == firsts(old(nbs)@),
        final(nbs)@.no_duplicates(),
        forall|x: i32| final(nbs)@.contains(x) <==> old(nbs)@.contains(x),
{
    let mut s = IntSet::new();
    let mut kept: Vec<i32> = Vec::new();
    let mut k: usize = 0;
    while k < nbs.len()
        invariant
            k <= nbs.len(),
            nbs@ == old(nbs)@,
            s@ == firsts(nbs@.take(k as int)),
            kept@ == s@,
        decreases nbs.len() - k,
    {
        proof {
            lemma_firsts(nbs@.take(k as int));
            assert(nbs@.take(k + 1).drop_last() =~= nbs@.take(k as int));
        }
        if s.insert(nbs[k]) {
            kept.push(nbs[k]);
        }
        k += 1;
    }
    proof {
        assert(nbs@.take(nbs@.len() as int) =~= nbs@);
        lemma_firsts(nbs@);
    }
    *nbs = kept;
}

/// The least and the greatest number of `nbs`, which must not be empty.
pub fn range(nbs: &[i32]) -> (r: (i32, i32))
    requires
        nbs@.len() > 0,
    ensures
        nbs@.contains(r.0),
        nbs@.contains(r.1),
        forall|i: int| 0 <= i < nbs@.len() ==> r.0 <= #[trigger] nbs@[i] && nbs@[i] <= r.1,
{
    let mut min = nbs[0];
    let mut max = nbs[0];
    let mut k: usize = 0;
    while k < nbs.len()
        invariant
            k <= nbs.len(),
            nbs@.contains(min),
            nbs@.contains(max),
            forall|i: int| 0 <= i < k ==> min <= #[trigger] nbs@[i] && nbs@[i] <= max,
        decreases nbs.len() - k,
    {
        let v = nbs[k];
        if v < min {
            min = v;
        }
        if v > max {
            max = v;
        }
        k += 1;
    }
    (min, max)
}

/// The pairs `(nbs[i], nbs[k])` with `from <= k < to` whose product is
/// `prod`, by rising `k`.
pub open spec fn pairs_with(nbs: Seq<i32>, i: int, from: int, to: int, prod: int) -> Seq<
    (i32, i32),
>
    decreases to - from,
{
    if to <= from {
        Seq::empty()
    } else if nbs[i] * nbs[to - 1] == prod {
        pairs_with(nbs, i, from, to - 1, prod).push((nbs[i], nbs[to - 1]))
    } else {
        pairs_with(nbs, i, from, to - 1, prod)
    }
}

/// The pairs `(nbs[i], nbs[j])` with `i < j` and `i < upto` whose product is
/// `prod`, by rising `i` and, for one `i`, by rising `j`.
pub open spec fn pairs_upto(nbs: Seq<i32>, upto: int, prod: int) -> Seq<(i32, i32)>
    decreases upto,
{
    if upto <= 0 {
        Seq::empty()
    } else {
        pairs_upto(nbs, upto - 1, prod) + pairs_with(
            nbs,
            upto - 1,
            upto,
            nbs.len() as int,
            prod,
        )
    }
}

/// All pairs of numbers at two places of `nbs` whose product is `prod`, the
/// number at the earlier place first; by rising first place and, for one
/// first place, by rising second place. No product of two numbers of `nbs`
/// may leave the range of `i32`.
pub fn pairs_product(nbs: &[i32], prod: i32) -> (v: Vec<(i32, i32)>)
    requires
        forall|i: int, j: int|
            0 <= i < j < nbs@.len() ==> i32::MIN <= #[trigger] (nbs@[i] * nbs@[j]) <= i32::MAX,
    ensures
        v@ == pairs_upto(nbs@, nbs@.len() as int, prod as int),
{
    let mut v: Vec<(i32, i32)> = Vec::new();
    let n = nbs.len();
    let mut i: usize = 0;
    while i < n
        invariant
            n == nbs@.len(),
            i <= n,
            v@ == pairs_upto(nbs@, i as int, prod as int),
            forall|i: int, j: int|
                0 <= i < j < nbs@.len() ==> i32::MIN <= #[trigger] (nbs@[i] * nbs@[j]) <= i32::MAX,
        decreases n - i,
    {
        let ghost before = v@;
        let mut j: usize = i + 1;
        while j < n
            invariant
                n == nbs@.len(),
                i < n,
                i + 1 <= j <= n,
                v@ == before + pairs_with(nbs@, i as int, i + 1, j as int, prod as int),
                forall|i: int, j: int|
                    0 <= i < j < nbs@.len() ==> i32::MIN <= #[trigger] (nbs@[i] * nbs@[j])
                        <= i32::MAX,
            decreases n - j,
        {
            let vi = nbs[i];
            let vj = nbs[j];
            assert(i32::MIN <= nbs@[i as int] * nbs@[j as int] <= i32::MAX);
            if vi * vj == prod {
                v.push((vi, vj));
            }
            proof {
                assert(v@ =~= before + pairs_with(nbs@, i as int, i + 1, j + 1, prod as int));
            }
            j += 1;
        }
        i += 1;
    }
    v
}

/// Reverses the vector in place.
pub fn reverse(nbs: &mut Vec<i32>)
    ensures
        final(nbs)@ == old(nbs)@.reverse(),
{
    if !nbs.is_empty() {
        let n = nbs.len();
        let mut i: usize = 0;
        let mut j: usize = n - 1;
        while i < j
            invariant
                nbs@.len() == n,
                n == old(nbs)@.len(),
                i + j == n - 1,
                forall|k: int| 0 <= k < i ==> nbs@[k] == old(nbs)@[n - 1 - k],
                forall|k: int| j < k < n ==> nbs@[k] == old(nbs)@[n - 1 - k],
                forall|k: int| i <= k <= j ==> nbs@[k] == old(nbs)@[k],
            decreases j,
        {
            swap(nbs, i, j);
            i += 1;
            j -= 1;
        }
    }
    proof {
        assert(nbs@ =~= old(nbs)@.reverse());
    }
}

/// An array of integers of which snapshots can be taken. Every cell keeps
/// the values it was given, each with the number of the snapshot that was
/// to come when it was given, one value for one number.
pub struct SnapshotArray {
    data: Vec<Vec<(i32, i32)>>,
    snap_id: i32,
}

/// What a history shows to the snapshot `snap`: the value of its last entry
/// that was given no later than that snapshot, or zero if there is none.
pub open spec fn seen(history: Seq<(i32, i32)>, snap: int) -> i32
    decreases history.len(),
{
    if history.len() == 0 {
        0
    } else if history.last().0 <= snap {
        history.last().1
    } else {
        seen(history.drop_last(), snap)
    }
}

/// The snapshot numbers of a history rise strictly and lie from zero to
/// `upto`.
pub open spec fn history_ok(history: Seq<(i32, i32)>, upto: int) -> bool {
    &&& forall|a: int, b: int| 0 <= a < b < history.len() ==> history[a].0 < history[b].0
    &&& forall|a: int| 0 <= a < history.len() ==> 0 <= (#[trigger] history[a]).0 <= upto
}

/// In a history whose numbers rise, `seen` is the value at the place `k`
/// where everything later was given after the snapshot and the entry at `k`
/// was not; it is zero where everything was given after the snapshot.
proof fn lemma_seen_at(history: Seq<(i32, i32)>, snap: int, k: int)
    requires
        -1 <= k < history.len(),
        forall|a: int| k < a < history.len() ==> (#[trigger] history[a]).0 > snap,
        k >= 0 ==> history[k].0 <= snap,
    ensures
        seen(history, snap) == if k >= 0 {
            history[k].1
        } else {
            0
        },
    decreases history.len(),
{
    if history.len() > 0 && k < history.len() - 1 {
        assert(history[history.len() - 1].0 > snap);
        lemma_seen_at(history.drop_last(), snap, k);
    }
}

/// The slice's `binary_search_by_key` on the snapshot numbers of a history.
/// Trusted: in a history sorted by number, `Ok` holds a place with that
/// number, and `Err` holds the place where an entry with that number could
/// be put in and keep the order.
#[verifier::external_body]
fn search_snap(v: &Vec<(i32, i32)>, snap_id: i32) -> (r: Result<usize, usize>)
    requires
        forall|a: int, b: int| 0 <= a < b < v@.len() ==> v@[a].0 < v@[b].0,
    ensures
        match r {
            Ok(ix) => ix < v@.len() && v@[ix as int].0 == snap_id,
            Err(ix) => ix <= v@.len() && (forall|a: int| 0 <= a < ix ==> (#[trigger] v@[a]).0
                < snap_id) && (forall|a: int| ix <= a < v@.len() ==> (#[trigger] v@[a]).0
                > snap_id),
        },
{
    v.binary_search_by_key(&snap_id, |a| a.0)
}

impl SnapshotArray {
    /// The invariant of the type: the number of the next snapshot is not
    /// negative, and every cell's history is in order.
    pub closed spec fn wf(&self) -> bool {
        &&& self.snap_id >= 0
        &&& forall|i: int|
            0 <= i < self.data@.len() ==> history_ok((#[trigger] self.data@[i])@, self.snap_id as int)
    }

    /// Number of cells.
    pub closed spec fn len(&self) -> nat {
        self.data@.len()
    }

    /// Number of snapshots taken, which is the number of the next one.
    pub closed spec fn snaps(&self) -> int {
        self.snap_id as int
    }

    /// The value that the snapshot `snap` shows in the cell `index`; for a
    /// snapshot not yet taken, the value that the cell holds now.
    pub closed spec fn value_at(&self, index: int, snap: int) -> i32 {
        seen(self.data@[index]@, snap)
    }

    /// An array of `length` cells that hold zero.
    pub fn new(length: i32) -> (a: Self)
        requires
            length >= 0,
        ensures
            a.wf(),
            a.len() == length,
            a.snaps() == 0,
            forall|i: int, s: int| 0 <= i < length ==> a.value_at(i, s) == 0,
    {
        let mut data: Vec<Vec<(i32, i32)>> = Vec::new();
        let mut k: usize = 0;
        while k < length as usize
            invariant
                length >= 0,
                k <= length,
                data@.len() == k,
                forall|i: int| 0 <= i < k ==> (#[trigger] data@[i])@.len() == 0,
            decreases length - k,
        {
            data.push(Vec::new());
            k += 1;
        }
        SnapshotArray { data, snap_id: 0 }
    }

    /// Gives the cell `index` the value `val`.
    pub fn set(&mut self, index: i32, val: i32)
        requires
            old(self).wf(),
            0 <= index < old(self).len(),
        ensures
            final(self).wf(),
            final(self).len() == old(self).len(),
            final(self).snaps() == old(self).snaps(),
            forall|i: int, s: int|
                0 <= i < old(self).len() ==> #[trigger] final(self).value_at(i, s) == if i == index
                    && s >= old(self).snaps() {
                    val
                } else {
                    old(self).value_at(i, s)
                },
    {
        let ix = index as usize;
        let n = self.data[ix].len();
        let ghost before = self.data@[ix as int]@;
        if n > 0 && self.data[ix][n - 1].0 == self.snap_id {
            self.data[ix][n - 1] = (self.snap_id, val);
            proof {
                assert(self.data@[ix as int]@.drop_last() =~= before.drop_last());
            }
        } else {
            self.data[ix].push((self.snap_id, val));
            proof {
                assert(self.data@[ix as int]@.drop_last() =~= before);
                assert forall|a: int| 0 <= a < before.len() implies (#[trigger] before[a]).0
                    < self.snap_id by {
                    if a < before.len() - 1 {
                        assert(before[a].0 < before[before.len() - 1].0);
                    }
                }
            }
        }
        proof {
            let now = self.data@[ix as int]@;
            assert forall|i: int, s: int| 0 <= i < old(self).len() implies #[trigger] self.value_at(
                i,
                s,
            ) == if i == index && s >= old(self).snaps() {
                val
            } else {
                old(self).value_at(i, s)
            } by {
                if i == index && s < old(self).snaps() {
                    assert(seen(now, s) == seen(now.drop_last(), s));
                    if before.len() > 0 && before.last().0 == self.snap_id {
                        assert(seen(before, s) == seen(before.drop_last(), s));
                    }
                } else if i != index {
                    assert(self.data@[i] == old(self).data@[i]);
                }
            }
            assert forall|i: int| 0 <= i < self.data@.len() implies history_ok(
                (#[trigger] self.data@[i])@,
                self.snap_id as int,
            ) by {
                if i != index {
                    assert(self.data@[i] == old(self).data@[i]);
                } else {
                    assert(history_ok(before, self.snap_id as int));
                }
            }
        }
    }

    /// Takes a snapshot and returns its number: the first is number zero.
    /// There must be a number left for the next snapshot.
    pub fn snap(&mut self) -> (id: i32)
        requires
            old(self).wf(),
            old(self).snaps() < i32::MAX,
        ensures
            final(self).wf(),
            id == old(self).snaps(),
            final(self).snaps() == old(self).snaps() + 1,
            final(self).len() == old(self).len(),
            forall|i: int, s: int| #[trigger] final(self).value_at(i, s) == old(self).value_at(i, s),
    {
        self.snap_id += 1;
        proof {
            assert forall|i: int| 0 <= i < self.data@.len() implies history_ok(
                (#[trigger] self.data@[i])@,
                self.snap_id as int,
            ) by {
                assert(history_ok(old(self).data@[i]@, old(self).snap_id as int));
            }
        }
        self.snap_id - 1
    }

    /// The value that the snapshot `snap_id` shows in the cell `index`.
    pub fn get(&self, index: i32, snap_id: i32) -> (r: i32)
        requires
            self.wf(),
            0 <= index < self.len(),
        ensures
            r == self.value_at(index as int, snap_id as int),
    {
        let v = &self.data[index as usize];
        proof {
            assert(history_ok(self.data@[index as int]@, self.snap_id as int));
        }
        match search_snap(v, snap_id) {
            Ok(ix) => {
                proof {
                    assert forall|a: int| ix < a < v@.len() implies (#[trigger] v@[a]).0
                        > snap_id by {
                        assert(v@[ix as int].0 < v@[a].0);
                    }
                    lemma_seen_at(v@, snap_id as int, ix as int);
                }
                v[ix].1
            },
            Err(ix) => {
                proof {
                    if ix > 0 {
                        assert(v@[ix - 1].0 < snap_id);
                    }
                    lemma_seen_at(v@, snap_id as int, ix - 1);
                }
                if ix > 0 {
                    v[ix - 1].1
                } else {
                    0
                }
            },
        }
    }
}

/// The sum of the numbers of `nums` at the places from `from` up to, not
/// including, `to`.
pub open spec fn sum_between(nums: Seq<i32>, from: int, to: int) -> int
    decreases to - from,
{
    if to <= from {
        0
    } else {
        sum_between(nums, from, to - 1) + nums[to - 1]
    }
}

/// A sum of numbers of `i32` is bounded by their number.
proof fn lemma_sum_bound(nums: Seq<i32>, from: int, to: int)
    requires
        0 <= from <= to <= nums.len(),
    ensures
        -(to - from) * 0x8000_0000 <= sum_between(nums, from, to) <= (to - from) * 0x7fff_ffff,
    decreases to - from,
{
    if from < to {
        lemma_sum_bound(nums, from, to - 1);
        assert((to - from) * 0x8000_0000 == (to - 1 - from) * 0x8000_0000 + 0x8000_0000)
            by (nonlinear_arith);
        assert((to - from) * 0x7fff_ffff == (to - 1 - from) * 0x7fff_ffff + 0x7fff_ffff)
            by (nonlinear_arith);
    }
}

/// A sum without its first number.
proof fn lemma_sum_drop_first(nums: Seq<i32>, from: int, to: int)
    requires
        from < to,
    ensures
        sum_between(nums, from, to) == nums[from] + sum_between(nums, from + 1, to),
    decreases to - from,
{
    if from + 1 < to {
        lemma_sum_drop_first(nums, from, to - 1);
    } else {
        assert(sum_between(nums, from, to - 1) == 0);
        assert(sum_between(nums, from + 1, to) == 0);
    }
}

/// For every place the average, rounded towards zero, of the numbers no
/// more than `k` places away from it; -1 where fewer than `k` numbers stand
/// on either side.
pub fn get_averages(nums: Vec<i32>, k: i32) -> (res: Vec<i32>)
    requires
        k >= 0,
    ensures
        res@.len() == nums@.len(),
        forall|ix: int|
            0 <= ix < nums@.len() ==> #[trigger] res@[ix] == if ix < k || nums@.len() - ix - 1 < k {
                -1
            } else {
                toward_zero(sum_between(nums@, ix - k, ix + k + 1), 2 * k + 1)
            },
{
    let l = nums.len();
    let k = k as usize;
    let mut res: Vec<i32> = Vec::with_capacity(l);
    let range = (k * 2 + 1) as i64;
    let mut sum: Option<i64> = None;
    let mut ix: usize = 0;
    while ix < l
        invariant
            l == nums@.len(),
            k <= i32::MAX,
            range == 2 * k + 1,
            ix <= l,
            res@.len() == ix,
            forall|i: int|
                0 <= i < ix ==> #[trigger] res@[i] == if i < k || l - i - 1 < k {
                    -1
                } else {
                    toward_zero(sum_between(nums@, i - k, i + k + 1), 2 * k + 1)
                },
            match sum {
                Some(s) => ix > k && (l - ix >= k ==> s == sum_between(nums@, ix - 1 - k, ix + k)),
                None => true,
            },
        decreases l - ix,
    {
        if ix < k || l - ix - 1 < k {
            res.push(-1);
        } else {
            proof {
                lemma_sum_bound(nums@, ix - k, ix + k + 1);
                lemma_sum_bound(nums@, ix - k, ix + k);
                if sum is Some {
                    lemma_sum_drop_first(nums@, ix - 1 - k, ix + k);
                }
                assert((2 * k + 1) * 0x8000_0000 <= 0x7fff_ffff_8000_0000 && (2 * k + 1)
                    * 0x7fff_ffff <= 0x7fff_ffff_8000_0000) by (nonlinear_arith)
                    requires
                        0 <= k <= 0x7fff_ffff,
                ;
                assert((2 * k) * 0x8000_0000 <= (2 * k + 1) * 0x8000_0000 && (2 * k) * 0x7fff_ffff
                    <= (2 * k + 1) * 0x7fff_ffff) by (nonlinear_arith)
                    requires
                        0 <= k,
                ;
            }
            let s: i64 = match sum {
                Some(old) => old - nums[ix - k - 1] as i64 + nums[ix + k] as i64,
                None => {
                    let mut t: i64 = 0;
                    let mut j: usize = ix - k;
                    while j <= ix + k
                        invariant
                            l == nums@.len(),
                            k <= ix,
                            ix + k < l,
                            ix - k <= j <= ix + k + 1,
                            k <= i32::MAX,
                            t == sum_between(nums@, ix - k, j as int),
                        decreases ix + k + 1 - j,
                    {
                        proof {
                            lemma_sum_bound(nums@, ix - k, j as int);
                            lemma_sum_bound(nums@, ix - k, j + 1);
                            assert((j - (ix - k)) * 0x8000_0000 <= 0x7fff_ffff_0000_0000 && (j + 1
                                - (ix - k)) * 0x8000_0000 <= 0x7fff_ffff_8000_0000 && (j - (ix
                                - k)) * 0x7fff_ffff <= 0x7fff_ffff_0000_0000 && (j + 1 - (ix - k))
                                * 0x7fff_ffff <= 0x7fff_ffff_8000_0000 && (j - (ix - k))
                                * 0x7fff_ffff >= 0 && (j + 1 - (ix - k)) * 0x7fff_ffff >= 0)
                                by (nonlinear_arith)
                                requires
                                    0 <= j - (ix - k) <= 2 * k,
                                    0 <= k <= 0x7fff_ffff,
                            ;
                        }
                        t = t + nums[j] as i64;
                        j += 1;
                    }
                    t
                },
            };
            sum = Some(s);
            proof {
                let total = sum_between(nums@, ix - k, ix + k + 1);
                let r = 2 * k + 1;
                assert(s == total) by {
                    assert(sum_between(nums@, ix - k, ix + k + 1) == sum_between(
                        nums@,
                        ix - k,
                        ix + k,
                    ) + nums@[ix + k]);
                }
                if total >= 0 {
                    assert(0 <= total / r <= 0x7fff_ffff) by (nonlinear_arith)
                        requires
                            0 <= total <= r * 0x7fff_ffff,
                            r >= 1,
                    ;
                } else {
                    assert(0 <= (-total) / r <= 0x8000_0000) by (nonlinear_arith)
                        requires
                            0 <= -total <= r * 0x8000_0000,
                            r >= 1,
                    ;
                }
            }
            res.push((s / range) as i32);
        }
        ix += 1;
    }
    res
}

/// The length of the run with the step `d - 500` that the tabulation keeps
/// for the place `ix`, when the places below `upto` have been looked at: one
/// more than the run of the last of them that lies one step before `ix`, or
/// one if there is none.
pub open spec fn run_len_upto(nums: Seq<i32>, ix: int, d: int, upto: int) -> int
    decreases ix, upto,
{
    if upto <= 0 || upto > ix {
        1
    } else if nums[ix] - nums[upto - 1] + 500 == d {
        run_len_upto(nums, upto - 1, d, upto - 1) + 1
    } else {
        run_len_upto(nums, ix, d, upto - 1)
    }
}

/// The length of the run with the step `d - 500` kept for the place `ix`.
pub open spec fn run_len(nums: Seq<i32>, ix: int, d: int) -> int {
    run_len_upto(nums, ix, d, ix)
}

/// The longest of the runs that reach `ix` from a place below `upto`.
pub open spec fn longest_to(nums: Seq<i32>, ix: int, upto: int) -> int
    decreases upto,
{
    if upto <= 0 {
        0
    } else {
        let l = run_len(nums, upto - 1, nums[ix] - nums[upto - 1] + 500) + 1;
        if l >= longest_to(nums, ix, upto - 1) {
            l
        } else {
            longest_to(nums, ix, upto - 1)
        }
    }
}

/// The longest of the runs that reach a place below `rows`.
pub open spec fn longest_below(nums: Seq<i32>, rows: int) -> int
    decreases rows,
{
    if rows <= 0 {
        0
    } else if longest_to(nums, rows - 1, rows - 1) >= longest_below(nums, rows - 1) {
        longest_to(nums, rows - 1, rows - 1)
    } else {
        longest_below(nums, rows - 1)
    }
}

/// A run that ends at `ix` has no more than `ix + 1` numbers.
proof fn lemma_run_len_bound(nums: Seq<i32>, ix: int, d: int, upto: int)
    requires
        0 <= ix,
    ensures
        1 <= run_len_upto(nums, ix, d, upto) <= ix + 1,
    decreases ix, upto,
{
    if upto <= 0 || upto > ix {
    } else if nums[ix] - nums[upto - 1] + 500 == d {
        lemma_run_len_bound(nums, upto - 1, d, upto - 1);
    } else {
        lemma_run_len_bound(nums, ix, d, upto - 1);
    }
}

/// `idx` names places of `nums` from front to back, and the number at each
/// of them is the number at the one before and `step`.
pub open spec fn stepping_places(nums: Seq<i32>, idx: Seq<int>, step: int) -> bool {
    &&& forall|m: int| 0 <= m < idx.len() ==> 0 <= #[trigger] idx[m] < nums.len()
    &&& forall|m: int|
        0 <= m < idx.len() - 1 ==> idx[m] < #[trigger] idx[m + 1] && nums[idx[m + 1]]
            - nums[idx[m]] == step
}

/// Two places with the same number see the same runs before the earlier of
/// them.
proof fn lemma_run_len_same(nums: Seq<i32>, a: int, b: int, d: int, upto: int)
    requires
        0 <= upto <= a <= b < nums.len(),
        nums[a] == nums[b],
    ensures
        run_len_upto(nums, a, d, upto) == run_len_upto(nums, b, d, upto),
    decreases upto,
{
    if upto > 0 && !(nums[a] - nums[upto - 1] + 500 == d) {
        lemma_run_len_same(nums, a, b, d, upto - 1);
    }
}

/// The place from which the run kept for `ix` is continued when the places
/// below `upto` have been looked at, or -1 if there is none.
proof fn lemma_run_len_from(nums: Seq<i32>, ix: int, d: int, upto: int) -> (q: int)
    requires
        0 <= upto <= ix < nums.len(),
    ensures
        -1 <= q < upto,
        q >= 0 ==> nums[ix] - nums[q] + 500 == d && run_len_upto(nums, ix, d, upto) == run_len(
            nums,
            q,
            d,
        ) + 1,
        q < 0 ==> run_len_upto(nums, ix, d, upto) == 1,
    decreases upto,
{
    if upto <= 0 {
        -1
    } else if nums[ix] - nums[upto - 1] + 500 == d {
        upto - 1
    } else {
        lemma_run_len_from(nums, ix, d, upto - 1)
    }
}

/// The run kept for a place grows as more places are looked at.
proof fn lemma_run_len_grows(nums: Seq<i32>, ix: int, d: int, u1: int, u2: int)
    requires
        0 <= u1 <= u2 <= ix < nums.len(),
    ensures
        run_len_upto(nums, ix, d, u1) <= run_len_upto(nums, ix, d, u2),
    decreases ix, u2,
{
    if u1 < u2 {
        if nums[ix] - nums[u2 - 1] + 500 == d {
            let p = u2 - 1;
            let q = lemma_run_len_from(nums, ix, d, u1);
            lemma_run_len_bound(nums, p, d, p);
            if q >= 0 {
                lemma_run_len_same(nums, q, p, d, q);
                lemma_run_len_grows(nums, p, d, q, p);
            }
        } else {
            lemma_run_len_grows(nums, ix, d, u1, u2 - 1);
        }
    }
}

/// No row of places that steps by `step` and ends at `ix` is longer than the
/// run kept for `ix` and that step.
proof fn lemma_run_len_is_longest(nums: Seq<i32>, idx: Seq<int>, step: int)
    requires
        stepping_places(nums, idx, step),
        idx.len() > 0,
    ensures
        idx.len() <= run_len(nums, idx.last(), step + 500),
    decreases idx.len(),
{
    let ix = idx.last();
    lemma_run_len_bound(nums, ix, step + 500, ix);
    if idx.len() > 1 {
        let before = idx.drop_last();
        let j = before.last();
        assert(idx[idx.len() - 2] < idx[idx.len() - 2 + 1]);
        assert forall|m: int| 0 <= m < before.len() - 1 implies before[m] < #[trigger] before[m
            + 1] && nums[before[m + 1]] - nums[before[m]] == step by {
            assert(idx[m] < idx[m + 1]);
        }
        assert forall|m: int| 0 <= m < before.len() implies 0 <= #[trigger] before[m]
            < nums.len() by {
            assert(0 <= idx[m] < nums.len());
        }
        lemma_run_len_is_longest(nums, before, step);
        lemma_run_len_grows(nums, ix, step + 500, j + 1, ix);
    }
}

/// A row of places that steps by `d - 500`, ends at `ix` and is as long as
/// the run kept for `ix`.
proof fn lemma_run_len_places(nums: Seq<i32>, ix: int, d: int) -> (idx: Seq<int>)
    requires
        0 <= ix < nums.len(),
    ensures
        stepping_places(nums, idx, d - 500),
        idx.len() == run_len(nums, ix, d),
        idx.len() > 0,
        idx.last() == ix,
    decreases ix,
{
    let q = lemma_run_len_from(nums, ix, d, ix);
    if q >= 0 {
        let before = lemma_run_len_places(nums, q, d);
        let idx = before.push(ix);
        assert forall|m: int| 0 <= m < idx.len() - 1 implies idx[m] < #[trigger] idx[m + 1]
            && nums[idx[m + 1]] - nums[idx[m]] == d - 500 by {
            if m < before.len() - 1 {
                assert(before[m] < before[m + 1]);
            }
        }
        idx
    } else {
        seq![ix]
    }
}

/// The longest run that reaches `ix` is as long as any that reaches it from
/// a place below `upto`.
proof fn lemma_longest_to(nums: Seq<i32>, ix: int, upto: int, j: int)
    requires
        0 <= j < upto,
    ensures
        run_len(nums, j, nums[ix] - nums[j] + 500) + 1 <= longest_to(nums, ix, upto),
    decreases upto,
{
    if j < upto - 1 {
        lemma_longest_to(nums, ix, upto - 1, j);
    }
}

/// The longest run below `rows` is as long as any that reaches a place
/// below `rows`.
proof fn lemma_longest_below(nums: Seq<i32>, rows: int, ix: int)
    requires
        0 <= ix < rows,
    ensures
        longest_to(nums, ix, ix) <= longest_below(nums, rows),
    decreases rows,
{
    if ix < rows - 1 {
        lemma_longest_below(nums, rows - 1, ix);
    }
}

/// A row of places that steps evenly and is as long as the longest run
/// that reaches `ix` from a place below `upto`, which is not zero.
proof fn lemma_longest_to_places(nums: Seq<i32>, ix: int, upto: int) -> (r: (Seq<int>, int))
    requires
        0 < upto <= ix < nums.len(),
    ensures
        stepping_places(nums, r.0, r.1),
        r.0.len() == longest_to(nums, ix, upto),
        r.0.len() >= 2,
    decreases upto,
{
    let j = upto - 1;
    let d = nums[ix] - nums[j] + 500;
    let l = run_len(nums, j, d) + 1;
    if upto == 1 || l >= longest_to(nums, ix, upto - 1) {
        let before = lemma_run_len_places(nums, j, d);
        let idx = before.push(ix);
        assert forall|m: int| 0 <= m < idx.len() - 1 implies idx[m] < #[trigger] idx[m + 1]
            && nums[idx[m + 1]] - nums[idx[m]] == d - 500 by {
            if m < before.len() - 1 {
                assert(before[m] < before[m + 1]);
            }
        }
        if upto == 1 {
            assert(longest_to(nums, ix, 0) == 0);
        }
        (idx, d - 500)
    } else {
        lemma_longest_to_places(nums, ix, upto - 1)
    }
}

/// A row of places that steps evenly and is as long as the longest run
/// below `rows`.
proof fn lemma_longest_below_places(nums: Seq<i32>, rows: int) -> (r: (Seq<int>, int))
    requires
        2 <= rows <= nums.len(),
    ensures
        stepping_places(nums, r.0, r.1),
        r.0.len() == longest_below(nums, rows),
        r.0.len() >= 2,
    decreases rows,
{
    if rows == 2 {
        assert(longest_below(nums, 1) == 0) by {
            assert(longest_to(nums, 0, 0) == 0);
            assert(longest_below(nums, 0) == 0);
        }
        lemma_longest_to_places(nums, 1, 1)
    } else if longest_to(nums, rows - 1, rows - 1) >= longest_below(nums, rows - 1) {
        lemma_longest_to_places(nums, rows - 1, rows - 1)
    } else {
        lemma_longest_below_places(nums, rows - 1)
    }
}

/// The length of the longest subsequence of `nums` of two numbers at least
/// in which every number is the one before it and one step, the same
/// throughout; zero where `nums` has fewer than two numbers. A run is
/// continued from the last earlier place that lies one step back. No two
/// numbers may differ by more than 500.
pub fn longest_arith_seq_length(nums: Vec<i32>) -> (max: i32)
    requires
        nums@.len() < i32::MAX,
        forall|i: int, j: int|
            0 <= j < i < nums@.len() ==> -500 <= #[trigger] (nums@[i] - nums@[j]) <= 500,
    ensures
        max == longest_below(nums@, nums@.len() as int),
        nums@.len() < 2 ==> max == 0,
        nums@.len() >= 2 ==> exists|idx: Seq<int>, step: int|
            #[trigger] stepping_places(nums@, idx, step) && idx.len() == max,
        forall|idx: Seq<int>, step: int|
            #[trigger] stepping_places(nums@, idx, step) && idx.len() >= 2 ==> idx.len() <= max,
{
    let n = nums.len();
    proof {
        let rows = n as int;
        if rows >= 2 {
            let r = lemma_longest_below_places(nums@, rows);
            assert(stepping_places(nums@, r.0, r.1) && r.0.len() == longest_below(nums@, rows));
        } else {
            assert(longest_below(nums@, 0) == 0);
            assert(longest_to(nums@, 0, 0) == 0);
            assert(longest_below(nums@, 1) == 0);
        }
        assert forall|idx: Seq<int>, step: int| #[trigger]
            stepping_places(nums@, idx, step) && idx.len() >= 2 implies idx.len()
            <= longest_below(nums@, rows) by {
            let ix = idx.last();
            let before = idx.drop_last();
            let j = before.last();
            assert(idx[idx.len() - 2] < idx[idx.len() - 2 + 1]);
            assert forall|m: int| 0 <= m < before.len() - 1 implies before[m] < #[trigger] before[m
                + 1] && nums@[before[m + 1]] - nums@[before[m]] == step by {
                assert(idx[m] < idx[m + 1]);
            }
            assert forall|m: int| 0 <= m < before.len() implies 0 <= #[trigger] before[m]
                < nums@.len() by {
                assert(0 <= idx[m] < nums@.len());
            }
            lemma_run_len_is_longest(nums@, before, step);
            lemma_longest_to(nums@, ix, ix, j);
            lemma_longest_below(nums@, rows, ix);
        }
    }
    let mut dp: Vec<Vec<i32>> = vec![vec![1i32; 1001]; n];
    let mut max: i32 = 0;
    let mut ix: usize = 1;
    proof {
        assert(longest_below(nums@, 0) == 0);
        assert(longest_to(nums@, 0, 0) == 0);
        assert(longest_below(nums@, 1) == 0);
        assert forall|d: int| run_len(nums@, 0, d) == 1 by {}
    }
    while ix < n
        invariant
            n == nums@.len(),
            n < i32::MAX,
            1 <= ix,
            forall|i: int, j: int|
                0 <= j < i < nums@.len() ==> -500 <= #[trigger] (nums@[i] - nums@[j]) <= 500,
            dp@.len() == n,
            forall|x: int| 0 <= x < n ==> (#[trigger] dp@[x])@.len() == 1001,
            forall|x: int, d: int|
                0 <= x < n && x < ix && 0 <= d <= 1000 ==> #[trigger] dp@[x]@[d] == run_len(
                    nums@,
                    x,
                    d,
                ),
            forall|x: int, d: int| ix <= x < n && 0 <= d <= 1000 ==> #[trigger] dp@[x]@[d] == 1,
            n == 0 ==> max == 0,
            n > 0 ==> ix <= n,
            n > 0 ==> max == longest_below(nums@, ix as int),
            0 <= max <= n,
        decreases n - ix,
    {
        let i = nums[ix];
        let mut jx: usize = 0;
        let ghost outer = max as int;
        proof {
            assert(longest_to(nums@, ix as int, 0) == 0);
            assert forall|d: int| 0 <= d <= 1000 implies dp@[ix as int]@[d] == run_len_upto(
                nums@,
                ix as int,
                d,
                0,
            ) by {}
        }
        while jx < ix
            invariant
                n == nums@.len(),
                n < i32::MAX,
                1 <= ix < n,
                jx <= ix,
                i == nums@[ix as int],
                forall|i: int, j: int|
                    0 <= j < i < nums@.len() ==> -500 <= #[trigger] (nums@[i] - nums@[j]) <= 500,
                dp@.len() == n,
                forall|x: int| 0 <= x < n ==> (#[trigger] dp@[x])@.len() == 1001,
                forall|x: int, d: int|
                    0 <= x < ix && 0 <= d <= 1000 ==> #[trigger] dp@[x]@[d] == run_len(nums@, x, d),
                forall|x: int, d: int| ix < x < n && 0 <= d <= 1000 ==> #[trigger] dp@[x]@[d] == 1,
                forall|d: int|
                    0 <= d <= 1000 ==> #[trigger] dp@[ix as int]@[d] == run_len_upto(
                        nums@,
                        ix as int,
                        d,
                        jx as int,
                    ),
                outer == longest_below(nums@, ix as int),
                max == if longest_to(nums@, ix as int, jx as int) >= outer {
                    longest_to(nums@, ix as int, jx as int)
                } else {
                    outer
                },
                0 <= max <= n,
            decreases ix - jx,
        {
            let j = nums[jx];
            proof {
                assert(-500 <= nums@[ix as int] - nums@[jx as int] <= 500);
            }
            let diff = (i - j + 500) as usize;
            proof {
                assert(dp@[jx as int]@[diff as int] == run_len(nums@, jx as int, diff as int));
                lemma_run_len_bound(nums@, jx as int, diff as int, jx as int);
            }
            let l = dp[jx][diff] + 1;
            let ghost before = dp@;
            dp[ix][diff] = l;
            if l > max {
                max = l;
            }
            proof {
                assert forall|x: int, d: int| 0 <= x < ix && 0 <= d <= 1000 implies #[trigger] dp@[x]@[d]
                    == run_len(nums@, x, d) by {
                    assert(dp@[x] == before[x]);
                    assert(before[x]@[d] == run_len(nums@, x, d));
                }
                assert forall|x: int, d: int| ix < x < n && 0 <= d <= 1000 implies #[trigger] dp@[x]@[d]
                    == 1 by {
                    assert(dp@[x] == before[x]);
                    assert(before[x]@[d] == 1);
                }
                assert forall|d: int| 0 <= d <= 1000 implies #[trigger] dp@[ix as int]@[d]
                    == run_len_upto(nums@, ix as int, d, jx + 1) by {
                    if d != diff {
                        assert(dp@[ix as int]@[d] == before[ix as int]@[d]);
                        assert(before[ix as int]@[d] == run_len_upto(
                            nums@,
                            ix as int,
                            d,
                            jx as int,
                        ));
                    }
                }
            }
            jx += 1;
        }
        proof {
            assert forall|x: int, d: int|
                0 <= x < n && x < ix + 1 && 0 <= d <= 1000 implies #[trigger] dp@[x]@[d] == run_len(
                nums@,
                x,
                d,
            ) by {
                if x == ix {
                    assert(dp@[ix as int]@[d] == run_len_upto(nums@, ix as int, d, ix as int));
                }
            }
            assert(longest_below(nums@, ix + 1) == if longest_to(nums@, ix as int, ix as int)
                >= longest_below(nums@, ix as int) {
                longest_to(nums@, ix as int, ix as int)
            } else {
                longest_below(nums@, ix as int)
            });
        }
        ix += 1;
    }
    max
}

/// The place of the number that is ahead once the numbers up to the place
/// `j` have met: the first number meets the second, and the winner of a
/// meeting, the greater of the two, meets the next number. A number that is
/// ahead loses a meeting of equal numbers.
pub open spec fn champion(arr: Seq<i32>, j: int) -> int
    decreases j,
{
    if j <= 0 {
        0
    } else if arr[champion(arr, j - 1)] > arr[j] {
        champion(arr, j - 1)
    } else {
        j
    }
}

/// How many meetings in a row the number that is ahead has won once the
/// numbers up to the place `j` have met.
pub open spec fn streak(arr: Seq<i32>, j: int) -> int
    decreases j,
{
    if j <= 0 {
        0
    } else if arr[champion(arr, j - 1)] > arr[j] {
        streak(arr, j - 1) + 1
    } else {
        1
    }
}

/// The first place from `j` on at which the streak is `k`, or the last
/// place if the streak is `k` nowhere.
pub open spec fn decided_from(arr: Seq<i32>, k: int, j: int) -> int
    decreases arr.len() - j,
{
    if j >= arr.len() - 1 || streak(arr, j) == k {
        j
    } else {
        decided_from(arr, k, j + 1)
    }
}

/// The number at the place `m` is greater than every other number.
pub open spec fn greatest_at(arr: Seq<i32>, m: int) -> bool {
    &&& 0 <= m < arr.len()
    &&& forall|i: int| 0 <= i < arr.len() && i != m ==> arr[i] < arr[m]
}

/// The number that is ahead is one of those that have met, and from the
/// place of the greatest number on it is that one.
proof fn lemma_champion(arr: Seq<i32>, m: int, j: int)
    requires
        greatest_at(arr, m),
        0 <= j < arr.len(),
    ensures
        0 <= champion(arr, j) <= j,
        j >= m ==> champion(arr, j) == m,
    decreases j,
{
    if j > 0 {
        lemma_champion(arr, m, j - 1);
    }
}

/// The winner of the game in which the first two numbers meet, the greater
/// of two stays ahead and meets the next number, and the other goes to the
/// end of the row: the number that is ahead when a number has first won `k`
/// meetings in a row. That is the number ahead at the first place within
/// the row where the streak is `k`, or the greatest number if there is no
/// such place. The row must hold two numbers at least, one of them greater
/// than all others, and `k` must be positive.
pub fn get_winner(arr: Vec<i32>, k: i32) -> (r: i32)
    requires
        arr@.len() >= 2,
        k >= 1,
        exists|m: int| greatest_at(arr@, m),
    ensures
        r == arr@[champion(arr@, decided_from(arr@, k as int, 1))],
{
    let mut wins: i32 = 0;
    let mut winner_idx: usize = 0;
    let mut next_idx: usize = 1;
    let ghost m = choose|m: int| greatest_at(arr@, m);
    let ghost mut first_pass = true;
    let n = arr.len();
    loop
        invariant
            n == arr@.len(),
            n >= 2,
            k >= 1,
            greatest_at(arr@, m),
            winner_idx < n,
            next_idx < n,
            0 <= wins < k,
            first_pass ==> 1 <= next_idx && winner_idx == champion(arr@, next_idx - 1) && wins
                == streak(arr@, next_idx - 1) && decided_from(arr@, k as int, 1) == decided_from(
                arr@,
                k as int,
                next_idx as int,
            ),
            !first_pass ==> winner_idx == m && decided_from(arr@, k as int, 1) == n - 1,
        decreases
                (if first_pass {
                    1int
                } else {
                    0int
                }),
                (if first_pass {
                    n - next_idx
                } else {
                    k - wins
                }),
                (if winner_idx == next_idx {
                    1int
                } else {
                    0int
                }),
    {
        proof {
            lemma_champion(arr@, m, n - 1);
            if first_pass {
                lemma_champion(arr@, m, next_idx - 1);
                lemma_champion(arr@, m, next_idx as int);
            }
        }
        if winner_idx != next_idx {
            let i0 = arr[winner_idx];
            let i1 = arr[next_idx];
            if i0 > i1 {
                wins += 1;
            } else {
                wins = 1;
                winner_idx = next_idx;
            }
        }
        let ghost met = next_idx as int;
        next_idx += 1;
        if next_idx == arr.len() {
            next_idx = 0;
        }
        if wins == k {
            return arr[winner_idx];
        }
        proof {
            if first_pass && next_idx == 0 {
                first_pass = false;
            }
        }
    }
}

/// The sum of the costs of the first `upto` pairs.
pub open spec fn weight(s: Seq<(i64, i64)>, upto: int) -> int
    decreases upto,
{
    if upto <= 0 {
        0
    } else {
        weight(s, upto - 1) + s[upto - 1].1
    }
}

/// What it costs to bring the numbers of the pairs after the first and
/// before `upto` to the number of the first pair, where a step of one on
/// the number of a pair costs the cost of that pair.
pub open spec fn cost_to_first(s: Seq<(i64, i64)>, upto: int) -> int
    decreases upto,
{
    if upto <= 1 {
        0
    } else {
        cost_to_first(s, upto - 1) + distance(s[upto - 1].0 as int, s[0].0 as int) * s[upto - 1].1
    }
}

/// The least cost found once the target has moved from the first pair to
/// the pair at `k`: each move changes the cost by the step times the costs
/// of the pairs behind less the costs of the pairs ahead, and the lesser of
/// the cost before and after the move is kept.
pub open spec fn least_cost_upto(s: Seq<(i64, i64)>, k: int) -> int
    decreases k,
{
    if k <= 0 {
        cost_to_first(s, s.len() as int)
    } else {
        let before = least_cost_upto(s, k - 1);
        let step = distance(s[k].0 as int, s[k - 1].0 as int);
        let behind = weight(s, k);
        let ahead = weight(s, s.len() as int) - weight(s, k);
        let moved = before + behind * step - ahead * step;
        if moved < before {
            moved
        } else {
            before
        }
    }
}

/// The numbers of the pairs never fall.
pub open spec fn by_rising_number(s: Seq<(i64, i64)>) -> bool {
    forall|a: int, b: int| 0 <= a <= b < s.len() ==> s[a].0 <= s[b].0
}

/// No cost of a pair is below zero.
pub open spec fn costs_not_negative(s: Seq<(i64, i64)>) -> bool {
    forall|i: int| 0 <= i < s.len() ==> (#[trigger] s[i]).1 >= 0
}

/// What it costs to bring the numbers of the first `upto` pairs to `t`.
pub open spec fn cost_at(s: Seq<(i64, i64)>, t: int, upto: int) -> int
    decreases upto,
{
    if upto <= 0 {
        0
    } else {
        cost_at(s, t, upto - 1) + distance(s[upto - 1].0 as int, t) * s[upto - 1].1
    }
}

/// Whether `x` is a value of `i64`.
pub open spec fn fits_i64(x: int) -> bool {
    i64::MIN <= x <= i64::MAX
}

/// Every difference, product and sum that is formed for the pair at `k` on
/// the way to the least cost is a value of `i64`.
pub open spec fn cost_fits_at(s: Seq<(i64, i64)>, k: int) -> bool {
    let to_first = distance(s[k].0 as int, s[0].0 as int);
    let step = distance(s[k].0 as int, s[k - 1].0 as int);
    let behind = weight(s, k);
    let ahead = weight(s, s.len() as int) - weight(s, k);
    &&& fits_i64(to_first)
    &&& fits_i64(to_first * s[k].1)
    &&& fits_i64(cost_to_first(s, k + 1))
    &&& fits_i64(weight(s, k + 1))
    &&& fits_i64(step)
    &&& fits_i64(behind)
    &&& fits_i64(ahead)
    &&& fits_i64(behind * step)
    &&& fits_i64(ahead * step)
    &&& fits_i64(least_cost_upto(s, k - 1) + behind * step)
    &&& fits_i64(least_cost_upto(s, k - 1) + behind * step - ahead * step)
}

/// Every difference, product and sum that is formed on the way to the least
/// cost of the pairs, taken in the order in which they stand, is a value of
/// `i64`.
pub open spec fn cost_fits(s: Seq<(i64, i64)>) -> bool {
    forall|k: int| 1 <= k < s.len() ==> #[trigger] cost_fits_at(s, k)
}

/// What `cost_fits` says of the pair at `k`.
proof fn lemma_fits_at(s: Seq<(i64, i64)>, k: int)
    requires
        cost_fits(s),
        1 <= k < s.len(),
    ensures
        fits_i64(distance(s[k].0 as int, s[0].0 as int)),
        fits_i64(distance(s[k].0 as int, s[0].0 as int) * s[k].1),
        fits_i64(cost_to_first(s, k + 1)),
        fits_i64(weight(s, k + 1)),
        fits_i64(distance(s[k].0 as int, s[k - 1].0 as int)),
        fits_i64(weight(s, k)),
        fits_i64(weight(s, s.len() as int) - weight(s, k)),
        fits_i64(weight(s, k) * distance(s[k].0 as int, s[k - 1].0 as int)),
        fits_i64(
            (weight(s, s.len() as int) - weight(s, k)) * distance(
                s[k].0 as int,
                s[k - 1].0 as int,
            ),
        ),
        fits_i64(
            least_cost_upto(s, k - 1) + weight(s, k) * distance(s[k].0 as int, s[k - 1].0 as int),
        ),
        fits_i64(
            least_cost_upto(s, k - 1) + weight(s, k) * distance(s[k].0 as int, s[k - 1].0 as int)
                - (weight(s, s.len() as int) - weight(s, k)) * distance(
                s[k].0 as int,
                s[k - 1].0 as int,
            ),
        ),
{
    assert(cost_fits_at(s, k));
}

/// Where no cost is below zero, the weight of the pairs grows with their
/// number.
proof fn lemma_weight(s: Seq<(i64, i64)>, a: int, b: int)
    requires
        costs_not_negative(s),
        0 <= a <= b <= s.len(),
    ensures
        0 <= weight(s, a) <= weight(s, b),
    decreases b,
{
    if b > 0 {
        if a < b {
            lemma_weight(s, a, b - 1);
        } else {
            lemma_weight(s, a - 1, b - 1);
        }
    }
}

/// The cost of bringing the pairs to the number of the first is the cost
/// that the first pass reckons.
proof fn lemma_cost_to_first(s: Seq<(i64, i64)>, upto: int)
    requires
        0 < s.len(),
        0 <= upto <= s.len(),
    ensures
        cost_to_first(s, upto) == cost_at(s, s[0].0 as int, upto),
    decreases upto,
{
    if upto > 1 {
        lemma_cost_to_first(s, upto - 1);
    } else if upto == 1 {
        assert(cost_at(s, s[0].0 as int, 0) == 0);
        assert(distance(s[0].0 as int, s[0].0 as int) * s[0].1 == 0) by (nonlinear_arith)
            requires
                distance(s[0].0 as int, s[0].0 as int) == 0,
        ;
    }
}

/// Moving the target from `t0` up to `t1`, where the first `k` numbers are
/// no greater than `t0` and the others no less than `t1`, changes the cost
/// by the step times the weight behind less the weight ahead.
proof fn lemma_shift_target(s: Seq<(i64, i64)>, k: int, t0: int, t1: int, upto: int)
    requires
        0 <= k <= s.len(),
        t0 <= t1,
        forall|j: int| 0 <= j < k ==> (#[trigger] s[j]).0 <= t0,
        forall|j: int| k <= j < s.len() ==> (#[trigger] s[j]).0 >= t1,
        0 <= upto <= s.len(),
    ensures
        cost_at(s, t1, upto) == cost_at(s, t0, upto) + (t1 - t0) * weight(s, if upto <= k {
            upto
        } else {
            k
        }) - (t1 - t0) * (weight(s, upto) - weight(s, if upto <= k {
            upto
        } else {
            k
        })),
    decreases upto,
{
    let d = t1 - t0;
    if upto > 0 {
        lemma_shift_target(s, k, t0, t1, upto - 1);
        let j = upto - 1;
        let c = s[j].1 as int;
        if j < k {
            assert(s[j].0 <= t0);
            assert(distance(s[j].0 as int, t1) == distance(s[j].0 as int, t0) + d);
            assert((distance(s[j].0 as int, t0) + d) * c == distance(s[j].0 as int, t0) * c + d
                * c) by (nonlinear_arith);
            assert(d * (weight(s, j) + c) == d * weight(s, j) + d * c) by (nonlinear_arith);
        } else {
            assert(s[j].0 >= t1);
            assert(distance(s[j].0 as int, t1) == distance(s[j].0 as int, t0) - d);
            assert((distance(s[j].0 as int, t0) - d) * c == distance(s[j].0 as int, t0) * c - d
                * c) by (nonlinear_arith);
            assert(d * (weight(s, j) + c - weight(s, k)) == d * (weight(s, j) - weight(s, k)) + d
                * c) by (nonlinear_arith);
        }
    } else {
        assert(d * 0 == 0) by (nonlinear_arith);
    }
}

/// For pairs in the order of their numbers, none with a cost below zero,
/// the least cost found is the least of the costs of bringing all numbers
/// to the number of one of the pairs up to `k`; it is the cost for the pair
/// at `k` itself as long as less weight lies behind the target than ahead
/// of it.
pub proof fn lemma_least_cost_is_least(s: Seq<(i64, i64)>, k: int)
    requires
        costs_not_negative(s),
        by_rising_number(s),
        0 <= k < s.len(),
    ensures
        forall|i: int|
            0 <= i <= k ==> least_cost_upto(s, k) <= #[trigger] cost_at(
                s,
                s[i].0 as int,
                s.len() as int,
            ),
        exists|i: int|
            0 <= i <= k && least_cost_upto(s, k) == #[trigger] cost_at(
                s,
                s[i].0 as int,
                s.len() as int,
            ),
        least_cost_upto(s, k) == cost_at(s, s[k].0 as int, s.len() as int) || 2 * weight(s, k)
            >= weight(s, s.len() as int),
    decreases k,
{
    let n = s.len() as int;
    if k == 0 {
        lemma_cost_to_first(s, n);
    } else {
        lemma_least_cost_is_least(s, k - 1);
        lemma_shift_target(s, k, s[k - 1].0 as int, s[k].0 as int, n);
        lemma_weight(s, k - 1, k);
        lemma_weight(s, k, n);
        let before = least_cost_upto(s, k - 1);
        let step = distance(s[k].0 as int, s[k - 1].0 as int);
        let behind = weight(s, k);
        let ahead = weight(s, n) - weight(s, k);
        let here = cost_at(s, s[k].0 as int, n);
        let there = cost_at(s, s[k - 1].0 as int, n);
        assert(step == s[k].0 - s[k - 1].0);
        assert(here == there + step * behind - step * ahead);
        assert(behind * step == step * behind && ahead * step == step * ahead)
            by (nonlinear_arith);
        let change = behind * step - ahead * step;
        assert(change == (behind - ahead) * step) by (nonlinear_arith)
            requires
                change == behind * step - ahead * step,
        ;
        let w = choose|i: int| 0 <= i <= k - 1 && before == #[trigger] cost_at(s, s[i].0 as int, n);
        if change < 0 {
            assert(behind - ahead < 0 && step > 0) by (nonlinear_arith)
                requires
                    change == (behind - ahead) * step,
                    change < 0,
                    step >= 0,
            ;
            assert(2 * weight(s, k - 1) < weight(s, n));
            assert(before == there);
            assert(least_cost_upto(s, k) == here);
        } else {
            assert(least_cost_upto(s, k) == before);
            assert(before <= there);
            assert(least_cost_upto(s, k) == cost_at(s, s[w].0 as int, n));
            if behind - ahead < 0 {
                assert(change == 0) by (nonlinear_arith)
                    requires
                        change == (behind - ahead) * step,
                        change >= 0,
                        behind - ahead < 0,
                        step >= 0,
                ;
                assert(2 * weight(s, k - 1) < weight(s, n));
            }
        }
    }
}

/// A place up to `hi` whose number is not below `x` while the number before
/// it is.
proof fn lemma_gap(s: Seq<(i64, i64)>, x: int, hi: int) -> (k: int)
    requires
        1 <= hi < s.len(),
        s[0].0 < x <= s[hi].0,
    ensures
        1 <= k <= hi,
        s[k - 1].0 < x <= s[k].0,
    decreases hi,
{
    if s[hi - 1].0 < x {
        hi
    } else {
        lemma_gap(s, x, hi - 1)
    }
}

/// For pairs in the order of their numbers, none with a cost below zero:
/// whatever the target, bringing all numbers to the number of some pair
/// costs no more.
pub proof fn lemma_some_number_is_best(s: Seq<(i64, i64)>, x: int) -> (i: int)
    requires
        s.len() > 0,
        costs_not_negative(s),
        by_rising_number(s),
    ensures
        0 <= i < s.len(),
        cost_at(s, s[i].0 as int, s.len() as int) <= cost_at(s, x, s.len() as int),
{
    let n = s.len() as int;
    lemma_weight(s, 0, n);
    assert(weight(s, 0) == 0);
    if x <= s[0].0 {
        lemma_shift_target(s, 0, x, s[0].0 as int, n);
        assert((s[0].0 - x) * weight(s, n) >= 0) by (nonlinear_arith)
            requires
                s[0].0 - x >= 0,
                weight(s, n) >= 0,
        ;
        assert((s[0].0 - x) * 0 == 0) by (nonlinear_arith);
        0
    } else if x > s[n - 1].0 {
        lemma_shift_target(s, n, s[n - 1].0 as int, x, n);
        assert((x - s[n - 1].0) * weight(s, n) >= 0) by (nonlinear_arith)
            requires
                x - s[n - 1].0 >= 0,
                weight(s, n) >= 0,
        ;
        assert((x - s[n - 1].0) * (weight(s, n) - weight(s, n)) == 0) by (nonlinear_arith);
        n - 1
    } else {
        let k = lemma_gap(s, x, n - 1);
        lemma_shift_target(s, k, s[k - 1].0 as int, x, n);
        lemma_shift_target(s, k, x, s[k].0 as int, n);
        let behind = weight(s, k);
        let ahead = weight(s, n) - weight(s, k);
        let (up, down) = (x - s[k - 1].0, s[k].0 - x);
        if behind >= ahead {
            assert(up * behind - up * ahead >= 0) by (nonlinear_arith)
                requires
                    up >= 0,
                    behind >= ahead,
            ;
            k - 1
        } else {
            assert(down * behind - down * ahead <= 0) by (nonlinear_arith)
                requires
                    down >= 0,
                    behind < ahead,
            ;
            k
        }
    }
}

/// `s`, which is in the order of its numbers, with the pair `x` put behind
/// the pairs whose number is not greater.
pub open spec fn placed(s: Seq<(i64, i64)>, x: (i64, i64)) -> Seq<(i64, i64)>
    decreases s.len(),
{
    if s.len() == 0 || s.last().0 <= x.0 {
        s.push(x)
    } else {
        placed(s.drop_last(), x).push(s.last())
    }
}

/// The pairs of `s` in the order of their numbers, pairs with the same
/// number in the order in which they stand in `s`.
pub open spec fn in_order(s: Seq<(i64, i64)>) -> Seq<(i64, i64)>
    decreases s.len(),
{
    if s.len() == 0 {
        s
    } else {
        placed(in_order(s.drop_last()), s.last())
    }
}

/// The slice's `sort_by_key` on the numbers of the pairs. Trusted: the
/// pairs are rearranged so that their numbers never fall, and pairs with
/// the same number keep their order.
#[verifier::external_body]
fn sort_pairs(v: &mut Vec<(i64, i64)>)
    ensures
        final(v)@ == in_order(old(v)@),
        final(v)@.to_multiset() == old(v)@.to_multiset(),
        by_rising_number(final(v)@),
{
    v.sort_by_key(|t| t.0)
}

/// The pairs of the numbers of `nums` and the costs of `cost` at the places
/// that both have.
pub open spec fn paired(nums: Seq<i32>, cost: Seq<i32>) -> Seq<(i64, i64)> {
    Seq::new(
        if nums.len() <= cost.len() {
            nums.len()
        } else {
            cost.len()
        },
        |i: int| (nums[i] as i64, cost[i] as i64),
    )
}

/// The least cost found for the pairs in the order in which they stand,
/// where a step of one on the number of a pair costs the cost of that pair:
/// first the cost of bringing all numbers to the number of the first pair
/// is reckoned, then the target moves from pair to pair, and the least cost
/// met is kept. Where the pairs stand in the order of their numbers and no
/// cost is below zero, this is the least cost of bringing all numbers to
/// one number, whichever. There must be a pair.
pub fn min_cost_sorted(compound: &Vec<(i64, i64)>) -> (min_cost: i64)
    requires
        compound@.len() > 0,
        cost_fits(compound@),
    ensures
        min_cost == least_cost_upto(compound@, compound@.len() - 1),
        by_rising_number(compound@) && costs_not_negative(compound@) ==> forall|x: int|
            min_cost <= #[trigger] cost_at(compound@, x, compound@.len() as int),
        by_rising_number(compound@) && costs_not_negative(compound@) ==> exists|i: int|
            0 <= i < compound@.len() && min_cost == #[trigger] cost_at(
                compound@,
                compound@[i].0 as int,
                compound@.len() as int,
            ),
{
    let n = compound.len();
    let mut min_cost: i64 = 0;
    let mut target = compound[0];
    let mut prefix: i64 = 0;
    let mut suffix: i64 = target.1;
    let mut k: usize = 1;
    proof {
        assert(weight(compound@, 0) == 0);
    }
    while k < n
        invariant
            n == compound@.len(),
            cost_fits(compound@),
            1 <= k <= n,
            target == compound@[0],
            min_cost == cost_to_first(compound@, k as int),
            suffix == weight(compound@, k as int),
        decreases n - k,
    {
        let (v, c) = compound[k];
        proof {
            lemma_fits_at(compound@, k as int);
        }
        let diff = if v >= target.0 {
            v - target.0
        } else {
            target.0 - v
        };
        min_cost += diff * c;
        suffix += c;
        k += 1;
    }
    let ghost total = suffix as int;
    let mut k: usize = 1;
    while k < n
        invariant
            n == compound@.len(),
            cost_fits(compound@),
            1 <= k <= n,
            target == compound@[k - 1],
            total == weight(compound@, n as int),
            prefix == weight(compound@, k - 1),
            suffix == total - weight(compound@, k - 1),
            min_cost == least_cost_upto(compound@, k - 1),
        decreases n - k,
    {
        let (v, c) = compound[k];
        proof {
            lemma_fits_at(compound@, k as int);
        }
        let diff = if v >= target.0 {
            v - target.0
        } else {
            target.0 - v
        };
        let ghost step = distance(compound@[k as int].0 as int, compound@[k - 1].0 as int);
        let ghost behind = weight(compound@, k as int);
        let ghost ahead = total - behind;
        let ghost least = least_cost_upto(compound@, k - 1);
        assert(diff == step);
        prefix += target.1;
        suffix -= target.1;
        assert(prefix == behind && suffix == ahead);
        let gain = prefix * diff;
        let loss = suffix * diff;
        assert(gain == behind * step && loss == ahead * step);
        let cost = min_cost + gain - loss;
        assert(least_cost_upto(compound@, k as int) == if least + behind * step - ahead * step
            < least {
            least + behind * step - ahead * step
        } else {
            least
        });
        if cost < min_cost {
            min_cost = cost;
        }
        target = (v, c);
        k += 1;
    }
    proof {
        if by_rising_number(compound@) && costs_not_negative(compound@) {
            lemma_least_cost_is_least(compound@, n - 1);
            assert forall|x: int| min_cost <= #[trigger] cost_at(compound@, x, n as int) by {
                let i = lemma_some_number_is_best(compound@, x);
                assert(min_cost <= cost_at(compound@, compound@[i].0 as int, n as int));
            }
        }
    }
    min_cost
}

/// The least cost of making all numbers of `nums` equal, where a step of
/// one on the number at a place costs the cost at that place: the pairs of
/// number and cost are put in the order of their numbers and handed to
/// `min_cost_sorted`. Where no cost is below zero, that is the least cost
/// of bringing all numbers to one number, whichever, and one of the numbers
/// is such a number. Zero where there is no number. Where there is a number
/// there must be a cost, and what is formed on the way must fit `i64`.
pub fn min_cost(nums: Vec<i32>, cost: Vec<i32>) -> (r: i64)
    requires
        nums@.len() > 0 ==> cost@.len() > 0,
        cost_fits(in_order(paired(nums@, cost@))),
    ensures
        r == if nums@.len() == 0 {
            0
        } else {
            least_cost_upto(in_order(paired(nums@, cost@)), paired(nums@, cost@).len() - 1)
        },
        nums@.len() > 0 && costs_not_negative(paired(nums@, cost@)) ==> forall|x: int|
            r <= #[trigger] cost_at(
                paired(nums@, cost@),
                x,
                paired(nums@, cost@).len() as int,
            ),
        nums@.len() > 0 && costs_not_negative(paired(nums@, cost@)) ==> exists|i: int|
            0 <= i < paired(nums@, cost@).len() && r == #[trigger] cost_at(
                paired(nums@, cost@),
                nums@[i] as int,
                paired(nums@, cost@).len() as int,
            ),
{
    if nums.is_empty() {
        return 0;
    }
    let mut compound: Vec<(i64, i64)> = Vec::new();
    let mut k: usize = 0;
    while k < nums.len() && k < cost.len()
        invariant
            k <= nums.len(),
            k <= cost.len(),
            compound@.len() == k,
            forall|i: int| 0 <= i < k ==> #[trigger] compound@[i] == (nums@[i] as i64, cost@[i] as i64),
        decreases nums.len() - k,
    {
        compound.push((nums[k] as i64, cost[k] as i64));
        k += 1;
    }
    proof {
        assert(compound@ =~= paired(nums@, cost@));
    }
    let ghost before = compound@;
    sort_pairs(&mut compound);
    proof {
        vstd::seq_lib::to_multiset_len(before);
        vstd::seq_lib::to_multiset_len(compound@);
    }
    let r = min_cost_sorted(&compound);
    proof {
        let n = compound@.len() as int;
        if costs_not_negative(before) {
            assert forall|i: int| 0 <= i < compound@.len() implies (#[trigger] compound@[i]).1
                >= 0 by {
                let j = lemma_same_bag_member(compound@, before, i);
                assert(before[j].1 >= 0);
            }
            assert forall|x: int| r <= #[trigger] cost_at(before, x, before.len() as int) by {
                lemma_cost_at_rearranged(compound@, before, x);
                assert(r <= cost_at(compound@, x, n));
            }
            let w = choose|i: int|
                0 <= i < n && r == #[trigger] cost_at(compound@, compound@[i].0 as int, n);
            let j = lemma_same_bag_member(compound@, before, w);
            assert(before[j].0 == nums@[j]);
            lemma_cost_at_rearranged(compound@, before, nums@[j] as int);
            assert(r == cost_at(before, nums@[j] as int, before.len() as int));
        }
    }
    r
}

/// The cost of bringing pairs to a number does not depend on their order.
proof fn lemma_cost_at_rearranged(a: Seq<(i64, i64)>, b: Seq<(i64, i64)>, t: int)
    requires
        a.to_multiset() == b.to_multiset(),
    ensures
        cost_at(a, t, a.len() as int) == cost_at(b, t, b.len() as int),
    decreases a.len(),
{
    vstd::seq_lib::to_multiset_len(a);
    vstd::seq_lib::to_multiset_len(b);
    if a.len() > 0 {
        let x = a.last();
        let j = lemma_same_bag_member(a, b, a.len() - 1);
        let a1 = a.drop_last();
        let b1 = b.remove(j);
        assert(a1 =~= a.remove(a.len() - 1));
        vstd::seq_lib::to_multiset_remove(a, a.len() - 1);
        vstd::seq_lib::to_multiset_remove(b, j);
        lemma_cost_at_rearranged(a1, b1, t);
        lemma_cost_at_prefix(a, a1, t, a1.len() as int);
        lemma_cost_at_without(b, j, t, b.len() as int);
    }
}

/// The cost over a prefix does not look beyond it.
proof fn lemma_cost_at_prefix(a: Seq<(i64, i64)>, p: Seq<(i64, i64)>, t: int, upto: int)
    requires
        0 <= upto <= p.len() <= a.len(),
        forall|i: int| 0 <= i < p.len() ==> p[i] == a[i],
    ensures
        cost_at(a, t, upto) == cost_at(p, t, upto),
    decreases upto,
{
    if upto > 0 {
        lemma_cost_at_prefix(a, p, t, upto - 1);
    }
}

/// The cost without the pair at `j` is the cost less what that pair costs.
proof fn lemma_cost_at_without(b: Seq<(i64, i64)>, j: int, t: int, upto: int)
    requires
        0 <= j < b.len(),
        0 <= upto <= b.len(),
    ensures
        cost_at(b, t, upto) == if upto <= j {
            cost_at(b.remove(j), t, upto)
        } else {
            cost_at(b.remove(j), t, upto - 1) + distance(b[j].0 as int, t) * b[j].1
        },
    decreases upto,
{
    if upto > 0 {
        lemma_cost_at_without(b, j, t, upto - 1);
        b.remove_ensures(j);
        if upto - 1 < j {
            assert(b.remove(j)[upto - 1] == b[upto - 1]);
        } else if upto - 1 > j {
            assert(b.remove(j)[upto - 2] == b[upto - 1]);
        }
    }
}

} // verus!
