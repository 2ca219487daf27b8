//! Problems solved by tabulating the answers to their subproblems.
use vstd::prelude::*;
use vstd::std_specs::cmp::PartialEqSpec;
use crate::numbers::{fits_i32, greater, lesser};
use crate::order::{above, order_known};

verus! {

/// The best total for the first `k` pins of a row. A pin may be left
/// standing; knocked over alone, which scores its number; or knocked over
/// together with the pin before it, which scores the product of the two.
pub open spec fn best_score(pins: Seq<i32>, k: int) -> int
    decreases k,
{
    if k <= 0 {
        0
    } else {
        let left = best_score(pins, k - 1);
        let alone = best_score(pins, k - 1) + pins[k - 1];
        let paired = if k >= 2 {
            best_score(pins, k - 2) + pins[k - 2] * pins[k - 1]
        } else {
            0
        };
        if left >= alone && left >= paired {
            left
        } else if alone >= paired {
            alone
        } else {
            paired
        }
    }
}

/// Every sum and product that the tabulation of `best_score` forms is a
/// value of `i32`.
pub open spec fn bowling_fits(pins: Seq<i32>) -> bool {
    forall|k: int|
        1 <= k <= pins.len() ==> {
            &&& fits_i32(#[trigger] best_score(pins, k - 1) + pins[k - 1])
            &&& k >= 2 ==> fits_i32(pins[k - 2] * pins[k - 1]) && fits_i32(
                best_score(pins, k - 2) + pins[k - 2] * pins[k - 1],
            )
        }
}

/// What may be done with the last pins of a row.
pub enum Throw {
    /// The last pin is left standing.
    Leave,
    /// The last pin is knocked over alone.
    Alone,
    /// The last two pins are knocked over together.
    Pair,
}

/// The number of pins that a throw is about.
pub open spec fn pins_of(t: Throw) -> int {
    match t {
        Throw::Pair => 2,
        _ => 1,
    }
}

/// `throws`, the last of them first, deal with the first `k` pins, each pin
/// once.
pub open spec fn plays_row(throws: Seq<Throw>, k: int) -> bool
    decreases throws.len(),
{
    if throws.len() == 0 {
        k == 0
    } else {
        pins_of(throws[0]) <= k && plays_row(throws.skip(1), k - pins_of(throws[0]))
    }
}

/// What `throws`, the last of them first, score on the first `k` pins.
pub open spec fn play_score(pins: Seq<i32>, throws: Seq<Throw>, k: int) -> int
    decreases throws.len(),
{
    if throws.len() == 0 {
        0
    } else {
        play_score(pins, throws.skip(1), k - pins_of(throws[0])) + match throws[0] {
            Throw::Leave => 0,
            Throw::Alone => pins[k - 1] as int,
            Throw::Pair => pins[k - 2] * pins[k - 1],
        }
    }
}

/// No way to play the first `k` pins scores more than the best total.
pub proof fn lemma_best_score_is_best(pins: Seq<i32>, throws: Seq<Throw>, k: int)
    requires
        plays_row(throws, k),
    ensures
        play_score(pins, throws, k) <= best_score(pins, k),
    decreases throws.len(),
{
    if throws.len() > 0 {
        lemma_best_score_is_best(pins, throws.skip(1), k - pins_of(throws[0]));
    }
}

/// A way to play the first `k` pins that scores the best total.
pub proof fn lemma_best_score_play(pins: Seq<i32>, k: int) -> (throws: Seq<Throw>)
    requires
        0 <= k,
    ensures
        plays_row(throws, k),
        play_score(pins, throws, k) == best_score(pins, k),
    decreases k,
{
    if k == 0 {
        Seq::empty()
    } else {
        let left = best_score(pins, k - 1);
        let alone = best_score(pins, k - 1) + pins[k - 1];
        let paired = if k >= 2 {
            best_score(pins, k - 2) + pins[k - 2] * pins[k - 1]
        } else {
            0
        };
        if left >= alone && left >= paired {
            let rest = lemma_best_score_play(pins, k - 1);
            let throws = seq![Throw::Leave] + rest;
            assert(throws.skip(1) =~= rest);
            throws
        } else if alone >= paired {
            let rest = lemma_best_score_play(pins, k - 1);
            let throws = seq![Throw::Alone] + rest;
            assert(throws.skip(1) =~= rest);
            throws
        } else {
            let rest = lemma_best_score_play(pins, k - 2);
            let throws = seq![Throw::Pair] + rest;
            assert(throws.skip(1) =~= rest);
            throws
        }
    }
}

/// The best total for a row of pins: some way to play the row scores it, and
/// none scores more.
pub fn bowling(pins: &[i32]) -> (r: i32)
    requires
        bowling_fits(pins@),
    ensures
        r == best_score(pins@, pins@.len() as int),
        exists|throws: Seq<Throw>|
            #[trigger] plays_row(throws, pins@.len() as int) && play_score(
                pins@,
                throws,
                pins@.len() as int,
            ) == r,
        forall|throws: Seq<Throw>|
            #[trigger] plays_row(throws, pins@.len() as int) ==> play_score(
                pins@,
                throws,
                pins@.len() as int,
            ) <= r,
{
    proof {
        let n = pins@.len() as int;
        let best = lemma_best_score_play(pins@, n);
        assert(plays_row(best, n) && play_score(pins@, best, n) == best_score(pins@, n));
        assert forall|throws: Seq<Throw>| #[trigger] plays_row(throws, n) implies play_score(
            pins@,
            throws,
            n,
        ) <= best_score(pins@, n) by {
            lemma_best_score_is_best(pins@, throws, n);
        }
    }
    let mut max: i32 = 0;
    let mut previous0: i32 = 0;
    let mut previous1: i32 = 0;
    let mut previous_weight: i32 = 0;
    let mut k: usize = 0;
    while k < pins.len()
        invariant
            k <= pins.len(),
            bowling_fits(pins@),
            max == best_score(pins@, k as int),
            previous1 == max,
            previous0 == best_score(pins@, k - 1),
            previous_weight == if k == 0 {
                0
            } else {
                pins@[k - 1]
            },
        decreases pins.len() - k,
    {
        let w = pins[k];
        proof {
            let _ = best_score(pins@, k + 1 - 1);
            assert(fits_i32(best_score(pins@, k + 1 - 1) + pins@[k + 1 - 1]));
            if k == 0 {
                assert(previous_weight * w == 0) by (nonlinear_arith)
                    requires
                        previous_weight == 0,
                ;
            }
        }
        let paired = previous0 + previous_weight * w;
        let alone = previous1 + w;
        if paired > max {
            max = paired;
        }
        if alone > max {
            max = alone;
        }
        previous0 = previous1;
        previous1 = max;
        previous_weight = w;
        k += 1;
    }
    max
}

/// The best price for a rod of length `len`, where a piece of length `p`
/// sells for `values[p - 1]`: the best over the length of the first piece of
/// its price and the best price for the rest.
pub open spec fn best_price(values: Seq<u32>, len: int) -> int
    decreases len, len + 1,
{
    if len <= 0 {
        0
    } else {
        best_price_upto(values, len, len)
    }
}

/// The best price for a rod of length `len` whose first piece is no longer
/// than `k`.
pub open spec fn best_price_upto(values: Seq<u32>, len: int, k: int) -> int
    decreases len, k,
{
    if k <= 0 || k > len {
        0
    } else {
        let with_k = values[k - 1] + best_price(values, len - k);
        let shorter = best_price_upto(values, len, k - 1);
        if with_k >= shorter {
            with_k
        } else {
            shorter
        }
    }
}

/// Every sum that the tabulation of `best_price` forms is a value of `u32`.
pub open spec fn rod_fits(values: Seq<u32>) -> bool {
    forall|len: int, k: int|
        1 <= k <= len <= values.len() ==> values[k - 1] + #[trigger] best_price(values, len - k)
            <= u32::MAX
}

/// The lengths of `cut` are lengths that sell, and add up to `len`.
pub open spec fn cuts_rod(values: Seq<u32>, cut: Seq<int>, len: int) -> bool
    decreases cut.len(),
{
    if cut.len() == 0 {
        len == 0
    } else {
        1 <= cut[0] <= values.len() && cut[0] <= len && cuts_rod(values, cut.skip(1), len - cut[0])
    }
}

/// What the pieces of `cut` sell for together.
pub open spec fn cut_price(values: Seq<u32>, cut: Seq<int>) -> int
    decreases cut.len(),
{
    if cut.len() == 0 {
        0
    } else {
        values[cut[0] - 1] + cut_price(values, cut.skip(1))
    }
}

/// The best price with a first piece no longer than `k` is no less than
/// the price with any such first piece.
proof fn lemma_best_price_upto(values: Seq<u32>, len: int, k: int, p: int)
    requires
        1 <= p <= k <= len,
    ensures
        values[p - 1] + best_price(values, len - p) <= best_price_upto(values, len, k),
    decreases k,
{
    if p < k {
        lemma_best_price_upto(values, len, k - 1, p);
    }
}

/// The best price is not negative.
proof fn lemma_best_price_positive(values: Seq<u32>, len: int)
    ensures
        best_price(values, len) >= 0,
    decreases len, len + 1,
{
    if len > 0 {
        lemma_best_price_upto_positive(values, len, len);
    }
}

/// The best price with a first piece no longer than `k` is not negative.
proof fn lemma_best_price_upto_positive(values: Seq<u32>, len: int, k: int)
    ensures
        best_price_upto(values, len, k) >= 0,
    decreases len, k,
{
    if 0 < k <= len {
        lemma_best_price_positive(values, len - k);
        lemma_best_price_upto_positive(values, len, k - 1);
    }
}

/// No way to cut the rod sells for more than the best price.
pub proof fn lemma_best_price_is_best(values: Seq<u32>, cut: Seq<int>, len: int)
    requires
        0 <= len <= values.len(),
        cuts_rod(values, cut, len),
    ensures
        cut_price(values, cut) <= best_price(values, len),
    decreases cut.len(),
{
    if cut.len() > 0 {
        lemma_best_price_is_best(values, cut.skip(1), len - cut[0]);
        lemma_best_price_upto(values, len, len, cut[0]);
    }
}

/// A way to cut the rod that sells for the best price.
pub proof fn lemma_best_price_cut(values: Seq<u32>, len: int) -> (cut: Seq<int>)
    requires
        0 <= len <= values.len(),
    ensures
        cuts_rod(values, cut, len),
        cut_price(values, cut) == best_price(values, len),
    decreases len, len + 1,
{
    if len == 0 {
        Seq::empty()
    } else {
        lemma_best_piece(values, len, len)
    }
}

/// A way to cut the rod, with a first piece no longer than `k`, that sells
/// for the best price among those.
proof fn lemma_best_piece(values: Seq<u32>, len: int, k: int) -> (cut: Seq<int>)
    requires
        1 <= k <= len <= values.len(),
    ensures
        cuts_rod(values, cut, len),
        cut_price(values, cut) == best_price_upto(values, len, k),
    decreases len, k,
{
    let with_k = values[k - 1] + best_price(values, len - k);
    if k == 1 || with_k >= best_price_upto(values, len, k - 1) {
        let rest = lemma_best_price_cut(values, len - k);
        let cut = seq![k] + rest;
        assert(cut.skip(1) =~= rest);
        lemma_best_price_positive(values, len - k);
        if k == 1 {
            assert(best_price_upto(values, len, 0) == 0);
        }
        cut
    } else {
        lemma_best_piece(values, len, k - 1)
    }
}

/// The best price for a rod as long as `values`, where a piece of length
/// `p` sells for `values[p - 1]`: some way to cut the rod sells for it, and
/// none for more.
pub fn rod(values: &[u32]) -> (r: u32)
    requires
        rod_fits(values@),
    ensures
        r == best_price(values@, values@.len() as int),
        exists|cut: Seq<int>|
            #[trigger] cuts_rod(values@, cut, values@.len() as int) && cut_price(values@, cut)
                == r,
        forall|cut: Seq<int>|
            #[trigger] cuts_rod(values@, cut, values@.len() as int) ==> cut_price(values@, cut)
                <= r,
{
    proof {
        let n = values@.len() as int;
        let best = lemma_best_price_cut(values@, n);
        assert(cuts_rod(values@, best, n) && cut_price(values@, best) == best_price(values@, n));
        assert forall|cut: Seq<int>| #[trigger] cuts_rod(values@, cut, n) implies cut_price(
            values@,
            cut,
        ) <= best_price(values@, n) by {
            lemma_best_price_is_best(values@, cut, n);
        }
    }
    let mut dp: Vec<u32> = Vec::new();
    dp.push(0);
    let mut l: usize = 0;
    while l < values.len()
        invariant
            l <= values.len(),
            rod_fits(values@),
            dp@.len() == l + 1,
            forall|i: int| 0 <= i <= l ==> dp@[i] == best_price(values@, i),
        decreases values.len() - l,
    {
        let mut m: u32 = 0;
        let mut p: usize = 0;
        while p <= l
            invariant
                l < values.len(),
                p <= l + 1,
                rod_fits(values@),
                dp@.len() == l + 1,
                forall|i: int| 0 <= i <= l ==> dp@[i] == best_price(values@, i),
                m == best_price_upto(values@, l + 1, p as int),
            decreases l + 1 - p,
        {
            proof {
                let _ = best_price(values@, l + 1 - (p + 1));
                assert(values@[p + 1 - 1] + best_price(values@, l + 1 - (p + 1)) <= u32::MAX);
            }
            let c = values[p] + dp[l - p];
            if c > m {
                m = c;
            }
            p += 1;
        }
        dp.push(m);
        l += 1;
    }
    dp[values.len()]
}

/// Some of the first `n` numbers of `values` add up to `t`.
pub open spec fn adds_up(values: Seq<usize>, n: int, t: int) -> bool
    decreases n,
{
    if n <= 0 {
        t == 0
    } else {
        adds_up(values, n - 1, t) || (values[n - 1] <= t && adds_up(
            values,
            n - 1,
            t - values[n - 1],
        ))
    }
}

/// The sum of those among the first `n` numbers of `values` that `picks`
/// marks.
pub open spec fn picked_sum(values: Seq<usize>, picks: Seq<bool>, n: int) -> int
    decreases n,
{
    if n <= 0 {
        0
    } else {
        picked_sum(values, picks, n - 1) + if picks[n - 1] {
            values[n - 1] as int
        } else {
            0
        }
    }
}

/// Whatever is picked among the first `n` numbers adds up to its sum.
pub proof fn lemma_picked_adds_up(values: Seq<usize>, picks: Seq<bool>, n: int)
    requires
        0 <= n,
    ensures
        adds_up(values, n, picked_sum(values, picks, n)),
        picked_sum(values, picks, n) >= 0,
    decreases n,
{
    if n > 0 {
        lemma_picked_adds_up(values, picks, n - 1);
    }
}

/// Where some of the first `n` numbers add up to `t`, there is a choice of
/// them whose sum is `t`.
pub proof fn lemma_adds_up_picks(values: Seq<usize>, n: int, t: int) -> (picks: Seq<bool>)
    requires
        0 <= n,
        adds_up(values, n, t),
    ensures
        picks.len() == n,
        picked_sum(values, picks, n) == t,
    decreases n,
{
    if n == 0 {
        Seq::empty()
    } else if adds_up(values, n - 1, t) {
        let before = lemma_adds_up_picks(values, n - 1, t);
        lemma_picked_same(values, before, before.push(false), n - 1);
        before.push(false)
    } else {
        let before = lemma_adds_up_picks(values, n - 1, t - values[n - 1]);
        lemma_picked_same(values, before, before.push(true), n - 1);
        before.push(true)
    }
}

/// The sum of what is picked among the first `n` numbers looks at the first
/// `n` marks only.
proof fn lemma_picked_same(values: Seq<usize>, p: Seq<bool>, q: Seq<bool>, n: int)
    requires
        0 <= n <= p.len(),
        n <= q.len(),
        forall|i: int| 0 <= i < n ==> p[i] == q[i],
    ensures
        picked_sum(values, p, n) == picked_sum(values, q, n),
    decreases n,
{
    if n > 0 {
        lemma_picked_same(values, p, q, n - 1);
    }
}

/// Whether some of the numbers of `values`, each taken at most once, add up
/// to `sum`.
pub fn subset_sum(sum: usize, values: &[usize]) -> (r: bool)
    requires
        sum < usize::MAX,
        values@.len() < usize::MAX,
    ensures
        r == adds_up(values@, values@.len() as int, sum as int),
        r <==> exists|picks: Seq<bool>|
            picks.len() == values@.len() && #[trigger] picked_sum(
                values@,
                picks,
                values@.len() as int,
            ) == sum,
{
    proof {
        let n = values@.len() as int;
        if adds_up(values@, n, sum as int) {
            let picks = lemma_adds_up_picks(values@, n, sum as int);
            assert(picks.len() == n && picked_sum(values@, picks, n) == sum);
        }
        assert forall|picks: Seq<bool>|
            picks.len() == n && #[trigger] picked_sum(values@, picks, n) == sum implies adds_up(
            values@,
            n,
            sum as int,
        ) by {
            lemma_picked_adds_up(values@, picks, n);
        }
    }
    let n = values.len();
    let mut dp: Vec<Vec<bool>> = Vec::new();
    let mut first: Vec<bool> = Vec::new();
    let mut t: usize = 0;
    while t <= sum
        invariant
            sum < usize::MAX,
            t <= sum + 1,
            first@.len() == t,
            forall|j: int| 0 <= j < t ==> first@[j] == (j == 0),
        decreases sum + 1 - t,
    {
        first.push(t == 0);
        t += 1;
    }
    dp.push(first);
    let mut i: usize = 0;
    while i < n
        invariant
            n == values@.len(),
            sum < usize::MAX,
            i <= n,
            dp@.len() == i + 1,
            forall|a: int| 0 <= a <= i ==> (#[trigger] dp@[a])@.len() == sum + 1,
            forall|a: int, j: int|
                0 <= a <= i && 0 <= j <= sum ==> dp@[a]@[j] == adds_up(values@, a, j),
        decreases n - i,
    {
        let v = values[i];
        let mut row: Vec<bool> = Vec::new();
        let mut t: usize = 0;
        while t <= sum
            invariant
                n == values@.len(),
                sum < usize::MAX,
                i < n,
                v == values@[i as int],
                t <= sum + 1,
                dp@.len() == i + 1,
                dp@[i as int]@.len() == sum + 1,
                forall|j: int| 0 <= j <= sum ==> dp@[i as int]@[j] == adds_up(values@, i as int, j),
                row@.len() == t,
                forall|j: int| 0 <= j < t ==> row@[j] == adds_up(values@, i + 1, j),
            decreases sum + 1 - t,
        {
            let x = dp[i][t] || (v <= t && dp[i][t - v]);
            proof {
                assert(dp@[i as int]@[t as int] == adds_up(values@, i as int, t as int));
                if v <= t {
                    assert(dp@[i as int]@[t - v] == adds_up(values@, i as int, t - v));
                }
                assert(x == adds_up(values@, i + 1, t as int));
            }
            row.push(x);
            t += 1;
        }
        dp.push(row);
        i += 1;
    }
    dp[n][sum]
}

/// The sum of the coins at the places from `i` to `j`, both included.
pub open spec fn coins_sum(coins: Seq<u32>, i: int, j: int) -> int
    recommends
        0 <= i,
        j < coins.len(),
    decreases j - i + 1,
{
    if j < i {
        0
    } else {
        coins_sum(coins, i, j - 1) + coins[j]
    }
}

/// What the player to move collects from the coins at the places from `i`
/// to `j`, when the players in turn take a coin from either end and each
/// plays for the greatest total.
pub open spec fn mover_gets(coins: Seq<u32>, i: int, j: int) -> int
    decreases j - i, 1int,
{
    if j < i {
        0
    } else if j == i {
        coins[i] as int
    } else {
        let front = other_gets(coins, i + 1, j) + coins[i];
        let back = other_gets(coins, i, j - 1) + coins[j];
        if front >= back {
            front
        } else {
            back
        }
    }
}

/// What the player who waits collects from the coins at the places from
/// `i` to `j`.
pub open spec fn other_gets(coins: Seq<u32>, i: int, j: int) -> int
    decreases j - i, 0int,
{
    if j <= i {
        0
    } else {
        let front = mover_gets(coins, i + 1, j);
        let back = mover_gets(coins, i, j - 1);
        if front <= back {
            front
        } else {
            back
        }
    }
}

/// The two players share the coins between them.
pub proof fn lemma_players_share(coins: Seq<u32>, i: int, j: int)
    requires
        0 <= i,
        j < coins.len(),
    ensures
        mover_gets(coins, i, j) + other_gets(coins, i, j) == coins_sum(coins, i, j),
        0 <= other_gets(coins, i, j),
        0 <= mover_gets(coins, i, j),
    decreases j - i,
{
    if j < i {
    } else if j == i {
        assert(coins_sum(coins, i, j - 1) == 0);
    } else {
        lemma_players_share(coins, i + 1, j);
        lemma_players_share(coins, i, j - 1);
        lemma_sum_from_front(coins, i, j);
    }
}

/// The sum of a run of coins is its first coin and the sum of the rest.
proof fn lemma_sum_from_front(coins: Seq<u32>, i: int, j: int)
    requires
        i <= j,
    ensures
        coins_sum(coins, i, j) == coins[i] + coins_sum(coins, i + 1, j),
    decreases j - i,
{
    if i < j {
        lemma_sum_from_front(coins, i, j - 1);
    } else {
        assert(coins_sum(coins, i, j - 1) == 0);
        assert(coins_sum(coins, i + 1, j) == 0);
    }
}

/// A run of coins never sums to less than a shorter run inside it.
proof fn lemma_sum_grows(coins: Seq<u32>, i: int, j: int)
    requires
        i <= j,
    ensures
        coins_sum(coins, i, j) >= coins_sum(coins, i + 1, j),
        coins_sum(coins, i, j) >= coins_sum(coins, i, j - 1),
        coins_sum(coins, i, j - 1) >= 0,
    decreases j - i,
{
    lemma_sum_from_front(coins, i, j);
    if i < j {
        lemma_sum_grows(coins, i, j - 1);
    }
}

/// One player's take in the game of taking a coin from either end.
#[derive(Debug, Default, Clone, Copy)]
struct Pick {
    me: u32,
    you: u32,
}

/// What the first player collects from a row of coins when two players in
/// turn take a coin from either end and each plays for the greatest total.
/// The row must not be empty, and its sum must be a value of `u32`.
pub fn coins(row: &[u32]) -> (r: u32)
    requires
        row@.len() > 0,
        coins_sum(row@, 0, row@.len() - 1) <= u32::MAX,
    ensures
        r == mover_gets(row@, 0, row@.len() - 1),
{
    let n = row.len();
    let mut dp: Vec<Vec<Pick>> = Vec::new();
    let mut a: usize = 0;
    while a < n
        invariant
            n == row@.len(),
            a <= n,
            dp@.len() == a,
            forall|i: int| 0 <= i < a ==> (#[trigger] dp@[i])@.len() == n,
            forall|i: int| 0 <= i < a ==> dp@[i]@[i].me == row@[i] && dp@[i]@[i].you == 0,
        decreases n - a,
    {
        let mut picks: Vec<Pick> = Vec::new();
        let mut b: usize = 0;
        while b < n
            invariant
                n == row@.len(),
                a < n,
                b <= n,
                picks@.len() == b,
                forall|j: int| 0 <= j < b && j == a ==> picks@[j].me == row@[j] && picks@[j].you == 0,
            decreases n - b,
        {
            if b == a {
                picks.push(Pick { me: row[a], you: 0 });
            } else {
                picks.push(Pick { me: 0, you: 0 });
            }
            b += 1;
        }
        assert(picks@[a as int].me == row@[a as int] && picks@[a as int].you == 0);
        dp.push(picks);
        a += 1;
    }
    let mut p: usize = 0;
    while p < n
        invariant
            n == row@.len(),
            n > 0,
            p <= n,
            coins_sum(row@, 0, n - 1) <= u32::MAX,
            dp@.len() == n,
            forall|i: int| 0 <= i < n ==> (#[trigger] dp@[i])@.len() == n,
            forall|i: int, j: int|
                0 <= i <= j < n && j - i <= p ==> dp@[i]@[j].me == mover_gets(row@, i, j)
                    && dp@[i]@[j].you == other_gets(row@, i, j),
        decreases n - p,
    {
        let mut i: usize = 0;
        while i < n
            invariant
                n == row@.len(),
                n > 0,
                p < n,
                i <= n,
                coins_sum(row@, 0, n - 1) <= u32::MAX,
                dp@.len() == n,
                forall|i: int| 0 <= i < n ==> (#[trigger] dp@[i])@.len() == n,
                forall|a: int, b: int|
                    0 <= a <= b < n && (b - a <= p || (b - a == p + 1 && a < i)) ==> dp@[a]@[b].me
                        == mover_gets(row@, a, b) && dp@[a]@[b].you == other_gets(row@, a, b),
            decreases n - i,
        {
            if p + 1 < n - i {
                let j = i + p + 1;
                proof {
                    lemma_players_share(row@, i as int, j as int);
                    lemma_players_share(row@, i + 1, j as int);
                    lemma_players_share(row@, i as int, j - 1);
                    lemma_sum_within(row@, i as int, j as int);
                    assert(dp@[i + 1]@[j as int].you == other_gets(row@, i + 1, j as int));
                    assert(dp@[i as int]@[j - 1].you == other_gets(row@, i as int, j - 1));
                    assert(dp@[i + 1]@[j as int].me == mover_gets(row@, i + 1, j as int));
                    assert(dp@[i as int]@[j - 1].me == mover_gets(row@, i as int, j - 1));
                }
                let front = dp[i + 1][j].you + row[i];
                let back = dp[i][j - 1].you + row[j];
                let me = if front >= back {
                    front
                } else {
                    back
                };
                let front_left = dp[i + 1][j].me;
                let back_left = dp[i][j - 1].me;
                let you = if front_left <= back_left {
                    front_left
                } else {
                    back_left
                };
                let ghost before = dp@;
                dp[i][j] = Pick { me, you };
                proof {
                    assert forall|a: int, b: int|
                        0 <= a <= b < n && (b - a <= p || (b - a == p + 1 && a < i + 1)) implies dp@[a]@[b].me
                        == mover_gets(row@, a, b) && dp@[a]@[b].you == other_gets(
                        row@,
                        a,
                        b,
                    ) by {
                        if a == i && b == j {
                        } else {
                            assert(dp@[a]@[b] == before[a]@[b]);
                        }
                    }
                }
            }
            i += 1;
        }
        p += 1;
    }
    dp[0][n - 1].me
}

/// A run of coins inside the row sums to no more than the row.
proof fn lemma_sum_within(coins: Seq<u32>, i: int, j: int)
    requires
        0 <= i <= j < coins.len(),
    ensures
        0 <= coins_sum(coins, i, j) <= coins_sum(coins, 0, coins.len() - 1),
    decreases i + (coins.len() - 1 - j),
{
    lemma_sum_grows(coins, i, j);
    if i > 0 {
        lemma_sum_within(coins, i - 1, j);
        lemma_sum_grows(coins, i - 1, j);
    } else if j < coins.len() - 1 {
        lemma_sum_within(coins, i, j + 1);
        lemma_sum_grows(coins, i, j + 1);
    }
}

/// `==` on `T` computes what its specification says, and that is equality
/// of values.
pub open spec fn plain_eq<T: PartialEq>() -> bool {
    &&& T::obeys_eq_spec()
    &&& forall|x: T, y: T| #[trigger] x.eq_spec(&y) <==> x == y
}

/// The length of the longest sequence that is a subsequence both of `b`
/// from place `i` on and of `a` from place `j` on.
pub open spec fn lcs_len<T>(a: Seq<T>, b: Seq<T>, i: int, j: int) -> nat
    decreases b.len() - i + a.len() - j,
{
    if i < 0 || j < 0 || i >= b.len() || j >= a.len() {
        0
    } else if b[i] == a[j] {
        lcs_len(a, b, i + 1, j + 1) + 1
    } else if lcs_len(a, b, i + 1, j) >= lcs_len(a, b, i, j + 1) {
        lcs_len(a, b, i + 1, j)
    } else {
        lcs_len(a, b, i, j + 1)
    }
}

/// A longest common subsequence of `b` from place `i` on and `a` from place
/// `j` on: where the two heads are equal, that head and the answer for the
/// two rests; otherwise the answer without the head of `b` if that one is
/// strictly longer, else the answer without the head of `a`.
pub open spec fn lcs_from<T>(a: Seq<T>, b: Seq<T>, i: int, j: int) -> Seq<T>
    decreases b.len() - i + a.len() - j,
{
    if i < 0 || j < 0 || i >= b.len() || j >= a.len() {
        Seq::empty()
    } else if b[i] == a[j] {
        seq![b[i]] + lcs_from(a, b, i + 1, j + 1)
    } else if lcs_len(a, b, i + 1, j) > lcs_len(a, b, i, j + 1) {
        lcs_from(a, b, i + 1, j)
    } else {
        lcs_from(a, b, i, j + 1)
    }
}

/// `lcs_from` has the length that `lcs_len` gives.
pub proof fn lemma_lcs_from_len<T>(a: Seq<T>, b: Seq<T>, i: int, j: int)
    ensures
        lcs_from(a, b, i, j).len() == lcs_len(a, b, i, j),
    decreases b.len() - i + a.len() - j,
{
    if i < 0 || j < 0 || i >= b.len() || j >= a.len() {
    } else if b[i] == a[j] {
        lemma_lcs_from_len(a, b, i + 1, j + 1);
    } else {
        lemma_lcs_from_len(a, b, i + 1, j);
        lemma_lcs_from_len(a, b, i, j + 1);
    }
}

/// `s` can be had from `t` by leaving elements out.
pub open spec fn is_subsequence<T>(s: Seq<T>, t: Seq<T>) -> bool
    decreases t.len(),
{
    if s.len() == 0 {
        true
    } else if t.len() == 0 {
        false
    } else if s[0] == t[0] {
        is_subsequence(s.skip(1), t.skip(1)) || is_subsequence(s, t.skip(1))
    } else {
        is_subsequence(s, t.skip(1))
    }
}

/// A subsequence without its first element is a subsequence still.
proof fn lemma_subsequence_tail<T>(s: Seq<T>, t: Seq<T>)
    requires
        is_subsequence(s, t),
        s.len() > 0,
    ensures
        is_subsequence(s.skip(1), t),
    decreases t.len(),
{
    if t.len() > 0 {
        let s1 = s.skip(1);
        if s[0] == t[0] && is_subsequence(s1, t.skip(1)) {
            lemma_subsequence_grows(s1, t);
        } else {
            lemma_subsequence_tail(s, t.skip(1));
            lemma_subsequence_grows(s1, t);
        }
    }
}

/// A subsequence of a sequence without its first element is a subsequence
/// of the sequence.
proof fn lemma_subsequence_grows<T>(s: Seq<T>, t: Seq<T>)
    requires
        t.len() > 0,
        is_subsequence(s, t.skip(1)),
    ensures
        is_subsequence(s, t),
{
}

/// Of a subsequence and its sequence, both with an element: the one without
/// its first element is a subsequence of the other without its first.
proof fn lemma_subsequence_tails<T>(s: Seq<T>, t: Seq<T>)
    requires
        is_subsequence(s, t),
        s.len() > 0,
    ensures
        t.len() > 0,
        is_subsequence(s.skip(1), t.skip(1)),
{
    if !(s[0] == t[0] && is_subsequence(s.skip(1), t.skip(1))) {
        lemma_subsequence_tail(s, t.skip(1));
    }
}

/// What `lcs_from` gives is a subsequence of both sequences.
pub proof fn lemma_lcs_is_common<T>(a: Seq<T>, b: Seq<T>, i: int, j: int)
    requires
        0 <= i <= b.len(),
        0 <= j <= a.len(),
    ensures
        is_subsequence(lcs_from(a, b, i, j), b.skip(i)),
        is_subsequence(lcs_from(a, b, i, j), a.skip(j)),
    decreases b.len() - i + a.len() - j,
{
    if i >= b.len() || j >= a.len() {
    } else {
        assert(b.skip(i).skip(1) =~= b.skip(i + 1));
        assert(a.skip(j).skip(1) =~= a.skip(j + 1));
        if b[i] == a[j] {
            lemma_lcs_is_common(a, b, i + 1, j + 1);
            let r = seq![b[i]] + lcs_from(a, b, i + 1, j + 1);
            assert(r.skip(1) =~= lcs_from(a, b, i + 1, j + 1));
        } else if lcs_len(a, b, i + 1, j) > lcs_len(a, b, i, j + 1) {
            lemma_lcs_is_common(a, b, i + 1, j);
            lemma_subsequence_grows(lcs_from(a, b, i + 1, j), b.skip(i));
        } else {
            lemma_lcs_is_common(a, b, i, j + 1);
            lemma_subsequence_grows(lcs_from(a, b, i, j + 1), a.skip(j));
        }
    }
}

/// No common subsequence is longer than `lcs_len`.
pub proof fn lemma_lcs_is_longest<T>(a: Seq<T>, b: Seq<T>, i: int, j: int, c: Seq<T>)
    requires
        0 <= i <= b.len(),
        0 <= j <= a.len(),
        is_subsequence(c, b.skip(i)),
        is_subsequence(c, a.skip(j)),
    ensures
        c.len() <= lcs_len(a, b, i, j),
    decreases b.len() - i + a.len() - j,
{
    if c.len() > 0 {
        let (bs, as_) = (b.skip(i), a.skip(j));
        lemma_subsequence_tails(c, bs);
        lemma_subsequence_tails(c, as_);
        assert(bs.skip(1) =~= b.skip(i + 1));
        assert(as_.skip(1) =~= a.skip(j + 1));
        if b[i] == a[j] {
            lemma_lcs_is_longest(a, b, i + 1, j + 1, c.skip(1));
        } else if c[0] != bs[0] {
            lemma_lcs_is_longest(a, b, i + 1, j, c);
        } else {
            lemma_lcs_is_longest(a, b, i, j + 1, c);
        }
    }
}

/// A longest common subsequence of `a` and `b`: a subsequence of both, and
/// as long as any. Of several, the one that `lcs_from` picks.
pub fn lcs<T>(a: &[T], b: &[T]) -> (r: Vec<T>) where T: Eq + Copy
    requires
        plain_eq::<T>(),
        a@.len() < usize::MAX,
        b@.len() < usize::MAX,
    ensures
        r@ == lcs_from(a@, b@, 0, 0),
        r@.len() == lcs_len(a@, b@, 0, 0),
        is_subsequence(r@, a@),
        is_subsequence(r@, b@),
        forall|c: Seq<T>|
            #[trigger] is_subsequence(c, a@) && is_subsequence(c, b@) ==> c.len() <= r@.len(),
{
    let mut lcs: Vec<T> = Vec::new();
    proof {
        lemma_lcs_from_len(a@, b@, 0, 0);
        lemma_lcs_is_common(a@, b@, 0, 0);
        assert(a@.skip(0) =~= a@);
        assert(b@.skip(0) =~= b@);
        assert forall|c: Seq<T>| #[trigger]
            is_subsequence(c, a@) && is_subsequence(c, b@) implies c.len() <= lcs_len(
            a@,
            b@,
            0,
            0,
        ) by {
            lemma_lcs_is_longest(a@, b@, 0, 0, c);
        }
    }
    if a.len() == 0 || b.len() == 0 {
        return lcs;
    }
    let (la, lb) = (a.len(), b.len());
    let mut dp: Vec<Vec<usize>> = vec![vec![0usize; la + 1]; lb + 1];
    let mut i: usize = lb;
    while i > 0
        invariant
            plain_eq::<T>(),
            la == a@.len(),
            lb == b@.len(),
            la < usize::MAX,
            i <= lb,
            dp@.len() == lb + 1,
            forall|x: int| 0 <= x <= lb ==> (#[trigger] dp@[x])@.len() == la + 1,
            forall|x: int, y: int|
                i <= x <= lb && 0 <= y <= la ==> dp@[x]@[y] == lcs_len(a@, b@, x, y),
            forall|y: int| 0 <= y <= la ==> dp@[lb as int]@[y] == 0,
            forall|x: int| 0 <= x <= lb ==> dp@[x]@[la as int] == 0,
        decreases i,
    {
        i -= 1;
        let mut j: usize = la;
        while j > 0
            invariant
                plain_eq::<T>(),
                la == a@.len(),
                lb == b@.len(),
                la < usize::MAX,
                i < lb,
                j <= la,
                dp@.len() == lb + 1,
                forall|x: int| 0 <= x <= lb ==> (#[trigger] dp@[x])@.len() == la + 1,
                forall|x: int, y: int|
                    i < x <= lb && 0 <= y <= la ==> dp@[x]@[y] == lcs_len(a@, b@, x, y),
                forall|y: int| j <= y <= la ==> dp@[i as int]@[y] == lcs_len(a@, b@, i as int, y),
                forall|y: int| 0 <= y <= la ==> dp@[lb as int]@[y] == 0,
                forall|x: int| 0 <= x <= lb ==> dp@[x]@[la as int] == 0,
            decreases j,
        {
            j -= 1;
            let ghost before = dp@;
            proof {
                assert(dp@[i + 1]@[j + 1] == lcs_len(a@, b@, i + 1, j + 1));
                assert(dp@[i + 1]@[j as int] == lcs_len(a@, b@, i + 1, j as int));
                assert(dp@[i as int]@[j + 1] == lcs_len(a@, b@, i as int, j + 1));
                lemma_lcs_len_bound(a@, b@, i + 1, j + 1);
            }
            if b[i] == a[j] {
                dp[i][j] = dp[i + 1][j + 1] + 1;
            } else {
                let down = dp[i + 1][j];
                let right = dp[i][j + 1];
                dp[i][j] = if down >= right {
                    down
                } else {
                    right
                };
            }
            proof {
                assert forall|x: int, y: int| i < x <= lb && 0 <= y <= la implies dp@[x]@[y]
                    == lcs_len(a@, b@, x, y) by {
                    assert(dp@[x] == before[x]);
                }
                assert forall|x: int| 0 <= x <= lb implies dp@[x]@[la as int] == 0 by {
                    assert(before[x]@[la as int] == 0);
                }
            }
        }
    }
    let mut i: usize = 0;
    let mut j: usize = 0;
    while i < lb && j < la
        invariant
            plain_eq::<T>(),
            la == a@.len(),
            lb == b@.len(),
            i <= lb,
            j <= la,
            dp@.len() == lb + 1,
            forall|x: int| 0 <= x <= lb ==> (#[trigger] dp@[x])@.len() == la + 1,
            forall|x: int, y: int|
                0 <= x <= lb && 0 <= y <= la ==> dp@[x]@[y] == lcs_len(a@, b@, x, y),
            lcs@ + lcs_from(a@, b@, i as int, j as int) == lcs_from(a@, b@, 0, 0),
        decreases lb - i + la - j,
    {
        proof {
            assert(dp@[i + 1]@[j as int] == lcs_len(a@, b@, i + 1, j as int));
            assert(dp@[i as int]@[j + 1] == lcs_len(a@, b@, i as int, j + 1));
        }
        if b[i] == a[j] {
            proof {
                assert(lcs@.push(b@[i as int]) + lcs_from(a@, b@, i + 1, j + 1) =~= lcs@ + lcs_from(
                    a@,
                    b@,
                    i as int,
                    j as int,
                ));
            }
            lcs.push(b[i]);
            i += 1;
            j += 1;
        } else if dp[i + 1][j] > dp[i][j + 1] {
            i += 1;
        } else {
            j += 1;
        }
    }
    proof {
        assert(lcs@ + lcs_from(a@, b@, i as int, j as int) =~= lcs@);
    }
    lcs
}

/// A common subsequence is no longer than what is left of `a`.
proof fn lemma_lcs_len_bound<T>(a: Seq<T>, b: Seq<T>, i: int, j: int)
    requires
        0 <= j <= a.len(),
    ensures
        lcs_len(a, b, i, j) <= a.len() - j,
    decreases b.len() - i + a.len() - j,
{
    if i < 0 || j < 0 || i >= b.len() || j >= a.len() {
    } else {
        lemma_lcs_len_bound(a, b, i + 1, j + 1);
        lemma_lcs_len_bound(a, b, i + 1, j);
        lemma_lcs_len_bound(a, b, i, j + 1);
    }
}

/// An operation between two neighbouring numbers.
pub enum Term {
    Plus,
    Times,
}

/// What the operation makes of `a` and `b`.
pub open spec fn term_value(t: Term, a: int, b: int) -> int {
    match t {
        Term::Plus => a + b,
        Term::Times => a * b,
    }
}

/// The least of the four results of the operation at the split `s` on a
/// bound of the span from `i` to `s` and a bound of the span from `s + 1`
/// to `j`.
pub open spec fn least_at(nbs: Seq<i32>, ts: Seq<Term>, i: int, j: int, s: int) -> int
    recommends
        i <= s < j,
    decreases j - i, 0int,
    when i <= s < j
{
    lesser(
        lesser(
            term_value(ts[s], least(nbs, ts, i, s), least(nbs, ts, s + 1, j)),
            term_value(ts[s], least(nbs, ts, i, s), most(nbs, ts, s + 1, j)),
        ),
        lesser(
            term_value(ts[s], most(nbs, ts, i, s), least(nbs, ts, s + 1, j)),
            term_value(ts[s], most(nbs, ts, i, s), most(nbs, ts, s + 1, j)),
        ),
    )
}

/// The greatest of those four results.
pub open spec fn most_at(nbs: Seq<i32>, ts: Seq<Term>, i: int, j: int, s: int) -> int
    recommends
        i <= s < j,
    decreases j - i, 0int,
    when i <= s < j
{
    greater(
        greater(
            term_value(ts[s], least(nbs, ts, i, s), least(nbs, ts, s + 1, j)),
            term_value(ts[s], least(nbs, ts, i, s), most(nbs, ts, s + 1, j)),
        ),
        greater(
            term_value(ts[s], most(nbs, ts, i, s), least(nbs, ts, s + 1, j)),
            term_value(ts[s], most(nbs, ts, i, s), most(nbs, ts, s + 1, j)),
        ),
    )
}

/// The least of `least_at` over the splits from `i` up to, not including,
/// `k`; the greatest `i32` where there is no such split.
pub open spec fn least_upto(nbs: Seq<i32>, ts: Seq<Term>, i: int, j: int, k: int) -> int
    decreases j - i, 1 + k - i,
{
    if k <= i || k > j {
        i32::MAX as int
    } else {
        lesser(least_upto(nbs, ts, i, j, k - 1), least_at(nbs, ts, i, j, k - 1))
    }
}

/// The greatest of `most_at` over the splits from `i` up to, not including,
/// `k`; the least `i32` where there is no such split.
pub open spec fn most_upto(nbs: Seq<i32>, ts: Seq<Term>, i: int, j: int, k: int) -> int
    decreases j - i, 1 + k - i,
{
    if k <= i || k > j {
        i32::MIN as int
    } else {
        greater(most_upto(nbs, ts, i, j, k - 1), most_at(nbs, ts, i, j, k - 1))
    }
}

/// The lower bound that the tabulation keeps for the numbers from `i` to
/// `j` with the operations between them, bracketed in any way.
pub open spec fn least(nbs: Seq<i32>, ts: Seq<Term>, i: int, j: int) -> int
    decreases j - i, 2 + j - i,
{
    if j <= i {
        nbs[i] as int
    } else {
        least_upto(nbs, ts, i, j, j)
    }
}

/// The upper bound that the tabulation keeps for the numbers from `i` to
/// `j` with the operations between them, bracketed in any way.
pub open spec fn most(nbs: Seq<i32>, ts: Seq<Term>, i: int, j: int) -> int
    decreases j - i, 2 + j - i,
{
    if j <= i {
        nbs[i] as int
    } else {
        most_upto(nbs, ts, i, j, j)
    }
}

/// Every result that the tabulation forms is a value of `i32`.
pub open spec fn parens_fits(nbs: Seq<i32>, ts: Seq<Term>) -> bool {
    forall|i: int, j: int, s: int|
        0 <= i <= s < j < nbs.len() ==> {
            &&& fits_i32(
                #[trigger] term_value(ts[s], least(nbs, ts, i, s), least(nbs, ts, s + 1, j)),
            )
            &&& fits_i32(term_value(ts[s], least(nbs, ts, i, s), most(nbs, ts, s + 1, j)))
            &&& fits_i32(term_value(ts[s], most(nbs, ts, i, s), least(nbs, ts, s + 1, j)))
            &&& fits_i32(term_value(ts[s], most(nbs, ts, i, s), most(nbs, ts, s + 1, j)))
        }
}

/// What the operation makes of `a` and `b`.
fn calc(t: &Term, a: &i32, b: &i32) -> (r: i32)
    requires
        fits_i32(term_value(*t, *a as int, *b as int)),
    ensures
        r == term_value(*t, *a as int, *b as int),
{
    match t {
        Term::Plus => *a + *b,
        Term::Times => *a * *b,
    }
}

/// A way to bracket a span of the numbers: a number alone, or the operation
/// after the number at `split`, applied to a bracketing of the span up to
/// `split` and a bracketing of the span after it.
pub enum Bracketing {
    Number,
    Apply { split: int, left: Box<Bracketing>, right: Box<Bracketing> },
}

/// `b` brackets the span of the numbers from `i` to `j`.
pub open spec fn brackets(b: Bracketing, i: int, j: int) -> bool
    decreases b,
{
    match b {
        Bracketing::Number => i == j,
        Bracketing::Apply { split, left, right } => i <= split < j && brackets(*left, i, split)
            && brackets(*right, split + 1, j),
    }
}

/// The value of the span that begins at `i`, bracketed as `b` says.
pub open spec fn bracketed_value(nbs: Seq<i32>, ts: Seq<Term>, b: Bracketing, i: int) -> int
    decreases b,
{
    match b {
        Bracketing::Number => nbs[i] as int,
        Bracketing::Apply { split, left, right } => term_value(
            ts[split],
            bracketed_value(nbs, ts, *left, i),
            bracketed_value(nbs, ts, *right, split + 1),
        ),
    }
}

/// What an operation makes of two numbers within bounds lies between the
/// least and the greatest of what it makes of the bounds.
proof fn lemma_between_corners(t: Term, x: int, y: int, a: int, b: int, c: int, d: int)
    requires
        a <= x <= b,
        c <= y <= d,
    ensures
        lesser(
            lesser(term_value(t, a, c), term_value(t, a, d)),
            lesser(term_value(t, b, c), term_value(t, b, d)),
        ) <= term_value(t, x, y) <= greater(
            greater(term_value(t, a, c), term_value(t, a, d)),
            greater(term_value(t, b, c), term_value(t, b, d)),
        ),
{
    match t {
        Term::Plus => {},
        Term::Times => {
            assert(x * y <= a * y || x * y <= b * y) by (nonlinear_arith)
                requires
                    a <= x <= b,
            ;
            assert(x * y >= a * y || x * y >= b * y) by (nonlinear_arith)
                requires
                    a <= x <= b,
            ;
            assert((a * y <= a * c || a * y <= a * d) && (a * y >= a * c || a * y >= a * d))
                by (nonlinear_arith)
                requires
                    c <= y <= d,
            ;
            assert((b * y <= b * c || b * y <= b * d) && (b * y >= b * c || b * y >= b * d))
                by (nonlinear_arith)
                requires
                    c <= y <= d,
            ;
        },
    }
}

/// The bounds kept over the splits before `k` are bounds for every split
/// before `k`.
proof fn lemma_bounds_upto(nbs: Seq<i32>, ts: Seq<Term>, i: int, j: int, k: int, s: int)
    requires
        i <= s < k <= j,
    ensures
        least_upto(nbs, ts, i, j, k) <= least_at(nbs, ts, i, j, s),
        most_at(nbs, ts, i, j, s) <= most_upto(nbs, ts, i, j, k),
    decreases k - s,
{
    if s < k - 1 {
        lemma_bounds_upto(nbs, ts, i, j, k - 1, s);
    }
}

/// However a span is bracketed, its value lies between the bounds kept for
/// the span.
pub proof fn lemma_bracketing_within(
    nbs: Seq<i32>,
    ts: Seq<Term>,
    b: Bracketing,
    i: int,
    j: int,
)
    requires
        brackets(b, i, j),
    ensures
        i <= j,
        least(nbs, ts, i, j) <= bracketed_value(nbs, ts, b, i) <= most(nbs, ts, i, j),
    decreases b,
{
    match b {
        Bracketing::Number => {},
        Bracketing::Apply { split, left, right } => {
            lemma_bracketing_within(nbs, ts, *left, i, split);
            lemma_bracketing_within(nbs, ts, *right, split + 1, j);
            lemma_between_corners(
                ts[split],
                bracketed_value(nbs, ts, *left, i),
                bracketed_value(nbs, ts, *right, split + 1),
                least(nbs, ts, i, split),
                most(nbs, ts, i, split),
                least(nbs, ts, split + 1, j),
                most(nbs, ts, split + 1, j),
            );
            lemma_bounds_upto(nbs, ts, i, j, j, split);
        },
    }
}

/// A split before `k` at which the bounds kept over the splits before `k`
/// are met, where every result is a value of `i32`.
proof fn lemma_bounds_met(nbs: Seq<i32>, ts: Seq<Term>, i: int, j: int, k: int) -> (r: (int, int))
    requires
        0 <= i < k <= j < nbs.len(),
        parens_fits(nbs, ts),
    ensures
        i <= r.0 < k,
        i <= r.1 < k,
        least_upto(nbs, ts, i, j, k) == least_at(nbs, ts, i, j, r.0),
        most_upto(nbs, ts, i, j, k) == most_at(nbs, ts, i, j, r.1),
    decreases k - i,
{
    let s = k - 1;
    assert(fits_i32(term_value(ts[s], least(nbs, ts, i, s), least(nbs, ts, s + 1, j))));
    assert(fits_i32(least_at(nbs, ts, i, j, s)) && fits_i32(most_at(nbs, ts, i, j, s)));
    assert(least_upto(nbs, ts, i, j, k) == lesser(
        least_upto(nbs, ts, i, j, k - 1),
        least_at(nbs, ts, i, j, s),
    ));
    assert(most_upto(nbs, ts, i, j, k) == greater(
        most_upto(nbs, ts, i, j, k - 1),
        most_at(nbs, ts, i, j, s),
    ));
    if k == i + 1 {
        assert(least_upto(nbs, ts, i, j, i) == i32::MAX);
        assert(most_upto(nbs, ts, i, j, i) == i32::MIN);
        (s, s)
    } else {
        let r = lemma_bounds_met(nbs, ts, i, j, k - 1);
        (
            if least_at(nbs, ts, i, j, s) <= least_upto(nbs, ts, i, j, k - 1) {
                s
            } else {
                r.0
            },
            if most_at(nbs, ts, i, j, s) >= most_upto(nbs, ts, i, j, k - 1) {
                s
            } else {
                r.1
            },
        )
    }
}

/// Two ways to bracket a span whose values are the bounds kept for the
/// span, where every result is a value of `i32`.
pub proof fn lemma_bracketings_meet_bounds(nbs: Seq<i32>, ts: Seq<Term>, i: int, j: int) -> (r: (
    Bracketing,
    Bracketing,
))
    requires
        0 <= i <= j < nbs.len(),
        parens_fits(nbs, ts),
    ensures
        brackets(r.0, i, j),
        brackets(r.1, i, j),
        bracketed_value(nbs, ts, r.0, i) == least(nbs, ts, i, j),
        bracketed_value(nbs, ts, r.1, i) == most(nbs, ts, i, j),
    decreases j - i,
{
    if i == j {
        (Bracketing::Number, Bracketing::Number)
    } else {
        let at = lemma_bounds_met(nbs, ts, i, j, j);
        let low = lemma_corner(nbs, ts, i, j, at.0, true);
        let high = lemma_corner(nbs, ts, i, j, at.1, false);
        (low, high)
    }
}

/// A way to bracket a span, with its last operation at the split `s`, whose
/// value is the least, or the greatest, of the four results at that split.
proof fn lemma_corner(nbs: Seq<i32>, ts: Seq<Term>, i: int, j: int, s: int, low: bool) -> (b:
    Bracketing)
    requires
        0 <= i <= s < j < nbs.len(),
        parens_fits(nbs, ts),
    ensures
        brackets(b, i, j),
        bracketed_value(nbs, ts, b, i) == if low {
            least_at(nbs, ts, i, j, s)
        } else {
            most_at(nbs, ts, i, j, s)
        },
    decreases j - i, 0int,
{
    let l = lemma_bracketings_meet_bounds(nbs, ts, i, s);
    let r = lemma_bracketings_meet_bounds(nbs, ts, s + 1, j);
    let (a, b, c, d) = (
        least(nbs, ts, i, s),
        most(nbs, ts, i, s),
        least(nbs, ts, s + 1, j),
        most(nbs, ts, s + 1, j),
    );
    let t = ts[s];
    let goal = if low {
        least_at(nbs, ts, i, j, s)
    } else {
        most_at(nbs, ts, i, j, s)
    };
    let (left, right) = if goal == term_value(t, a, c) {
        (l.0, r.0)
    } else if goal == term_value(t, a, d) {
        (l.0, r.1)
    } else if goal == term_value(t, b, c) {
        (l.1, r.0)
    } else {
        (l.1, r.1)
    };
    Bracketing::Apply { split: s, left: Box::new(left), right: Box::new(right) }
}

/// The greatest value of `nbs[0] ts[0] nbs[1] ts[1] ..` over all ways to
/// bracket it: some bracketing has the value, and none a greater. For
/// every span of the numbers the least and the greatest result are kept,
/// taken over the splits of the span and the four pairings of the bounds
/// of its two parts. There must be a number, and an operation between each
/// two neighbours.
pub fn parens(nbs: &[i32], ts: &[Term]) -> (r: i32)
    requires
        nbs@.len() > 0,
        ts@.len() >= nbs@.len() - 1,
        parens_fits(nbs@, ts@),
    ensures
        r == most(nbs@, ts@, 0, nbs@.len() - 1),
        exists|b: Bracketing|
            #[trigger] brackets(b, 0, nbs@.len() - 1) && bracketed_value(nbs@, ts@, b, 0) == r,
        forall|b: Bracketing|
            #[trigger] brackets(b, 0, nbs@.len() - 1) ==> bracketed_value(nbs@, ts@, b, 0) <= r,
{
    proof {
        let last = nbs@.len() - 1;
        let both = lemma_bracketings_meet_bounds(nbs@, ts@, 0, last);
        assert(brackets(both.1, 0, last) && bracketed_value(nbs@, ts@, both.1, 0) == most(
            nbs@,
            ts@,
            0,
            last,
        ));
        assert forall|b: Bracketing| #[trigger] brackets(b, 0, last) implies bracketed_value(
            nbs@,
            ts@,
            b,
            0,
        ) <= most(nbs@, ts@, 0, last) by {
            lemma_bracketing_within(nbs@, ts@, b, 0, last);
        }
    }
    let n = nbs.len();
    let mut dp: Vec<Vec<(i32, i32)>> = vec![vec![(0i32, 0i32); n]; n];
    let mut ix: usize = 0;
    while ix < n
        invariant
            n == nbs@.len(),
            ix <= n,
            dp@.len() == n,
            forall|x: int| 0 <= x < n ==> (#[trigger] dp@[x])@.len() == n,
            forall|x: int| 0 <= x < ix ==> dp@[x]@[x] == (nbs@[x], nbs@[x]),
        decreases n - ix,
    {
        let ghost before = dp@;
        dp[ix][ix] = (nbs[ix], nbs[ix]);
        proof {
            assert forall|x: int| 0 <= x < ix implies dp@[x]@[x] == (nbs@[x], nbs@[x]) by {
                assert(dp@[x] == before[x]);
            }
        }
        ix += 1;
    }
    let mut j: usize = 1;
    while j < n
        invariant
            n == nbs@.len(),
            n > 0,
            ts@.len() >= n - 1,
            parens_fits(nbs@, ts@),
            1 <= j <= n,
            dp@.len() == n,
            forall|x: int| 0 <= x < n ==> (#[trigger] dp@[x])@.len() == n,
            forall|x: int, y: int|
                0 <= x <= y < n && y - x < j ==> dp@[x]@[y] == (
                    least(nbs@, ts@, x, y) as i32,
                    most(nbs@, ts@, x, y) as i32,
                ) && fits_i32(least(nbs@, ts@, x, y)) && fits_i32(most(nbs@, ts@, x, y)),
        decreases n - j,
    {
        let mut i: usize = 0;
        while i < n - j
            invariant
                n == nbs@.len(),
                n > 0,
                ts@.len() >= n - 1,
                parens_fits(nbs@, ts@),
                1 <= j < n,
                i <= n - j,
                dp@.len() == n,
                forall|x: int| 0 <= x < n ==> (#[trigger] dp@[x])@.len() == n,
                forall|x: int, y: int|
                    0 <= x <= y < n && (y - x < j || (y - x == j && x < i)) ==> dp@[x]@[y] == (
                        least(nbs@, ts@, x, y) as i32,
                        most(nbs@, ts@, x, y) as i32,
                    ) && fits_i32(least(nbs@, ts@, x, y)) && fits_i32(most(nbs@, ts@, x, y)),
            decreases n - j - i,
        {
            let mut max: i32 = i32::MIN;
            let mut min: i32 = i32::MAX;
            let mut k: usize = i;
            while k < i + j
                invariant
                    n == nbs@.len(),
                    ts@.len() >= n - 1,
                    parens_fits(nbs@, ts@),
                    1 <= j < n,
                    i < n - j,
                    i <= k <= i + j,
                    dp@.len() == n,
                    forall|x: int| 0 <= x < n ==> (#[trigger] dp@[x])@.len() == n,
                    forall|x: int, y: int|
                        0 <= x <= y < n && y - x < j ==> dp@[x]@[y] == (
                            least(nbs@, ts@, x, y) as i32,
                            most(nbs@, ts@, x, y) as i32,
                        ) && fits_i32(least(nbs@, ts@, x, y)) && fits_i32(most(nbs@, ts@, x, y)),
                    min == least_upto(nbs@, ts@, i as int, i + j, k as int),
                    max == most_upto(nbs@, ts@, i as int, i + j, k as int),
                decreases i + j - k,
            {
                let (min0, max0) = dp[i][k];
                let (min1, max1) = dp[k + 1][i + j];
                proof {
                    assert(dp@[i as int]@[k as int] == (
                        least(nbs@, ts@, i as int, k as int) as i32,
                        most(nbs@, ts@, i as int, k as int) as i32,
                    ));
                    assert(dp@[k + 1]@[i + j] == (
                        least(nbs@, ts@, k + 1, i + j) as i32,
                        most(nbs@, ts@, k + 1, i + j) as i32,
                    ));
                    assert(fits_i32(
                        term_value(
                            ts@[k as int],
                            least(nbs@, ts@, i as int, k as int),
                            least(nbs@, ts@, k + 1, i + j),
                        ),
                    ));
                }
                proof {
                    let (a, b, c) = (i as int, i + j, k as int);
                    assert(least_upto(nbs@, ts@, a, b, c + 1) == lesser(
                        least_upto(nbs@, ts@, a, b, c),
                        least_at(nbs@, ts@, a, b, c),
                    ));
                    assert(most_upto(nbs@, ts@, a, b, c + 1) == greater(
                        most_upto(nbs@, ts@, a, b, c),
                        most_at(nbs@, ts@, a, b, c),
                    ));
                    assert(least_at(nbs@, ts@, a, b, c) == lesser(
                        lesser(
                            term_value(ts@[c], min0 as int, min1 as int),
                            term_value(ts@[c], min0 as int, max1 as int),
                        ),
                        lesser(
                            term_value(ts@[c], max0 as int, min1 as int),
                            term_value(ts@[c], max0 as int, max1 as int),
                        ),
                    ));
                    assert(most_at(nbs@, ts@, a, b, c) == greater(
                        greater(
                            term_value(ts@[c], min0 as int, min1 as int),
                            term_value(ts@[c], min0 as int, max1 as int),
                        ),
                        greater(
                            term_value(ts@[c], max0 as int, min1 as int),
                            term_value(ts@[c], max0 as int, max1 as int),
                        ),
                    ));
                }
                let r00 = calc(&ts[k], &min0, &min1);
                let r01 = calc(&ts[k], &min0, &max1);
                let r10 = calc(&ts[k], &max0, &min1);
                let r11 = calc(&ts[k], &max0, &max1);
                if r00 > max {
                    max = r00;
                }
                if r00 < min {
                    min = r00;
                }
                if r01 > max {
                    max = r01;
                }
                if r01 < min {
                    min = r01;
                }
                if r10 > max {
                    max = r10;
                }
                if r10 < min {
                    min = r10;
                }
                if r11 > max {
                    max = r11;
                }
                if r11 < min {
                    min = r11;
                }
                k += 1;
            }
            let ghost before = dp@;
            dp[i][i + j] = (min, max);
            proof {
                assert forall|x: int, y: int|
                    0 <= x <= y < n && (y - x < j || (y - x == j && x < i + 1)) implies dp@[x]@[y]
                    == (least(nbs@, ts@, x, y) as i32, most(nbs@, ts@, x, y) as i32) && fits_i32(
                    least(nbs@, ts@, x, y),
                ) && fits_i32(most(nbs@, ts@, x, y)) by {
                    if x == i && y == i + j {
                    } else {
                        assert(dp@[x]@[y] == before[x]@[y]);
                    }
                }
            }
            i += 1;
        }
        j += 1;
    }
    dp[0][n - 1].1
}

/// The rising run that the tabulation keeps for the place `i`: the element
/// there, followed by `tail_upto` over all later places.
pub open spec fn rising_from<T: PartialOrd>(a: Seq<T>, i: int) -> Seq<T>
    decreases a.len() - i, a.len() + 1,
{
    if i < 0 || i >= a.len() {
        Seq::empty()
    } else {
        seq![a[i]] + tail_upto(a, i, a.len() as int)
    }
}

/// The run that follows the element at `i`, chosen among the places after
/// `i` and before `j`: the run of the first of them whose element is above
/// that at `i` and whose run is as long as any.
pub open spec fn tail_upto<T: PartialOrd>(a: Seq<T>, i: int, j: int) -> Seq<T>
    decreases a.len() - i, j,
{
    if i < 0 || j <= i + 1 || j > a.len() {
        Seq::empty()
    } else {
        let kept = tail_upto(a, i, j - 1);
        let next = rising_from(a, j - 1);
        if above(a[j - 1], a[i]) && next.len() >= kept.len() + 1 {
            next
        } else {
            kept
        }
    }
}

/// The longest of the runs kept for the places from `i` on; of several
/// longest, that of the last place.
pub open spec fn longest_rising<T: PartialOrd>(a: Seq<T>, i: int) -> Seq<T>
    decreases a.len() - i,
{
    if i < 0 || i >= a.len() {
        Seq::empty()
    } else if rising_from(a, i).len() > longest_rising(a, i + 1).len() {
        rising_from(a, i)
    } else {
        longest_rising(a, i + 1)
    }
}

/// `idx` names places of `a` from front to back, and the element at each
/// of them is above the element at the one before.
pub open spec fn rising_places<T: PartialOrd>(a: Seq<T>, idx: Seq<int>) -> bool {
    &&& forall|m: int| 0 <= m < idx.len() ==> 0 <= #[trigger] idx[m] < a.len()
    &&& forall|m: int|
        0 <= m < idx.len() - 1 ==> idx[m] < #[trigger] idx[m + 1] && above(
            a[idx[m + 1]],
            a[idx[m]],
        )
}

/// The elements of `a` at the places that `idx` names.
pub open spec fn elements_at<T>(a: Seq<T>, idx: Seq<int>) -> Seq<T> {
    Seq::new(idx.len(), |m: int| a[idx[m]])
}

/// The length of the run that follows the element at `i` is that of the
/// longest run kept for a place after `i` and before `j` whose element is
/// above that at `i`.
proof fn lemma_tail_is_longest<T: PartialOrd>(a: Seq<T>, i: int, j: int, k: int)
    requires
        0 <= i < k < j <= a.len(),
        above(a[k], a[i]),
    ensures
        rising_from(a, k).len() <= tail_upto(a, i, j).len(),
    decreases j,
{
    if k < j - 1 {
        lemma_tail_is_longest(a, i, j - 1, k);
    }
}

/// The places of the run kept for the place `i`: they rise, begin with `i`,
/// and hold the elements of the run.
proof fn lemma_rising_from_places<T: PartialOrd>(a: Seq<T>, i: int) -> (idx: Seq<int>)
    requires
        0 <= i < a.len(),
    ensures
        rising_places(a, idx),
        idx.len() > 0,
        idx[0] == i,
        elements_at(a, idx) == rising_from(a, i),
    decreases a.len() - i, a.len() + 1,
{
    let rest = lemma_tail_places(a, i, a.len() as int);
    let idx = seq![i] + rest;
    assert(elements_at(a, idx) =~= seq![a[i]] + elements_at(a, rest));
    assert forall|m: int| 0 <= m < idx.len() - 1 implies idx[m] < #[trigger] idx[m + 1] && above(
        a[idx[m + 1]],
        a[idx[m]],
    ) by {
        if m > 0 {
            assert(idx[m] == rest[m - 1] && idx[m + 1] == rest[m - 1 + 1]);
        }
    }
    idx
}

/// The places of the run that follows the element at `i`: they rise, hold
/// the elements of that run, and the first of them lies after `i` and holds
/// an element above that at `i`.
proof fn lemma_tail_places<T: PartialOrd>(a: Seq<T>, i: int, j: int) -> (idx: Seq<int>)
    requires
        0 <= i < a.len(),
        i < j <= a.len(),
    ensures
        rising_places(a, idx),
        elements_at(a, idx) == tail_upto(a, i, j),
        idx.len() > 0 ==> i < idx[0] && above(a[idx[0]], a[i]),
    decreases a.len() - i, j,
{
    if j <= i + 1 {
        let idx = Seq::<int>::empty();
        assert(elements_at(a, idx) =~= tail_upto(a, i, j));
        idx
    } else {
        let kept = tail_upto(a, i, j - 1);
        let next = rising_from(a, j - 1);
        if above(a[j - 1], a[i]) && next.len() >= kept.len() + 1 {
            lemma_rising_from_places(a, j - 1)
        } else {
            lemma_tail_places(a, i, j - 1)
        }
    }
}

/// No rising row of places that begins at `i` is longer than the run kept
/// for `i`.
proof fn lemma_rising_from_is_longest<T: PartialOrd>(a: Seq<T>, i: int, idx: Seq<int>)
    requires
        rising_places(a, idx),
        idx.len() > 0,
        idx[0] == i,
    ensures
        idx.len() <= rising_from(a, i).len(),
    decreases a.len() - i,
{
    if idx.len() > 1 {
        let rest = idx.skip(1);
        assert(idx[0] < idx[0int + 1]);
        assert forall|m: int| 0 <= m < rest.len() - 1 implies rest[m] < #[trigger] rest[m + 1]
            && above(a[rest[m + 1]], a[rest[m]]) by {
            assert(idx[m + 1] < idx[m + 1 + 1]);
        }
        assert forall|m: int| 0 <= m < rest.len() implies 0 <= #[trigger] rest[m] < a.len() by {
            assert(0 <= idx[m + 1] < a.len());
        }
        lemma_rising_from_is_longest(a, rest[0], rest);
        lemma_tail_is_longest(a, i, a.len() as int, rest[0]);
    }
}

/// The longest of the runs kept from `i` on is as long as any of them.
proof fn lemma_longest_rising<T: PartialOrd>(a: Seq<T>, i: int, k: int)
    requires
        0 <= i <= k < a.len(),
    ensures
        rising_from(a, k).len() <= longest_rising(a, i).len(),
    decreases k - i,
{
    if i < k {
        lemma_longest_rising(a, i + 1, k);
    }
}

/// The places of the longest of the runs kept from `i` on.
proof fn lemma_longest_rising_places<T: PartialOrd>(a: Seq<T>, i: int) -> (idx: Seq<int>)
    requires
        0 <= i <= a.len(),
    ensures
        rising_places(a, idx),
        elements_at(a, idx) == longest_rising(a, i),
    decreases a.len() - i,
{
    if i >= a.len() {
        let idx = Seq::<int>::empty();
        assert(elements_at(a, idx) =~= longest_rising(a, i));
        idx
    } else if rising_from(a, i).len() > longest_rising(a, i + 1).len() {
        lemma_rising_from_places(a, i)
    } else {
        lemma_longest_rising_places(a, i + 1)
    }
}

/// A copy of the vector.
fn copy_of<T: Copy>(v: &Vec<T>) -> (r: Vec<T>)
    ensures
        r@ == v@,
{
    let mut r: Vec<T> = Vec::new();
    let mut k: usize = 0;
    while k < v.len()
        invariant
            k <= v.len(),
            r@ == v@.take(k as int),
        decreases v.len() - k,
    {
        r.push(v[k]);
        proof {
            assert(v@.take(k + 1) =~= v@.take(k as int).push(v@[k as int]));
        }
        k += 1;
    }
    proof {
        assert(v@.take(v@.len() as int) =~= v@);
    }
    r
}

/// A longest rising subsequence of `a`, one in which every element is above
/// the one before it: for every place, from the last to the first, the
/// longest rising run that begins there is kept, and the longest of all is
/// returned. It holds the elements of `a` at a rising row of places, and no
/// rising row of places is longer.
pub fn lis<T>(a: &[T]) -> (r: Vec<T>) where T: Ord + Copy
    requires
        order_known::<T>(),
    ensures
        r@ == longest_rising(a@, 0),
        exists|idx: Seq<int>| rising_places(a@, idx) && #[trigger] elements_at(a@, idx) == r@,
        forall|idx: Seq<int>| #[trigger] rising_places(a@, idx) ==> idx.len() <= r@.len(),
{
    let n = a.len();
    proof {
        let own = lemma_longest_rising_places(a@, 0);
        assert(rising_places(a@, own) && elements_at(a@, own) == longest_rising(a@, 0));
        assert forall|idx: Seq<int>| #[trigger] rising_places(a@, idx) implies idx.len()
            <= longest_rising(a@, 0).len() by {
            if idx.len() > 0 {
                lemma_rising_from_is_longest(a@, idx[0], idx);
                lemma_longest_rising(a@, 0, idx[0]);
            }
        }
    }
    if n == 0 {
        return Vec::new();
    }
    let mut dp: Vec<Vec<T>> = Vec::new();
    let mut k: usize = 0;
    while k < n
        invariant
            k <= n,
            dp@.len() == k,
        decreases n - k,
    {
        dp.push(Vec::new());
        k += 1;
    }
    let mut lis: Vec<T> = Vec::new();
    let mut i: usize = n;
    while i > 0
        invariant
            order_known::<T>(),
            n == a@.len(),
            i <= n,
            dp@.len() == n,
            forall|x: int| i <= x < n ==> (#[trigger] dp@[x])@ == rising_from(a@, x),
            lis@ == longest_rising(a@, i as int),
        decreases i,
    {
        i -= 1;
        let mut cur: Vec<T> = Vec::new();
        cur.push(a[i]);
        let mut j: usize = i + 1;
        proof {
            assert(cur@ =~= seq![a@[i as int]] + tail_upto(a@, i as int, i + 1));
        }
        while j < n
            invariant
                order_known::<T>(),
                n == a@.len(),
                i < j <= n,
                dp@.len() == n,
                forall|x: int| i < x < n ==> (#[trigger] dp@[x])@ == rising_from(a@, x),
                cur@ == seq![a@[i as int]] + tail_upto(a@, i as int, j as int),
            decreases n - j,
        {
            if a[j] > a[i] && dp[j].len() >= cur.len() {
                let mut next: Vec<T> = Vec::new();
                next.push(a[i]);
                let tail = &dp[j];
                let mut t: usize = 0;
                while t < tail.len()
                    invariant
                        t <= tail@.len(),
                        next@ == seq![a@[i as int]] + tail@.take(t as int),
                    decreases tail.len() - t,
                {
                    next.push(tail[t]);
                    proof {
                        assert(tail@.take(t + 1) =~= tail@.take(t as int).push(tail@[t as int]));
                        assert(next@ =~= seq![a@[i as int]] + tail@.take(t + 1));
                    }
                    t += 1;
                }
                proof {
                    assert(tail@.take(tail@.len() as int) =~= tail@);
                }
                cur = next;
            }
            j += 1;
        }
        if cur.len() > lis.len() {
            lis = copy_of(&cur);
        }
        dp[i] = cur;
    }
    lis
}

} // verus!
