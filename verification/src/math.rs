//! Problems on numbers.
use vstd::prelude::*;
use crate::numbers::{distance, fits_i32, greater, lesser, toward_zero};
use crate::text::{decimal, decimal_text, push_text};

verus! {

/// The altitude after the first `k` gains, starting from zero.
pub open spec fn altitude(gain: Seq<i32>, k: int) -> int
    decreases k,
{
    if k <= 0 {
        0
    } else {
        altitude(gain, k - 1) + gain[k - 1]
    }
}

/// The highest altitude reached on a trip that starts at altitude zero and
/// rises by each of `gain` in turn. Every altitude on the way must be a
/// value of `i32`.
pub fn largest_altitude(gain: Vec<i32>) -> (r: i32)
    requires
        forall|k: int| 0 <= k <= gain@.len() ==> fits_i32(#[trigger] altitude(gain@, k)),
    ensures
        forall|k: int| 0 <= k <= gain@.len() ==> #[trigger] altitude(gain@, k) <= r,
        exists|k: int| 0 <= k <= gain@.len() && altitude(gain@, k) == r,
{
    let mut alt: i32 = 0;
    let mut max: i32 = 0;
    let mut i: usize = 0;
    let ghost mut at: int = 0;
    while i < gain.len()
        invariant
            i <= gain.len(),
            forall|k: int| 0 <= k <= gain@.len() ==> fits_i32(#[trigger] altitude(gain@, k)),
            alt == altitude(gain@, i as int),
            forall|k: int| 0 <= k <= i ==> #[trigger] altitude(gain@, k) <= max,
            0 <= at <= i,
            altitude(gain@, at) == max,
        decreases gain.len() - i,
    {
        proof {
            assert(fits_i32(altitude(gain@, i + 1)));
        }
        alt = alt + gain[i];
        if alt > max {
            max = alt;
            proof {
                at = i + 1;
            }
        }
        i += 1;
    }
    max
}

/// The most cash in hand after the first `k + 1` prices while holding a
/// share, starting with no cash and no share: a share bought at a price
/// costs that price.
pub open spec fn holding(prices: Seq<i32>, fee: int, k: int) -> int
    decreases k, 0int,
{
    if k <= 0 {
        -prices[0]
    } else {
        let keep = holding(prices, fee, k - 1);
        let buy = free_cash(prices, fee, k - 1) - prices[k];
        if keep >= buy {
            keep
        } else {
            buy
        }
    }
}

/// The most cash in hand after the first `k + 1` prices while holding no
/// share: a share sold at a price brings that price less the fee.
pub open spec fn free_cash(prices: Seq<i32>, fee: int, k: int) -> int
    decreases k, 1int,
{
    if k <= 0 {
        0
    } else {
        let keep = free_cash(prices, fee, k - 1);
        let sell = holding(prices, fee, k - 1) + prices[k] - fee;
        if keep >= sell {
            keep
        } else {
            sell
        }
    }
}

/// Every number that the reckoning of `holding` and `free_cash` forms is a
/// value of `i32`.
pub open spec fn profit_fits(prices: Seq<i32>, fee: int) -> bool {
    &&& prices.len() > 0 ==> fits_i32(-prices[0])
    &&& forall|k: int|
        1 <= k < prices.len() ==> {
            &&& fits_i32(#[trigger] free_cash(prices, fee, k - 1) - prices[k])
            &&& fits_i32(holding(prices, fee, k - 1) + prices[k])
            &&& fits_i32(holding(prices, fee, k - 1) + prices[k] - fee)
        }
}

/// The cash in hand after the price at `k` for one who starts with no cash
/// and no share and holds a share after the price at `i` exactly if
/// `held[i]`: a share is bought at the price where holding begins, and sold
/// at the price where it ends, less the fee.
pub open spec fn plan_cash(prices: Seq<i32>, fee: int, held: Seq<bool>, k: int) -> int
    decreases k,
{
    if k <= 0 {
        if held[0] {
            -prices[0]
        } else {
            0
        }
    } else if held[k] && !held[k - 1] {
        plan_cash(prices, fee, held, k - 1) - prices[k]
    } else if !held[k] && held[k - 1] {
        plan_cash(prices, fee, held, k - 1) + prices[k] - fee
    } else {
        plan_cash(prices, fee, held, k - 1)
    }
}

/// No plan leaves more cash than `holding` if it ends with a share, nor
/// more than `free_cash` if it ends without one.
pub proof fn lemma_plan_is_no_better(prices: Seq<i32>, fee: int, held: Seq<bool>, k: int)
    requires
        0 <= k,
    ensures
        plan_cash(prices, fee, held, k) <= if held[k] {
            holding(prices, fee, k)
        } else {
            free_cash(prices, fee, k)
        },
    decreases k,
{
    if k > 0 {
        lemma_plan_is_no_better(prices, fee, held, k - 1);
    }
}

/// The cash after the price at `k` looks at the plan up to `k` only.
proof fn lemma_plan_prefix(prices: Seq<i32>, fee: int, p: Seq<bool>, q: Seq<bool>, k: int)
    requires
        0 <= k < p.len(),
        k < q.len(),
        forall|i: int| 0 <= i <= k ==> p[i] == q[i],
    ensures
        plan_cash(prices, fee, p, k) == plan_cash(prices, fee, q, k),
    decreases k,
{
    if k > 0 {
        lemma_plan_prefix(prices, fee, p, q, k - 1);
    }
}

/// A plan for the prices up to `k` that ends with or without a share, as
/// asked, and leaves the cash of `holding` or of `free_cash`.
pub proof fn lemma_best_plan(prices: Seq<i32>, fee: int, k: int, with_share: bool) -> (held: Seq<
    bool,
>)
    requires
        0 <= k,
    ensures
        held.len() == k + 1,
        held[k] == with_share,
        plan_cash(prices, fee, held, k) == if with_share {
            holding(prices, fee, k)
        } else {
            free_cash(prices, fee, k)
        },
    decreases k,
{
    if k == 0 {
        seq![with_share]
    } else {
        let keep = if with_share {
            holding(prices, fee, k - 1) >= free_cash(prices, fee, k - 1) - prices[k]
        } else {
            free_cash(prices, fee, k - 1) >= holding(prices, fee, k - 1) + prices[k] - fee
        };
        let before = lemma_best_plan(prices, fee, k - 1, if keep {
            with_share
        } else {
            !with_share
        });
        let held = before.push(with_share);
        lemma_plan_prefix(prices, fee, before, held, k - 1);
        held
    }
}

/// The best profit from buying and selling one share any number of times at
/// the given prices in turn, where every sale costs `fee`: the most cash
/// that a plan which ends without a share leaves. Zero where there is no
/// price.
pub fn max_profit(prices: Vec<i32>, fee: i32) -> (r: i32)
    requires
        profit_fits(prices@, fee as int),
    ensures
        r == if prices@.len() == 0 {
            0
        } else {
            free_cash(prices@, fee as int, prices@.len() - 1)
        },
        prices@.len() > 0 ==> forall|held: Seq<bool>|
            !held[prices@.len() - 1] ==> #[trigger] plan_cash(
                prices@,
                fee as int,
                held,
                prices@.len() - 1,
            ) <= r,
        prices@.len() > 0 ==> exists|held: Seq<bool>|
            held.len() == prices@.len() && !held[prices@.len() - 1] && #[trigger] plan_cash(
                prices@,
                fee as int,
                held,
                prices@.len() - 1,
            ) == r,
{
    proof {
        let last = prices@.len() - 1;
        if last >= 0 {
            let best = lemma_best_plan(prices@, fee as int, last, false);
            assert(best.len() == prices@.len() && !best[last] && plan_cash(
                prices@,
                fee as int,
                best,
                last,
            ) == free_cash(prices@, fee as int, last));
            assert forall|held: Seq<bool>| !held[last] implies #[trigger] plan_cash(
                prices@,
                fee as int,
                held,
                last,
            ) <= free_cash(prices@, fee as int, last) by {
                lemma_plan_is_no_better(prices@, fee as int, held, last);
            }
        }
    }
    if prices.len() == 0 {
        return 0;
    }
    let mut hold: i32 = -prices[0];
    let mut free: i32 = 0;
    let mut k: usize = 1;
    while k < prices.len()
        invariant
            1 <= k <= prices.len(),
            profit_fits(prices@, fee as int),
            hold == holding(prices@, fee as int, k - 1),
            free == free_cash(prices@, fee as int, k - 1),
        decreases prices.len() - k,
    {
        let p = prices[k];
        proof {
            assert(fits_i32(free_cash(prices@, fee as int, k - 1) - prices@[k as int]));
        }
        let tmp = hold;
        let buy = free - p;
        let sell = tmp + p - fee;
        if buy > hold {
            hold = buy;
        }
        if sell > free {
            free = sell;
        }
        k += 1;
    }
    free
}

/// The place where the run that holds the place `upto` begins: a run ends
/// before a number that is more than one above the number before it.
pub open spec fn run_start(nums: Seq<i32>, upto: int) -> int
    decreases upto,
{
    if upto <= 0 {
        0
    } else if nums[upto] > nums[upto - 1] + 1 {
        upto
    } else {
        run_start(nums, upto - 1)
    }
}

/// The text of a run: the number alone where the run begins and ends with
/// the same number, else the first number, an arrow, and the last.
pub open spec fn run_text(start: int, end: int) -> Seq<char> {
    if start == end {
        decimal_text(end)
    } else {
        decimal_text(start) + seq!['-', '>'] + decimal_text(end)
    }
}

/// The texts of the runs among the first `upto + 1` numbers of `nums` that
/// have ended, in their order.
pub open spec fn closed_runs(nums: Seq<i32>, upto: int) -> Seq<Seq<char>>
    decreases upto,
{
    if upto <= 0 {
        Seq::empty()
    } else if nums[upto] > nums[upto - 1] + 1 {
        closed_runs(nums, upto - 1).push(
            run_text(nums[run_start(nums, upto - 1)] as int, nums[upto - 1] as int),
        )
    } else {
        closed_runs(nums, upto - 1)
    }
}

/// The texts of all runs of `nums`, in their order.
pub open spec fn all_runs(nums: Seq<i32>) -> Seq<Seq<char>> {
    if nums.len() == 0 {
        Seq::empty()
    } else {
        closed_runs(nums, nums.len() - 1).push(
            run_text(nums[run_start(nums, nums.len() - 1)] as int, nums.last() as int),
        )
    }
}

/// The text of the run from `start` to `current`.
fn range_text(start: i32, current: i32) -> (s: String)
    ensures
        s@ == run_text(start as int, current as int),
{
    if current == start {
        decimal(current as i128)
    } else {
        let mut s = decimal(start as i128);
        proof {
            reveal_strlit("->");
            assert("->"@ =~= seq!['-', '>']);
        }
        push_text(&mut s, "->");
        let t = decimal(current as i128);
        push_text(&mut s, t.as_str());
        s
    }
}

/// Splits `nums` into runs, where a run ends before a number that is more
/// than one above the number before it, and writes each run as `a->b`, or as
/// `a` where it begins and ends with `a`. No number but the last may be the
/// greatest `i32`.
pub fn summary_ranges(nums: Vec<i32>) -> (ranges: Vec<String>)
    requires
        forall|i: int| 0 <= i < nums@.len() - 1 ==> #[trigger] nums@[i] < i32::MAX,
    ensures
        ranges@.len() == all_runs(nums@).len(),
        forall|i: int| 0 <= i < ranges@.len() ==> (#[trigger] ranges@[i])@ == all_runs(nums@)[i],
{
    let mut ranges: Vec<String> = Vec::new();
    if !nums.is_empty() {
        let mut start = nums[0];
        let mut current = start;
        let mut k: usize = 1;
        while k < nums.len()
            invariant
                1 <= k <= nums.len(),
                forall|i: int| 0 <= i < nums@.len() - 1 ==> #[trigger] nums@[i] < i32::MAX,
                start == nums@[run_start(nums@, k - 1)],
                current == nums@[k - 1],
                ranges@.len() == closed_runs(nums@, k - 1).len(),
                forall|i: int|
                    0 <= i < ranges@.len() ==> (#[trigger] ranges@[i])@ == closed_runs(
                        nums@,
                        k - 1,
                    )[i],
            decreases nums.len() - k,
        {
            let i = nums[k];
            proof {
                assert(nums@[k - 1] < i32::MAX);
            }
            if i > current + 1 {
                let t = range_text(start, current);
                ranges.push(t);
                start = i;
            }
            current = i;
            k += 1;
        }
        let t = range_text(start, current);
        ranges.push(t);
    }
    ranges
}

/// The value from which the search starts: the share of `max_sum` that
/// falls to one of `n` places, less the greater of `index` and the absolute
/// difference of `index` and `n`; one at least.
pub open spec fn start_value(n: int, index: int, max_sum: int) -> int {
    greater(1, toward_zero(max_sum, n) - greater(if index - n >= 0 {
        index - n
    } else {
        n - index
    }, index))
}

/// The number of places, among `n`, from `amp` before `index` to `amp`
/// after it.
pub open spec fn layer(n: int, index: int, amp: int) -> int {
    lesser(n, index + amp + 1) - greater(0, index - amp)
}

/// The sum over the first `upto` places of the value that falls from `v`
/// at `index` by one with every place away from it, but not below `base`.
pub open spec fn spread_sum(index: int, v: int, base: int, upto: int) -> int
    decreases upto,
{
    if upto <= 0 {
        0
    } else {
        spread_sum(index, v, base, upto - 1) + greater(base, v - distance(upto - 1, index))
    }
}

/// The least sum of `n` positive numbers of which neighbours differ by one
/// at most and the one at `index` is `v`: the others fall from `v` by one
/// with every place away from `index`, but not below one.
pub open spec fn least_sum(n: int, index: int, v: int) -> int {
    spread_sum(index, v, 1, n)
}

/// The number of the first `upto` places that lie no more than `amp` away
/// from `index`.
spec fn near(index: int, amp: int, upto: int) -> int
    decreases upto,
{
    if upto <= 0 {
        0
    } else {
        near(index, amp, upto - 1) + if distance(upto - 1, index) <= amp {
            1int
        } else {
            0int
        }
    }
}

/// The places near `index` make up a layer.
proof fn lemma_near(index: int, amp: int, upto: int)
    requires
        0 <= index,
        0 <= amp,
        0 <= upto,
    ensures
        near(index, amp, upto) == greater(0, lesser(upto, index + amp + 1) - greater(0, index - amp)),
    decreases upto,
{
    if upto > 0 {
        lemma_near(index, amp, upto - 1);
    }
}

/// Raising the value by one raises the sum by the number of places that
/// stand above the base.
proof fn lemma_spread_rises(index: int, v: int, base: int, upto: int)
    requires
        0 <= upto,
        v >= base,
    ensures
        spread_sum(index, v + 1, base, upto) == spread_sum(index, v, base, upto) + near(
            index,
            v - base,
            upto,
        ),
    decreases upto,
{
    if upto > 0 {
        lemma_spread_rises(index, v, base, upto - 1);
    }
}

/// With the value at the base every place holds the base.
proof fn lemma_spread_flat(index: int, base: int, upto: int)
    requires
        0 <= upto,
    ensures
        spread_sum(index, base, base, upto) == base * upto,
    decreases upto,
{
    if upto > 0 {
        lemma_spread_flat(index, base, upto - 1);
        assert(base * upto == base * (upto - 1) + base) by (nonlinear_arith);
    } else {
        assert(base * upto == 0) by (nonlinear_arith)
            requires
                upto == 0,
        ;
    }
}

/// A higher base gives no lesser sum, and the same sum where no place falls
/// below it; no place holds more than the value.
proof fn lemma_spread_bases(index: int, v: int, base: int, upto: int, far: int)
    requires
        0 <= upto,
        1 <= base <= v,
    ensures
        spread_sum(index, v, 1, upto) <= spread_sum(index, v, base, upto) <= v * upto,
        (forall|i: int| 0 <= i < upto ==> #[trigger] distance(i, index) <= far) && v - far >= base
            ==> spread_sum(index, v, 1, upto) == spread_sum(index, v, base, upto),
    decreases upto,
{
    if upto > 0 {
        lemma_spread_bases(index, v, base, upto - 1, far);
        assert(v * upto == v * (upto - 1) + v) by (nonlinear_arith);
        if (forall|i: int| 0 <= i < upto ==> #[trigger] distance(i, index) <= far) && v - far
            >= base {
            assert(distance(upto - 1, index) <= far);
        }
    } else {
        assert(v * upto == 0) by (nonlinear_arith)
            requires
                upto == 0,
        ;
    }
}

/// `row` holds `n` positive numbers of which neighbours differ by one at
/// most.
pub open spec fn smooth_row(row: Seq<int>, n: int) -> bool {
    &&& row.len() == n
    &&& forall|i: int| 0 <= i < n ==> #[trigger] row[i] >= 1
    &&& forall|i: int| 0 <= i < n - 1 ==> -1 <= #[trigger] row[i + 1] - row[i] <= 1
}

/// The sum of the first `upto` numbers of `row`.
pub open spec fn row_sum(row: Seq<int>, upto: int) -> int
    decreases upto,
{
    if upto <= 0 {
        0
    } else {
        row_sum(row, upto - 1) + row[upto - 1]
    }
}

/// In a smooth row a number is less than another by no more than the
/// places between them.
proof fn lemma_row_falls(row: Seq<int>, n: int, index: int, i: int)
    requires
        smooth_row(row, n),
        0 <= index < n,
        0 <= i < n,
    ensures
        row[i] >= row[index] - distance(i, index),
    decreases distance(i, index),
{
    if i > index {
        lemma_row_falls(row, n, index, i - 1);
        assert(-1 <= row[i - 1 + 1] - row[i - 1]);
    } else if i < index {
        lemma_row_falls(row, n, index, i + 1);
        assert(row[i + 1] - row[i] <= 1);
    }
}

/// No smooth row sums to less than `least_sum` for the number it holds at
/// `index`.
pub proof fn lemma_least_sum_is_least(row: Seq<int>, n: int, index: int, upto: int)
    requires
        smooth_row(row, n),
        0 <= index < n,
        0 <= upto <= n,
    ensures
        row_sum(row, upto) >= spread_sum(index, row[index], 1, upto),
    decreases upto,
{
    if upto > 0 {
        lemma_least_sum_is_least(row, n, index, upto - 1);
        lemma_row_falls(row, n, index, upto - 1);
        assert(row[upto - 1] >= 1);
    }
}

/// The smooth row that sums to `least_sum`.
pub proof fn lemma_least_sum_row(n: int, index: int, v: int) -> (row: Seq<int>)
    requires
        0 <= index < n,
        v >= 1,
    ensures
        smooth_row(row, n),
        row[index] == v,
        row_sum(row, n) == least_sum(n, index, v),
{
    let row = Seq::new(n as nat, |i: int| greater(1, v - distance(i, index)));
    assert forall|i: int| 0 <= i < n - 1 implies -1 <= #[trigger] row[i + 1] - row[i] <= 1 by {}
    lemma_row_sum_of(row, n, index, v, n);
    row
}

/// The sum of the row that falls from `v` at `index`, but not below one.
proof fn lemma_row_sum_of(row: Seq<int>, n: int, index: int, v: int, upto: int)
    requires
        row.len() == n,
        forall|i: int| 0 <= i < n ==> #[trigger] row[i] == greater(1, v - distance(i, index)),
        0 <= upto <= n,
    ensures
        row_sum(row, upto) == spread_sum(index, v, 1, upto),
    decreases upto,
{
    if upto > 0 {
        lemma_row_sum_of(row, n, index, v, upto - 1);
    }
}

/// The least sum grows with the value.
proof fn lemma_least_sum_grows(n: int, index: int, v: int, w: int)
    requires
        0 <= n,
        1 <= v <= w,
    ensures
        least_sum(n, index, v) <= least_sum(n, index, w),
    decreases w - v,
{
    if v < w {
        lemma_least_sum_grows(n, index, v, w - 1);
        lemma_spread_rises(index, w - 1, 1, n);
        lemma_near_positive(index, w - 2, n);
    }
}

/// A count of places is not negative.
proof fn lemma_near_positive(index: int, amp: int, upto: int)
    ensures
        near(index, amp, upto) >= 0,
    decreases upto,
{
    if upto > 0 {
        lemma_near_positive(index, amp, upto - 1);
    }
}

/// The value found for the place `index` of `n` places that are to hold
/// positive numbers, neighbours differing by one at most, whose sum is
/// `max_sum` at most: the greatest value for which the least possible sum
/// stays within `max_sum`, which is the greatest that such a row can hold
/// at `index`. One where `max_sum` is too small for `n`
/// positive numbers. The search starts from `start_value` and raises the
/// value step by step, each step adding a layer around `index` to the sum.
/// There must be a place, `index` must be one of the places, and twice
/// `n`, `max_sum` less `n` and `max_sum` and `n` together must be values of
/// `i32`.
pub fn max_value(n: i32, index: i32, max_sum: i32) -> (res: i32)
    requires
        n >= 1,
        0 <= index < n,
        n + n <= i32::MAX,
        i32::MIN <= max_sum - n,
        max_sum + n <= i32::MAX,
    ensures
        res >= 1,
        max_sum < n ==> res == 1,
        max_sum >= n ==> least_sum(n as int, index as int, res as int) <= max_sum < least_sum(
            n as int,
            index as int,
            res + 1,
        ),
        max_sum >= n ==> exists|row: Seq<int>|
            #[trigger] smooth_row(row, n as int) && row_sum(row, n as int) <= max_sum
                && row[index as int] == res,
        forall|row: Seq<int>|
            #[trigger] smooth_row(row, n as int) && row_sum(row, n as int) <= max_sum
                ==> row[index as int] <= res,
{
    let away = if index - n >= 0 {
        index - n
    } else {
        n - index
    };
    let far = if away >= index {
        away
    } else {
        index
    };
    let share = max_sum / n;
    proof {
        assert(share == toward_zero(max_sum as int, n as int));
        if max_sum >= 0 {
            assert(0 <= max_sum as int / n as int <= max_sum) by (nonlinear_arith)
                requires
                    max_sum >= 0,
                    n >= 1,
            ;
            assert((max_sum as int / n as int) * n <= max_sum) by (nonlinear_arith)
                requires
                    max_sum >= 0,
                    n >= 1,
            ;
            if max_sum < n {
                assert(max_sum as int / n as int == 0) by (nonlinear_arith)
                    requires
                        0 <= max_sum < n,
                ;
            }
        } else {
            assert(0 <= (-max_sum) as int / n as int <= -max_sum) by (nonlinear_arith)
                requires
                    max_sum < 0,
                    n >= 1,
            ;
        }
    }
    let floor = if share - far >= 1 {
        share - far
    } else {
        1
    };
    proof {
        assert(floor == start_value(n as int, index as int, max_sum as int));
        if floor > 1 {
            assert(floor * n <= share * n) by (nonlinear_arith)
                requires
                    floor <= share,
                    n >= 1,
            ;
        } else {
            assert(floor * n == n) by (nonlinear_arith)
                requires
                    floor == 1,
            ;
        }
        assert(floor <= floor * n) by (nonlinear_arith)
            requires
                floor >= 1,
                n >= 1,
        ;
        lemma_spread_flat(index as int, floor as int, n as int);
        lemma_spread_rises(index as int, floor as int, floor as int, n as int);
        lemma_near(index as int, 0, n as int);
    }
    let mut sum = floor * n;
    let mut amp: i32 = 1;
    let mut res = floor;
    if sum < max_sum {
        loop
            invariant_except_break
                sum < max_sum,
                sum == spread_sum(index as int, res + 1, floor as int, n as int) - 1,
                amp <= res + 1 - floor,
                amp == res + 1 - floor || !(index - amp > 0 || index + amp < n - 1),
            invariant
                n >= 1,
                0 <= index < n,
                n + n <= i32::MAX,
                max_sum + n <= i32::MAX,
                1 <= amp <= n,
                1 <= floor <= res,
                res <= sum,
                floor * n <= sum,
            ensures
                spread_sum(index as int, res as int, floor as int, n as int) <= max_sum
                    < spread_sum(index as int, res + 1, floor as int, n as int),
            decreases max_sum - sum,
        {
            proof {
                lemma_spread_rises(index as int, res + 1, floor as int, n as int);
                lemma_near(index as int, res + 1 - floor, n as int);
                assert(layer(n as int, index as int, amp as int) == layer(
                    n as int,
                    index as int,
                    res + 1 - floor,
                ));
            }
            res += 1;
            let upper = if n <= index + amp + 1 {
                n
            } else {
                index + amp + 1
            };
            let lower = if 0 >= index - amp {
                0
            } else {
                index - amp
            };
            proof {
                assert(upper - lower == layer(n as int, index as int, amp as int));
                assert(1 <= upper - lower <= n);
            }
            sum += upper - lower;
            if sum >= max_sum {
                break ;
            }
            if index - amp > 0 || index + amp < n - 1 {
                amp += 1;
            }
        }
    }
    proof {
        let (nn, ix, r, f) = (n as int, index as int, res as int, floor as int);
        if max_sum >= n {
            assert(spread_sum(ix, r, f, nn) <= max_sum < spread_sum(ix, r + 1, f, nn));
            assert forall|i: int| 0 <= i < nn implies #[trigger] distance(i, ix) <= far by {}
            lemma_spread_bases(ix, r, f, nn, far as int);
            lemma_spread_bases(ix, r + 1, f, nn, far as int);
            if f > 1 && r + 1 - far < f {
                assert((r + 1) * nn <= share * nn) by (nonlinear_arith)
                    requires
                        r + 1 <= share,
                        nn >= 1,
                ;
            }
            let best = lemma_least_sum_row(nn, ix, r);
            assert(smooth_row(best, nn) && row_sum(best, nn) <= max_sum && best[ix] == r);
        }
        assert forall|row: Seq<int>| #[trigger]
            smooth_row(row, nn) && row_sum(row, nn) <= max_sum implies row[ix] <= r by {
            lemma_least_sum_is_least(row, nn, ix, nn);
            if row[ix] > r {
                lemma_least_sum_grows(nn, ix, r + 1, row[ix]);
                lemma_least_sum_grows(nn, ix, 1, row[ix]);
                lemma_spread_flat(ix, 1, nn);
            }
        }
    }
    res
}

} // verus!
