//! Problems on grids of integers.
use vstd::prelude::*;

verus! {

/// The first place from `from` on, below `len`, at which `row` is negative;
/// `len` if there is none.
pub open spec fn first_negative(row: Seq<i32>, from: int, len: int) -> int
    decreases len - from,
{
    if from >= len {
        len
    } else if row[from] < 0 {
        from
    } else {
        first_negative(row, from + 1, len)
    }
}

/// What the walk up the staircase counts from row `i` upwards, when the
/// search for the first negative number of a row starts at the place `from`
/// where the search in the row below ended: for every row the places from
/// its first negative number to `len`, until a row has none.
pub open spec fn staircase(grid: Seq<Vec<i32>>, len: int, i: int, from: int) -> int
    decreases i + 1,
{
    if i < 0 {
        0
    } else {
        let p = first_negative(grid[i]@, from, len);
        if p >= len {
            0
        } else {
            len - p + staircase(grid, len, i - 1, p)
        }
    }
}

/// The number of negative numbers among the first `upto` of `row`.
pub open spec fn negatives_in(row: Seq<i32>, upto: int) -> int
    decreases upto,
{
    if upto <= 0 {
        0
    } else {
        negatives_in(row, upto - 1) + if row[upto - 1] < 0 {
            1int
        } else {
            0int
        }
    }
}

/// The number of negative numbers in the first `len` columns of the rows up
/// to and including row `i`.
pub open spec fn negatives_upto(grid: Seq<Vec<i32>>, len: int, i: int) -> int
    decreases i + 1,
{
    if i < 0 {
        0
    } else {
        negatives_upto(grid, len, i - 1) + negatives_in(grid[i]@, len)
    }
}

/// Along every row and down every column of the first `len` columns the
/// numbers never rise.
pub open spec fn falling(grid: Seq<Vec<i32>>, len: int) -> bool {
    &&& forall|i: int, a: int, b: int|
        0 <= i < grid.len() && 0 <= a <= b < len ==> grid[i]@[a] >= grid[i]@[b]
    &&& forall|i: int, j: int, a: int|
        0 <= i <= j < grid.len() && 0 <= a < len ==> grid[i]@[a] >= grid[j]@[a]
}

/// A row that is negative from `p` on and not before holds `len - p`
/// negative numbers.
proof fn lemma_negatives_from(row: Seq<i32>, p: int, len: int, upto: int)
    requires
        0 <= p <= len,
        0 <= upto <= len,
        forall|a: int| 0 <= a < p ==> row[a] >= 0,
        forall|a: int| p <= a < len ==> row[a] < 0,
    ensures
        negatives_in(row, upto) == if upto <= p {
            0
        } else {
            upto - p
        },
    decreases upto,
{
    if upto > 0 {
        lemma_negatives_from(row, p, len, upto - 1);
    }
}

/// What `first_negative` finds: no negative number between `from` and it.
proof fn lemma_first_negative(row: Seq<i32>, from: int, len: int)
    requires
        0 <= from <= len,
    ensures
        from <= first_negative(row, from, len) <= len,
        forall|a: int| from <= a < first_negative(row, from, len) ==> row[a] >= 0,
        first_negative(row, from, len) < len ==> row[first_negative(row, from, len)] < 0,
    decreases len - from,
{
    if from < len && row[from] >= 0 {
        lemma_first_negative(row, from + 1, len);
    }
}

/// In a grid whose numbers never rise along rows and down columns, the walk
/// up the staircase counts the negative numbers.
pub proof fn lemma_staircase_counts(grid: Seq<Vec<i32>>, len: int, i: int, from: int)
    requires
        falling(grid, len),
        -1 <= i < grid.len(),
        0 <= from <= len,
        forall|j: int| 0 <= j < grid.len() ==> (#[trigger] grid[j])@.len() >= len,
        forall|j: int, a: int| 0 <= j <= i && 0 <= a < from ==> grid[j]@[a] >= 0,
    ensures
        staircase(grid, len, i, from) == negatives_upto(grid, len, i),
    decreases i + 1,
{
    if i >= 0 {
        let row = grid[i]@;
        let p = first_negative(row, from, len);
        lemma_first_negative(row, from, len);
        assert forall|a: int| 0 <= a < p implies row[a] >= 0 by {}
        assert forall|a: int| p <= a < len implies row[a] < 0 by {
            assert(row[p] >= row[a]);
        }
        lemma_negatives_from(row, p, len, len);
        if p >= len {
            lemma_no_negatives_above(grid, len, i);
        } else {
            assert forall|j: int, a: int| 0 <= j <= i - 1 && 0 <= a < p implies grid[j]@[a]
                >= 0 by {
                assert(grid[j]@[a] >= grid[i]@[a]);
            }
            lemma_staircase_counts(grid, len, i - 1, p);
        }
    }
}

/// Above a row without negative numbers there are none, where the numbers
/// never rise down the columns.
proof fn lemma_no_negatives_above(grid: Seq<Vec<i32>>, len: int, i: int)
    requires
        falling(grid, len),
        -1 <= i < grid.len(),
        0 <= len,
        i >= 0 ==> forall|a: int| 0 <= a < len ==> grid[i]@[a] >= 0,
    ensures
        negatives_upto(grid, len, i) == 0,
    decreases i + 1,
{
    if i >= 0 {
        lemma_negatives_from(grid[i]@, len, len, len);
        if i >= 1 {
            let above = grid[i - 1]@;
            assert forall|a: int| 0 <= a < len implies #[trigger] above[a] >= 0 by {
                assert(grid[i - 1]@[a] >= grid[i]@[a]);
            }
        }
        lemma_no_negatives_above(grid, len, i - 1);
    }
}

/// The staircase count is at most `len` for every row.
proof fn lemma_staircase_bound(grid: Seq<Vec<i32>>, len: int, i: int, from: int)
    requires
        0 <= from <= len,
        -1 <= i,
    ensures
        0 <= staircase(grid, len, i, from) <= (i + 1) * len,
    decreases i + 1,
{
    if i >= 0 {
        let p = first_negative(grid[i]@, from, len);
        lemma_first_negative(grid[i]@, from, len);
        if p < len {
            lemma_staircase_bound(grid, len, i - 1, p);
            assert((i + 1) * len == i * len + len) by (nonlinear_arith);
        } else {
            assert((i + 1) * len >= 0) by (nonlinear_arith)
                requires
                    i >= 0,
                    len >= 0,
            ;
        }
    }
}

/// Counts negative numbers by a walk up a staircase: from the last row
/// upwards, the search for the first negative number of a row goes on from
/// the place where it ended in the row below, and stops at a row without
/// one. Where the numbers never rise along rows and down columns, this is
/// the number of negative numbers of the grid. The width is that of the
/// first row; no row may be shorter, and the grid must have a row.
pub fn count_negatives(grid: Vec<Vec<i32>>) -> (negatives: i32)
    requires
        grid@.len() > 0,
        forall|j: int| 0 <= j < grid@.len() ==> (#[trigger] grid@[j])@.len() >= grid@[0]@.len(),
        grid@.len() * grid@[0]@.len() <= i32::MAX,
    ensures
        negatives == staircase(grid@, grid@[0]@.len() as int, grid@.len() - 1, 0),
        falling(grid@, grid@[0]@.len() as int) ==> negatives == negatives_upto(
            grid@,
            grid@[0]@.len() as int,
            grid@.len() - 1,
        ),
{
    let mut neg_index: usize = 0;
    let mut negatives: i32 = 0;
    let len = grid[0].len();
    let mut i: usize = grid.len();
    proof {
        if falling(grid@, len as int) {
            lemma_staircase_counts(grid@, len as int, grid@.len() - 1, 0);
        }
    }
    while i > 0
        invariant
            len == grid@[0]@.len(),
            grid@.len() * len <= i32::MAX,
            forall|j: int| 0 <= j < grid@.len() ==> (#[trigger] grid@[j])@.len() >= len,
            i <= grid@.len(),
            neg_index <= len,
            0 <= negatives,
            negatives + staircase(grid@, len as int, i - 1, neg_index as int) == staircase(
                grid@,
                len as int,
                grid@.len() - 1,
                0,
            ),
        ensures
            negatives == staircase(grid@, len as int, grid@.len() - 1, 0),
        decreases i,
    {
        i -= 1;
        let ghost from = neg_index as int;
        proof {
            lemma_first_negative(grid@[i as int]@, from, len as int);
        }
        while neg_index < len && grid[i][neg_index] >= 0
            invariant
                i < grid@.len(),
                grid@[i as int]@.len() >= len,
                from <= neg_index <= len,
                first_negative(grid@[i as int]@, neg_index as int, len as int) == first_negative(
                    grid@[i as int]@,
                    from,
                    len as int,
                ),
            decreases len - neg_index,
        {
            neg_index += 1;
        }
        let neg = len - neg_index;
        proof {
            lemma_staircase_bound(grid@, len as int, i as int, from);
            lemma_staircase_bound(grid@, len as int, grid@.len() - 1, 0);
            lemma_staircase_bound(grid@, len as int, i - 1, neg_index as int);
            assert(grid@.len() * len == (grid@.len() - 1 + 1) * len);
        }
        negatives += neg as i32;
        if neg == 0 {
            break ;
        }
    }
    negatives
}

/// The modulus of the path counts.
pub const M: i64 = 1_000_000_007;

/// Holds the count of rising paths in a grid.
pub struct Solution {}

/// The grid has a row, and no row is shorter than the first.
pub open spec fn has_width(grid: Seq<Vec<i32>>, n: int) -> bool {
    &&& grid.len() > 0
    &&& n == grid[0]@.len()
    &&& forall|x: int| 0 <= x < grid.len() ==> (#[trigger] grid[x])@.len() >= n
}

/// What the cell `(x, y)` adds to the count of a neighbour with the number
/// `v`: its own count if it lies in the grid and its number is below `v`.
pub open spec fn paths_through(grid: Seq<Vec<i32>>, x: int, y: int, v: i32) -> int
    decreases v - i32::MIN, 0int,
{
    if 0 <= x < grid.len() && 0 <= y < grid[0]@.len() && grid[x]@[y] < v {
        paths_to(grid, x, y)
    } else {
        0
    }
}

/// The number, modulo `M`, of paths that end at the cell `(i, j)` and rise
/// strictly from cell to neighbouring cell: the cell alone, and the paths
/// that come in through each of its four neighbours.
pub open spec fn paths_to(grid: Seq<Vec<i32>>, i: int, j: int) -> int
    decreases grid[i]@[j] - i32::MIN, 1int,
{
    let v = grid[i]@[j];
    (1 + paths_through(grid, i - 1, j, v) + paths_through(grid, i, j - 1, v) + paths_through(
        grid,
        i + 1,
        j,
        v,
    ) + paths_through(grid, i, j + 1, v)) % (M as int)
}

/// The counts of the first `upto` cells of row `i` added to `acc`, reduced
/// modulo `M` after every addition.
pub open spec fn add_row(grid: Seq<Vec<i32>>, i: int, upto: int, acc: int) -> int
    decreases upto,
{
    if upto <= 0 {
        acc
    } else {
        (add_row(grid, i, upto - 1, acc) + paths_to(grid, i, upto - 1)) % (M as int)
    }
}

/// The counts of the cells of the first `rows` rows, `n` cells a row, added
/// up, reduced modulo `M` after every addition.
pub open spec fn add_rows(grid: Seq<Vec<i32>>, n: int, rows: int) -> int
    decreases rows,
{
    if rows <= 0 {
        0
    } else {
        add_row(grid, rows - 1, n, add_rows(grid, n, rows - 1))
    }
}

/// Every entry of the table is zero or the count of its cell.
pub open spec fn memo_ok(grid: Seq<Vec<i32>>, n: int, dps: Seq<Vec<i64>>) -> bool {
    &&& dps.len() == grid.len()
    &&& forall|x: int| 0 <= x < dps.len() ==> (#[trigger] dps[x])@.len() == n
    &&& forall|x: int, y: int|
        0 <= x < dps.len() && 0 <= y < n ==> dps[x]@[y] == 0 || dps[x]@[y] == paths_to(grid, x, y)
}

/// A count lies from zero up to, not including, `M`.
proof fn lemma_paths_range(grid: Seq<Vec<i32>>, i: int, j: int)
    ensures
        0 <= paths_to(grid, i, j) < M,
        forall|x: int, y: int, v: i32| 0 <= #[trigger] paths_through(grid, x, y, v) < M,
{
    assert forall|x: int, y: int, v: i32| 0 <= #[trigger] paths_through(grid, x, y, v) < M by {
        if 0 <= x < grid.len() && 0 <= y < grid[0]@.len() && grid[x]@[y] < v {
            let w = grid[x]@[y];
            let sum = 1 + paths_through(grid, x - 1, y, w) + paths_through(grid, x, y - 1, w)
                + paths_through(grid, x + 1, y, w) + paths_through(grid, x, y + 1, w);
            assert(paths_to(grid, x, y) == sum % (M as int));
        }
    }
}

impl Solution {
    /// The number, modulo `M`, of paths in the grid that rise strictly from
    /// cell to neighbouring cell, a single cell being a path. The width is
    /// that of the first row; no row may be shorter, and the grid must have
    /// a row.
    pub fn count_paths(grid: Vec<Vec<i32>>) -> (r: i32)
        requires
            has_width(grid@, grid@[0]@.len() as int),
        ensures
            r == add_rows(grid@, grid@[0]@.len() as int, grid@.len() as int),
    {
        let m = grid.len();
        let n = grid[0].len();
        let mut dps: Vec<Vec<i64>> = vec![vec![0_i64; n]; m];
        let mut i: usize = 0;
        while i < m
            invariant
                m == grid@.len(),
                has_width(grid@, n as int),
                i <= m,
                memo_ok(grid@, n as int, dps@),
                forall|x: int, y: int| 0 <= x < i && 0 <= y < n ==> dps@[x]@[y] == paths_to(grid@, x, y),
            decreases m - i,
        {
            let mut j: usize = 0;
            while j < n
                invariant
                    m == grid@.len(),
                    has_width(grid@, n as int),
                    i < m,
                    j <= n,
                    memo_ok(grid@, n as int, dps@),
                    forall|x: int, y: int|
                        0 <= x < i && 0 <= y < n ==> dps@[x]@[y] == paths_to(grid@, x, y),
                    forall|y: int| 0 <= y < j ==> dps@[i as int]@[y] == paths_to(grid@, i as int, y),
                decreases n - j,
            {
                Solution::dps(&grid, i, j, &mut dps);
                j += 1;
            }
            i += 1;
        }
        let mut cnt: i64 = 0;
        let mut i: usize = 0;
        while i < m
            invariant
                m == grid@.len(),
                i <= m,
                dps@.len() == m,
                forall|x: int| 0 <= x < m ==> (#[trigger] dps@[x])@.len() == n,
                forall|x: int, y: int| 0 <= x < m && 0 <= y < n ==> dps@[x]@[y] == paths_to(grid@, x, y),
                cnt == add_rows(grid@, n as int, i as int),
                0 <= cnt < M,
            decreases m - i,
        {
            let mut j: usize = 0;
            while j < n
                invariant
                    i < m,
                    j <= n,
                    dps@.len() == m,
                    dps@[i as int]@.len() == n,
                    forall|y: int| 0 <= y < n ==> dps@[i as int]@[y] == paths_to(grid@, i as int, y),
                    cnt == add_row(grid@, i as int, j as int, add_rows(grid@, n as int, i as int)),
                    0 <= cnt < M,
                decreases n - j,
            {
                proof {
                    lemma_paths_range(grid@, i as int, j as int);
                }
                cnt = (cnt + dps[i][j]) % M;
                j += 1;
            }
            i += 1;
        }
        cnt as i32
    }

    /// The count of the cell `(i, j)`, which is entered in the table unless
    /// the table has it.
    fn dps(grid: &Vec<Vec<i32>>, i: usize, j: usize, dps: &mut Vec<Vec<i64>>) -> (r: i64)
        requires
            has_width(grid@, grid@[0]@.len() as int),
            memo_ok(grid@, grid@[0]@.len() as int, old(dps)@),
            i < grid@.len(),
            j < grid@[0]@.len(),
        ensures
            memo_ok(grid@, grid@[0]@.len() as int, final(dps)@),
            r == paths_to(grid@, i as int, j as int),
            final(dps)@[i as int]@[j as int] == r,
            forall|x: int, y: int|
                0 <= x < grid@.len() && 0 <= y < grid@[0]@.len() && old(dps)@[x]@[y] == paths_to(
                    grid@,
                    x,
                    y,
                ) ==> final(dps)@[x]@[y] == paths_to(grid@, x, y),
        decreases grid@[i as int]@[j as int] - i32::MIN, 1int,
    {
        if dps[i][j] == 0 {
            let v = grid[i][j];
            let mut cnt: i64 = 1;
            proof {
                lemma_paths_range(grid@, i as int, j as int);
            }
            if i > 0 {
                cnt += Solution::dps1(grid, i - 1, j, dps, v);
            }
            if j > 0 {
                cnt += Solution::dps1(grid, i, j - 1, dps, v);
            }
            if i < grid.len() - 1 {
                cnt += Solution::dps1(grid, i + 1, j, dps, v);
            }
            if j < grid[0].len() - 1 {
                cnt += Solution::dps1(grid, i, j + 1, dps, v);
            }
            let ghost before = dps@;
            dps[i][j] = cnt % M;
            proof {
                let n = grid@[0]@.len() as int;
                assert forall|x: int, y: int| 0 <= x < dps@.len() && 0 <= y < n implies dps@[x]@[y]
                    == 0 || dps@[x]@[y] == paths_to(grid@, x, y) by {
                    if x == i && y == j {
                    } else {
                        assert(dps@[x]@[y] == before[x]@[y]);
                    }
                }
                assert forall|x: int, y: int|
                    0 <= x < grid@.len() && 0 <= y < n && old(dps)@[x]@[y] == paths_to(
                        grid@,
                        x,
                        y,
                    ) implies dps@[x]@[y] == paths_to(grid@, x, y) by {
                    if x == i && y == j {
                    } else {
                        assert(dps@[x]@[y] == before[x]@[y]);
                    }
                }
            }
        }
        dps[i][j]
    }

    /// What the cell `(i, j)` adds to the count of a neighbour with the
    /// number `v`.
    fn dps1(grid: &Vec<Vec<i32>>, i: usize, j: usize, dps: &mut Vec<Vec<i64>>, v: i32) -> (r: i64)
        requires
            has_width(grid@, grid@[0]@.len() as int),
            memo_ok(grid@, grid@[0]@.len() as int, old(dps)@),
            i < grid@.len(),
            j < grid@[0]@.len(),
        ensures
            memo_ok(grid@, grid@[0]@.len() as int, final(dps)@),
            r == paths_through(grid@, i as int, j as int, v),
            forall|x: int, y: int|
                0 <= x < grid@.len() && 0 <= y < grid@[0]@.len() && old(dps)@[x]@[y] == paths_to(
                    grid@,
                    x,
                    y,
                ) ==> final(dps)@[x]@[y] == paths_to(grid@, x, y),
        decreases v - i32::MIN, 0int,
    {
        if grid[i][j] < v {
            Solution::dps(grid, i, j, dps)
        } else {
            0
        }
    }
}

/// The first `upto` numbers of `s` read as the digits of one number to the
/// base 100001, the first of them the most significant.
pub open spec fn code(s: Seq<i32>, upto: int) -> int
    decreases upto,
{
    if upto <= 0 {
        0
    } else {
        code(s, upto - 1) * 100_001 + (s[upto - 1] as u128)
    }
}

/// Column `j` of the first `n` rows of the grid, from the top.
pub open spec fn column(grid: Seq<Vec<i32>>, j: int, n: int) -> Seq<i32> {
    Seq::new(n as nat, |i: int| grid[i]@[j])
}

/// Every code that is formed for a row or a column is a value of `u128`.
pub open spec fn codes_fit(grid: Seq<Vec<i32>>) -> bool {
    &&& forall|i: int, k: int|
        0 <= i < grid.len() && 0 <= k <= grid[i]@.len() ==> #[trigger] code(grid[i]@, k)
            <= u128::MAX
    &&& forall|j: int, k: int|
        0 <= j < grid.len() && 0 <= k <= grid.len() ==> #[trigger] code(
            column(grid, j, grid.len() as int),
            k,
        ) <= u128::MAX
}

/// How many of the first `upto` columns have the code `x`.
pub open spec fn columns_like(grid: Seq<Vec<i32>>, x: int, upto: int) -> int
    decreases upto,
{
    if upto <= 0 {
        0
    } else {
        columns_like(grid, x, upto - 1) + if code(
            column(grid, upto - 1, grid.len() as int),
            grid.len() as int,
        ) == x {
            1int
        } else {
            0int
        }
    }
}

/// How many pairs of one of the first `upto` rows and a column have the
/// same code.
pub open spec fn like_pairs(grid: Seq<Vec<i32>>, upto: int) -> int
    decreases upto,
{
    if upto <= 0 {
        0
    } else {
        like_pairs(grid, upto - 1) + columns_like(
            grid,
            code(grid[upto - 1]@, grid[upto - 1]@.len() as int),
            grid.len() as int,
        )
    }
}

/// Two sequences of equal length whose numbers lie from 0 to 100000 have
/// the same code only if they are the same.
pub proof fn lemma_code_tells_apart(a: Seq<i32>, b: Seq<i32>, upto: int)
    requires
        0 <= upto <= a.len(),
        upto <= b.len(),
        forall|i: int| 0 <= i < upto ==> 0 <= #[trigger] a[i] <= 100_000,
        forall|i: int| 0 <= i < upto ==> 0 <= #[trigger] b[i] <= 100_000,
        code(a, upto) == code(b, upto),
    ensures
        forall|i: int| 0 <= i < upto ==> a[i] == b[i],
    decreases upto,
{
    if upto > 0 {
        let (x, y) = (code(a, upto - 1), code(b, upto - 1));
        let (d, e) = (a[upto - 1] as int, b[upto - 1] as int);
        assert(a[upto - 1] as u128 == d);
        assert(b[upto - 1] as u128 == e);
        assert(x == y && d == e) by (nonlinear_arith)
            requires
                x * 100_001 + d == y * 100_001 + e,
                0 <= d <= 100_000,
                0 <= e <= 100_000,
        ;
        lemma_code_tells_apart(a, b, upto - 1);
    }
}

/// There are no more like columns than columns.
proof fn lemma_columns_like_bound(grid: Seq<Vec<i32>>, x: int, upto: int)
    requires
        0 <= upto,
    ensures
        0 <= columns_like(grid, x, upto) <= upto,
    decreases upto,
{
    if upto > 0 {
        lemma_columns_like_bound(grid, x, upto - 1);
    }
}

/// There are no more like pairs than pairs.
proof fn lemma_like_pairs_bound(grid: Seq<Vec<i32>>, upto: int)
    requires
        0 <= upto,
    ensures
        0 <= like_pairs(grid, upto) <= upto * grid.len(),
    decreases upto,
{
    if upto > 0 {
        lemma_like_pairs_bound(grid, upto - 1);
        lemma_columns_like_bound(
            grid,
            code(grid[upto - 1]@, grid[upto - 1]@.len() as int),
            grid.len() as int,
        );
        assert(upto * grid.len() == (upto - 1) * grid.len() + grid.len()) by (nonlinear_arith);
    } else {
        assert(upto * grid.len() == 0) by (nonlinear_arith)
            requires
                upto == 0,
        ;
    }
}

/// The grid is square, and its numbers lie from 0 to 100000.
pub open spec fn square_of_digits(grid: Seq<Vec<i32>>) -> bool {
    &&& forall|i: int| 0 <= i < grid.len() ==> (#[trigger] grid[i])@.len() == grid.len()
    &&& forall|i: int, j: int|
        0 <= i < grid.len() && 0 <= j < grid.len() ==> 0 <= #[trigger] grid[i]@[j] <= 100_000
}

/// How many of the first `upto` columns hold the numbers of `row`, in the
/// same order.
pub open spec fn columns_same(grid: Seq<Vec<i32>>, row: Seq<i32>, upto: int) -> int
    decreases upto,
{
    if upto <= 0 {
        0
    } else {
        columns_same(grid, row, upto - 1) + if column(grid, upto - 1, grid.len() as int) == row {
            1int
        } else {
            0int
        }
    }
}

/// How many pairs of one of the first `upto` rows and a column hold the
/// same numbers in the same order.
pub open spec fn same_pairs(grid: Seq<Vec<i32>>, upto: int) -> int
    decreases upto,
{
    if upto <= 0 {
        0
    } else {
        same_pairs(grid, upto - 1) + columns_same(grid, grid[upto - 1]@, grid.len() as int)
    }
}

/// In a square grid of numbers from 0 to 100000, a column has the code of a
/// row exactly if it holds the numbers of the row.
proof fn lemma_columns_same(grid: Seq<Vec<i32>>, r: int, upto: int)
    requires
        square_of_digits(grid),
        0 <= r < grid.len(),
        0 <= upto <= grid.len(),
    ensures
        columns_like(grid, code(grid[r]@, grid[r]@.len() as int), upto) == columns_same(
            grid,
            grid[r]@,
            upto,
        ),
    decreases upto,
{
    if upto > 0 {
        lemma_columns_same(grid, r, upto - 1);
        let n = grid.len() as int;
        let col = column(grid, upto - 1, n);
        let row = grid[r]@;
        assert forall|i: int| 0 <= i < n implies 0 <= #[trigger] col[i] <= 100_000 by {
            assert(col[i] == grid[i]@[upto - 1]);
        }
        assert forall|i: int| 0 <= i < n implies 0 <= #[trigger] row[i] <= 100_000 by {
            assert(row[i] == grid[r]@[i]);
        }
        if code(col, n) == code(row, n) {
            lemma_code_tells_apart(col, row, n);
            assert(col =~= row);
        }
    }
}

/// In a square grid of numbers from 0 to 100000, the pairs of a row and a
/// column with the same code are the pairs that hold the same numbers.
pub proof fn lemma_like_pairs_are_same(grid: Seq<Vec<i32>>, upto: int)
    requires
        square_of_digits(grid),
        0 <= upto <= grid.len(),
    ensures
        like_pairs(grid, upto) == same_pairs(grid, upto),
    decreases upto,
{
    if upto > 0 {
        lemma_like_pairs_are_same(grid, upto - 1);
        lemma_columns_same(grid, upto - 1, grid.len() as int);
    }
}

/// The number of pairs of a row and a column of a square grid that have the
/// same code: each is read as the digits of a number to the base 100001.
/// Where the grid is square and its numbers lie from 0 to 100000, this is
/// the number of pairs of a row and a column that hold the same numbers in
/// the same order. The grid has as many columns as rows; no row may be
/// shorter.
pub fn equal_pairs(grid: Vec<Vec<i32>>) -> (eq: i32)
    requires
        forall|i: int| 0 <= i < grid@.len() ==> (#[trigger] grid@[i])@.len() >= grid@.len(),
        codes_fit(grid@),
        grid@.len() * grid@.len() <= i32::MAX,
    ensures
        eq == like_pairs(grid@, grid@.len() as int),
        square_of_digits(grid@) ==> eq == same_pairs(grid@, grid@.len() as int),
{
    proof {
        if square_of_digits(grid@) {
            lemma_like_pairs_are_same(grid@, grid@.len() as int);
        }
    }
    let mut eq: i32 = 0;
    let n = grid.len();
    let mut transposed: Vec<u128> = Vec::with_capacity(n);
    let mut i: usize = 0;
    while i < n
        invariant
            n == grid@.len(),
            i <= n,
            forall|i: int| 0 <= i < grid@.len() ==> (#[trigger] grid@[i])@.len() >= grid@.len(),
            codes_fit(grid@),
            transposed@.len() == i,
            forall|j: int| 0 <= j < i ==> #[trigger] transposed@[j] == code(column(grid@, j, n as int), n as int),
        decreases n - i,
    {
        let mut sz: u128 = 0;
        let mut k: usize = 0;
        while k < n
            invariant
                n == grid@.len(),
                i < n,
                k <= n,
                forall|i: int| 0 <= i < grid@.len() ==> (#[trigger] grid@[i])@.len() >= grid@.len(),
                codes_fit(grid@),
                sz == code(column(grid@, i as int, n as int), k as int),
            decreases n - k,
        {
            proof {
                assert(code(column(grid@, i as int, n as int), k + 1) <= u128::MAX);
                assert(column(grid@, i as int, n as int)[k as int] == grid@[k as int]@[i as int]);
                assert(sz * 100_001 >= 0) by (nonlinear_arith)
                    requires
                        sz >= 0,
                ;
            }
            sz = sz * 100_001;
            sz = sz + grid[k][i] as u128;
            k += 1;
        }
        transposed.push(sz);
        i += 1;
    }
    let mut r: usize = 0;
    while r < n
        invariant
            n == grid@.len(),
            r <= n,
            n * n <= i32::MAX,
            codes_fit(grid@),
            transposed@.len() == n,
            forall|j: int| 0 <= j < n ==> #[trigger] transposed@[j] == code(column(grid@, j, n as int), n as int),
            eq == like_pairs(grid@, r as int),
        decreases n - r,
    {
        let row = &grid[r];
        let mut sz: u128 = 0;
        let mut k: usize = 0;
        while k < row.len()
            invariant
                r < n,
                n == grid@.len(),
                *row == grid@[r as int],
                k <= row@.len(),
                codes_fit(grid@),
                sz == code(row@, k as int),
            decreases row.len() - k,
        {
            proof {
                assert(code(grid@[r as int]@, k + 1) <= u128::MAX);
                assert(sz * 100_001 >= 0) by (nonlinear_arith)
                    requires
                        sz >= 0,
                ;
            }
            sz = sz * 100_001;
            sz = sz + row[k] as u128;
            k += 1;
        }
        let ghost before = eq as int;
        let mut c: usize = 0;
        proof {
            lemma_like_pairs_bound(grid@, r as int);
            lemma_like_pairs_bound(grid@, r + 1);
            assert((r + 1) * n <= n * n) by (nonlinear_arith)
                requires
                    r < n,
            ;
        }
        while c < n
            invariant
                n == grid@.len(),
                c <= n,
                transposed@.len() == n,
                forall|j: int| 0 <= j < n ==> #[trigger] transposed@[j] == code(column(grid@, j, n as int), n as int),
                eq == before + columns_like(grid@, sz as int, c as int),
                before + columns_like(grid@, sz as int, n as int) <= i32::MAX,
                0 <= before,
            decreases n - c,
        {
            proof {
                lemma_columns_like_mono(grid@, sz as int, c + 1, n as int);
                lemma_columns_like_bound(grid@, sz as int, c as int);
            }
            if sz == transposed[c] {
                eq += 1;
            }
            c += 1;
        }
        r += 1;
    }
    eq
}

/// More columns hold no fewer like columns.
proof fn lemma_columns_like_mono(grid: Seq<Vec<i32>>, x: int, a: int, b: int)
    requires
        0 <= a <= b,
    ensures
        columns_like(grid, x, a) <= columns_like(grid, x, b),
    decreases b - a,
{
    if a < b {
        lemma_columns_like_mono(grid, x, a, b - 1);
    }
}

} // verus!
