//! Points on lines: the counting that follows once every pair of points
//! has been given the number of the line through it.
use vstd::prelude::*;
use std::collections::HashSet;

verus! {

broadcast use vstd::std_specs::hash::group_hash_axioms;

/// The points met in the run of pairs with one line number that ends at
/// the place `j`: those of the pair at `j`, and those of the run before it
/// if the pair before has the same line number.
pub open spec fn run_points(lines: Seq<(usize, usize, usize)>, j: int) -> Set<usize>
    decreases j,
{
    if j >= 1 && lines[j].0 == lines[j - 1].0 {
        run_points(lines, j - 1).insert(lines[j].1).insert(lines[j].2)
    } else {
        Set::empty().insert(lines[j].1).insert(lines[j].2)
    }
}

/// The greatest number of points met in a run among the first `upto`
/// pairs, counted where a run is continued; two at least.
pub open spec fn most_points(lines: Seq<(usize, usize, usize)>, upto: int) -> nat
    decreases upto,
{
    if upto <= 1 {
        2
    } else if lines[upto - 1].0 == lines[upto - 2].0 && run_points(lines, upto - 1).len()
        > most_points(lines, upto - 1) {
        run_points(lines, upto - 1).len()
    } else {
        most_points(lines, upto - 1)
    }
}

/// The greatest number of points on one line, two at least, where every
/// entry holds the number of a line and the numbers of two points on it,
/// and the entries of one line stand next to each other. There must be an
/// entry.
pub fn max_points_in_runs(lines: &Vec<(usize, usize, usize)>) -> (max: usize)
    requires
        lines@.len() > 0,
    ensures
        max == most_points(lines@, lines@.len() as int),
{
    let mut max: usize = 2;
    let mut line: HashSet<usize> = HashSet::new();
    let mut fst = lines[0];
    line.insert(fst.1);
    line.insert(fst.2);
    let mut k: usize = 1;
    while k < lines.len()
        invariant
            1 <= k <= lines@.len(),
            fst.0 == lines@[k - 1].0,
            line@ == run_points(lines@, k - 1),
            max == most_points(lines@, k as int),
        decreases lines.len() - k,
    {
        let f = lines[k];
        if f.0 == fst.0 {
            line.insert(f.1);
            line.insert(f.2);
            let n = line.len();
            if n > max {
                max = n;
            }
        } else {
            fst = f;
            line.clear();
            line.insert(fst.1);
            line.insert(fst.2);
        }
        k += 1;
    }
    max
}

} // verus!
