//! Problems on binary trees of integers.
use vstd::prelude::*;
use crate::bags::lemma_same_bag_member;
use crate::numbers::fits_i32;
use crate::sorting::{quick_sort, rearranged, sorted};

verus! {

/// A node of a binary tree of integers.
#[derive(Debug, PartialEq, Eq)]
pub struct TreeNode {
    pub val: i32,
    pub left: Option<Box<TreeNode>>,
    pub right: Option<Box<TreeNode>>,
}

/// The numbers of the subtree: that of the node, then those of its left
/// subtree, then those of its right subtree.
pub open spec fn values(node: Option<Box<TreeNode>>) -> Seq<i32>
    decreases node,
{
    match node {
        None => Seq::empty(),
        Some(n) => seq![n.val] + values(n.left) + values(n.right),
    }
}

/// The number of nodes on the longest path down from the slot.
pub open spec fn height(node: Option<Box<TreeNode>>) -> nat
    decreases node,
{
    match node {
        None => 0,
        Some(n) => 1 + if height(n.left) >= height(n.right) {
            height(n.left)
        } else {
            height(n.right)
        },
    }
}

/// The least difference between a number among the first `upto` of `s` and
/// the number before it; the greatest `i32` where there is no such pair.
pub open spec fn least_gap(s: Seq<i32>, upto: int) -> int
    decreases upto,
{
    if upto <= 1 {
        i32::MAX as int
    } else if s[upto - 1] - s[upto - 2] < least_gap(s, upto - 1) {
        s[upto - 1] - s[upto - 2]
    } else {
        least_gap(s, upto - 1)
    }
}

/// In a sorted sequence the least gap between neighbours is the least
/// difference between any two numbers, and one of the gaps.
pub proof fn lemma_least_gap(s: Seq<i32>, upto: int)
    requires
        sorted(s),
        0 <= upto <= s.len(),
    ensures
        forall|a: int, b: int| 0 <= a < b < upto ==> least_gap(s, upto) <= #[trigger] (s[b] - s[a]),
        least_gap(s, upto) == i32::MAX || exists|a: int|
            1 <= a < upto && least_gap(s, upto) == #[trigger] s[a] - s[a - 1],
    decreases upto,
{
    if upto > 1 {
        lemma_least_gap(s, upto - 1);
        assert forall|a: int, b: int| 0 <= a < b < upto implies least_gap(s, upto) <= #[trigger] (s[b]
            - s[a]) by {
            if b == upto - 1 {
                assert(s[a] <= s[upto - 2]);
            }
        }
        if s[upto - 1] - s[upto - 2] < least_gap(s, upto - 1) {
            assert(least_gap(s, upto) == s[upto - 1] - s[upto - 1 - 1]);
        } else if least_gap(s, upto - 1) != i32::MAX {
            let a = choose|a: int|
                1 <= a < upto - 1 && least_gap(s, upto - 1) == #[trigger] s[a] - s[a - 1];
            assert(least_gap(s, upto) == s[a] - s[a - 1]);
        }
    }
}

/// Appends the numbers of the subtree to `v`.
fn collect_values(v: &mut Vec<i32>, node: &Option<Box<TreeNode>>)
    ensures
        final(v)@ == old(v)@ + values(*node),
    decreases *node,
{
    if let Some(node) = node {
        v.push(node.val);
        collect_values(v, &node.left);
        collect_values(v, &node.right);
        proof {
            assert(v@ =~= old(v)@ + (seq![node.val] + values(node.left) + values(node.right)));
        }
    }
}

impl TreeNode {
    /// A node without children.
    #[inline]
    pub fn new(val: i32) -> (n: Self)
        ensures
            n.val == val,
            n.left is None,
            n.right is None,
    {
        TreeNode { val, left: None, right: None }
    }
}

/// The least difference between two numbers of the tree: zero for the empty
/// tree, the greatest `i32` for a tree of one node, else the least gap
/// between neighbours when the numbers are put in order. No two numbers of
/// the tree may differ by more than the greatest `i32`.
pub fn get_minimum_difference(root: Option<Box<TreeNode>>) -> (r: i32)
    requires
        forall|i: int, j: int|
            0 <= i < values(root).len() && 0 <= j < values(root).len() ==> #[trigger] (values(
                root,
            )[i] - values(root)[j]) <= i32::MAX,
    ensures
        root is None ==> r == 0,
        root is Some ==> exists|s: Seq<i32>|
            sorted(s) && rearranged(s, values(root)) && r == least_gap(s, s.len() as int),
        root is Some ==> forall|i: int, j: int|
            0 <= i < values(root).len() && 0 <= j < values(root).len() && #[trigger] values(root)[i]
                > #[trigger] values(root)[j] ==> r <= values(root)[i] - values(root)[j],
{
    if root.is_some() {
        let mut v: Vec<i32> = Vec::new();
        collect_values(&mut v, &root);
        proof {
            assert(v@ =~= values(root));
        }
        quick_sort(&mut v);
        proof {
            vstd::seq_lib::to_multiset_len(v@);
            vstd::seq_lib::to_multiset_len(values(root));
        }
        let mut min: i32 = i32::MAX;
        let mut prev: i32 = v[0];
        let mut k: usize = 1;
        while k < v.len()
            invariant
                1 <= k <= v.len(),
                sorted(v@),
                rearranged(v@, values(root)),
                forall|i: int, j: int|
                    0 <= i < values(root).len() && 0 <= j < values(root).len() ==> #[trigger] (values(
                        root,
                    )[i] - values(root)[j]) <= i32::MAX,
                prev == v@[k - 1],
                min == least_gap(v@, k as int),
            decreases v.len() - k,
        {
            let ix = v[k];
            proof {
                let a = lemma_same_bag_member(v@, values(root), k as int);
                let b = lemma_same_bag_member(v@, values(root), k - 1);
                assert(values(root)[a] - values(root)[b] <= i32::MAX);
            }
            let gap = ix - prev;
            if gap < min {
                min = gap;
            }
            prev = ix;
            k += 1;
        }
        proof {
            lemma_least_gap(v@, v@.len() as int);
            assert forall|i: int, j: int|
                0 <= i < values(root).len() && 0 <= j < values(root).len() && #[trigger] values(
                    root,
                )[i] > #[trigger] values(root)[j] implies min <= values(root)[i] - values(
                root,
            )[j] by {
                let a = lemma_same_bag_member(values(root), v@, i);
                let b = lemma_same_bag_member(values(root), v@, j);
                if a < b {
                    assert(v@[a] <= v@[b]);
                }
                assert(min <= v@[a] - v@[b]);
            }
        }
        min
    } else {
        0
    }
}

/// The sums of the levels after the subtree, whose root stands on `level`,
/// has been added to the sums `acc`: the node's number is added to the sum
/// of its level, which is zero if it was not there, then the left subtree
/// is added, then the right.
pub open spec fn levels_after(acc: Seq<int>, level: nat, node: Option<Box<TreeNode>>) -> Seq<int>
    decreases node,
{
    match node {
        None => acc,
        Some(n) => {
            let wide = widened(acc, level + 1);
            let here = wide.update(level as int, wide[level as int] + n.val);
            levels_after(levels_after(here, level + 1, n.left), level + 1, n.right)
        },
    }
}

/// `acc` with zeros appended until it has `len` numbers.
pub open spec fn widened(acc: Seq<int>, len: nat) -> Seq<int>
    decreases len - acc.len(),
{
    if acc.len() >= len {
        acc
    } else {
        widened(acc.push(0), len)
    }
}

/// Every sum that is formed while the subtree is added is a value of `i32`.
pub open spec fn levels_fit(acc: Seq<int>, level: nat, node: Option<Box<TreeNode>>) -> bool
    decreases node,
{
    match node {
        None => true,
        Some(n) => {
            let wide = widened(acc, level + 1);
            let here = wide.update(level as int, wide[level as int] + n.val);
            &&& fits_i32(wide[level as int] + n.val)
            &&& levels_fit(here, level + 1, n.left)
            &&& levels_fit(levels_after(here, level + 1, n.left), level + 1, n.right)
        },
    }
}

/// The place of the first greatest among the first `upto` sums and that
/// sum; the place is -1 where no sum is above the least `i32`.
pub open spec fn first_greatest(sums: Seq<int>, upto: int) -> (int, int)
    decreases upto,
{
    if upto <= 0 {
        (-1, i32::MIN as int)
    } else if sums[upto - 1] > first_greatest(sums, upto - 1).1 {
        (upto - 1, sums[upto - 1])
    } else {
        first_greatest(sums, upto - 1)
    }
}

/// The sums as integers.
spec fn as_ints(v: Seq<i32>) -> Seq<int> {
    v.map_values(|x: i32| x as int)
}

/// Widening keeps what is there and appends zeros only.
proof fn lemma_widened(acc: Seq<int>, len: nat)
    ensures
        widened(acc, len).len() == if acc.len() >= len {
            acc.len()
        } else {
            len
        },
        forall|i: int| 0 <= i < acc.len() ==> widened(acc, len)[i] == acc[i],
        forall|i: int| acc.len() <= i < len ==> widened(acc, len)[i] == 0,
    decreases len - acc.len(),
{
    if acc.len() < len {
        let more = acc.push(0);
        lemma_widened(more, len);
        assert forall|i: int| 0 <= i < acc.len() implies widened(acc, len)[i] == acc[i] by {
            assert(more[i] == acc[i]);
        }
        assert forall|i: int| acc.len() <= i < len implies widened(acc, len)[i] == 0 by {
            if i == acc.len() {
                assert(more[i] == 0);
            }
        }
    }
}

/// Adds the subtree, whose root stands on `level`, to the sums of the
/// levels.
fn add_levels(v: &mut Vec<i32>, level: usize, node: &Option<Box<TreeNode>>)
    requires
        levels_fit(as_ints(old(v)@), level as nat, *node),
        level + height(*node) <= usize::MAX,
    ensures
        as_ints(final(v)@) == levels_after(as_ints(old(v)@), level as nat, *node),
    decreases *node,
{
    if let Some(node) = node {
        let ghost acc = as_ints(v@);
        proof {
            lemma_widened(acc, (level + 1) as nat);
        }
        while v.len() < level + 1
            invariant
                level < usize::MAX,
                widened(as_ints(v@), (level + 1) as nat) == widened(acc, (level + 1) as nat),
            decreases level + 1 - v.len(),
        {
            proof {
                assert(as_ints(v@.push(0)) =~= as_ints(v@).push(0));
            }
            v.push(0);
        }
        proof {
            assert(as_ints(v@) == widened(acc, (level + 1) as nat));
            assert(as_ints(v@)[level as int] == v@[level as int]);
        }
        let ghost wide = as_ints(v@);
        let x = v[level] + node.val;
        v[level] = x;
        proof {
            assert(as_ints(v@) =~= wide.update(level as int, wide[level as int] + node.val));
        }
        add_levels(v, level + 1, &node.left);
        add_levels(v, level + 1, &node.right);
    }
}

/// The level with the greatest sum of its numbers, the first of them where
/// several have it; the root stands on level 1. Zero for the empty tree.
/// Every sum formed on the way must be a value of `i32`, and the tree must
/// have fewer levels than the greatest `i32`.
pub fn max_level_sum(root: Option<Box<TreeNode>>) -> (r: i32)
    requires
        levels_fit(Seq::empty(), 0, root),
        height(root) < i32::MAX,
    ensures
        r == if root is None {
            0
        } else {
            first_greatest(
                levels_after(Seq::empty(), 0, root),
                levels_after(Seq::empty(), 0, root).len() as int,
            ).0 + 1
        },
{
    if root.is_some() {
        let mut v: Vec<i32> = Vec::new();
        proof {
            assert(as_ints(v@) =~= Seq::<int>::empty());
        }
        add_levels(&mut v, 0, &root);
        proof {
            lemma_levels_len(Seq::empty(), 0, root);
        }
        let mut max: i32 = i32::MIN;
        let mut max_ix: i32 = -1;
        let mut ix: usize = 0;
        while ix < v.len()
            invariant
                ix <= v.len(),
                v@.len() < i32::MAX,
                (max_ix as int, max as int) == first_greatest(as_ints(v@), ix as int),
                -1 <= max_ix < ix,
            decreases v.len() - ix,
        {
            let s = v[ix];
            proof {
                assert(as_ints(v@)[ix as int] == s);
            }
            if s > max {
                max = s;
                max_ix = ix as i32;
            }
            ix += 1;
        }
        max_ix + 1
    } else {
        0
    }
}

/// After a subtree has been added there are as many sums as its deepest
/// level asks for, or as there were.
proof fn lemma_levels_len(acc: Seq<int>, level: nat, node: Option<Box<TreeNode>>)
    ensures
        levels_after(acc, level, node).len() == if acc.len() >= level + height(node) || node is None {
            acc.len()
        } else {
            level + height(node)
        },
    decreases node,
{
    match node {
        None => {},
        Some(n) => {
            let wide = widened(acc, level + 1);
            lemma_widened(acc, level + 1);
            let here = wide.update(level as int, wide[level as int] + n.val);
            lemma_levels_len(here, level + 1, n.left);
            lemma_levels_len(levels_after(here, level + 1, n.left), level + 1, n.right);
        },
    }
}

} // verus!
