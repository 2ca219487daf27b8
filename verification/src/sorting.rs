//! Five ways to sort a vector of integers in place.
use vstd::prelude::*;
use crate::bags::{lemma_exchange_keeps_bag, lemma_same_bag_member};

verus! {

/// The numbers of `s` never fall from front to back.
pub open spec fn sorted(s: Seq<i32>) -> bool {
    forall|i: int, j: int| 0 <= i <= j < s.len() ==> s[i] <= s[j]
}

/// `a` holds the same numbers as `b`, each as often.
pub open spec fn rearranged(a: Seq<i32>, b: Seq<i32>) -> bool {
    a.to_multiset() == b.to_multiset()
}

/// A sequence in which no number is greater than the next is sorted.
proof fn lemma_neighbours_sorted(s: Seq<i32>)
    requires
        forall|i: int| 0 <= i < s.len() - 1 ==> s[i] <= #[trigger] s[i + 1],
    ensures
        sorted(s),
{
    assert forall|i: int, j: int| 0 <= i <= j < s.len() implies s[i] <= s[j] by {
        lemma_neighbours_climb(s, i, j);
    }
}

/// Along a sequence in which no number is greater than the next, nothing
/// falls.
proof fn lemma_neighbours_climb(s: Seq<i32>, i: int, j: int)
    requires
        forall|i: int| 0 <= i < s.len() - 1 ==> s[i] <= #[trigger] s[i + 1],
        0 <= i <= j < s.len(),
    ensures
        s[i] <= s[j],
    decreases j - i,
{
    if i < j {
        lemma_neighbours_climb(s, i, j - 1);
        assert(s[j - 1] <= s[j - 1 + 1]);
    }
}

/// Exchanges the numbers at `i` and `j`.
pub(crate) fn swap(nbs: &mut Vec<i32>, i: usize, j: usize)
    requires
        i < old(nbs)@.len(),
        j < old(nbs)@.len(),
    ensures
        final(nbs)@ == old(nbs)@.update(i as int, old(nbs)@[j as int]).update(
            j as int,
            old(nbs)@[i as int],
        ),
        final(nbs)@.to_multiset() == old(nbs)@.to_multiset(),
{
    let a = nbs[i];
    let b = nbs[j];
    proof {
        lemma_exchange_keeps_bag(nbs@, i as int, j as int);
    }
    nbs[i] = b;
    nbs[j] = a;
}

/// Insertion sort: every number in turn sinks to its place among those
/// before it.
pub fn insertion_sort(nbs: &mut Vec<i32>)
    ensures
        sorted(final(nbs)@),
        rearranged(final(nbs)@, old(nbs)@),
{
    let n = nbs.len();
    let mut i: usize = 1;
    while i < n
        invariant
            nbs@.len() == n,
            1 <= i,
            rearranged(nbs@, old(nbs)@),
            forall|a: int, b: int| 0 <= a <= b < i && b < n ==> nbs@[a] <= nbs@[b],
        decreases n - i,
    {
        let mut j: usize = i;
        while j > 0 && nbs[j - 1] > nbs[j]
            invariant
                nbs@.len() == n,
                j <= i < n,
                rearranged(nbs@, old(nbs)@),
                forall|a: int, b: int| 0 <= a <= b <= i && b != j ==> nbs@[a] <= nbs@[b],
            decreases j,
        {
            swap(nbs, j - 1, j);
            j -= 1;
        }
        i += 1;
    }
}

/// Bubble sort: passes over the whole vector that exchange neighbours out
/// of order, until a pass exchanges nothing. The vector must not be empty.
pub fn bubble_sort(nbs: &mut Vec<i32>)
    requires
        old(nbs)@.len() > 0,
    ensures
        sorted(final(nbs)@),
        rearranged(final(nbs)@, old(nbs)@),
{
    let n = nbs.len();
    let ghost mut passes: int = 0;
    loop
        invariant
            nbs@.len() == n,
            n > 0,
            0 <= passes <= n,
            rearranged(nbs@, old(nbs)@),
            forall|a: int, b: int| 0 <= a < b < n && b >= n - passes ==> nbs@[a] <= nbs@[b],
        ensures
            sorted(nbs@),
            rearranged(nbs@, old(nbs)@),
        decreases n - passes,
    {
        let mut changed = false;
        for i in 0..n - 1
            invariant
                nbs@.len() == n,
                n > 0,
                0 <= passes <= n,
                rearranged(nbs@, old(nbs)@),
                forall|a: int, b: int| 0 <= a < b < n && b >= n - passes ==> nbs@[a] <= nbs@[b],
                forall|a: int, b: int| 0 <= a < b <= i && b >= n - passes - 1 ==> nbs@[a] <= nbs@[b],
                forall|a: int| 0 <= a <= i ==> nbs@[a] <= nbs@[i as int],
                !changed ==> forall|a: int| 0 <= a < i ==> nbs@[a] <= #[trigger] nbs@[a + 1],
                changed ==> passes < n - 1,
        {
            if nbs[i] > nbs[i + 1] {
                swap(nbs, i, i + 1);
                changed = true;
            }
        }
        if !changed {
            proof {
                lemma_neighbours_sorted(nbs@);
            }
            break ;
        }
        proof {
            passes = passes + 1;
        }
    }
}

/// One more number taken from the front of `s` is one more number in the
/// bag of those taken.
proof fn lemma_take_one_more(s: Seq<i32>, i: int)
    requires
        0 <= i < s.len(),
    ensures
        s.take(i + 1).to_multiset() == s.take(i).to_multiset().insert(s[i]),
{
    assert(s.take(i + 1) =~= s.take(i).push(s[i]));
    vstd::seq_lib::to_multiset_build(s.take(i), s[i]);
}

/// Merge sort. The vector must not be empty.
pub fn merge_sort(nbs: &mut Vec<i32>)
    requires
        old(nbs)@.len() > 0,
    ensures
        sorted(final(nbs)@),
        rearranged(final(nbs)@, old(nbs)@),
{
    let l = nbs.len();
    let v = merge_sort_step(nbs, 0, l);
    proof {
        assert(nbs@.subrange(0, l as int) =~= nbs@);
    }
    *nbs = v;
}

/// The numbers of `nbs` from `low` up to, not including, `high`, sorted into
/// a new vector: each half is sorted by itself, then the two are merged.
fn merge_sort_step(nbs: &Vec<i32>, low: usize, high: usize) -> (ret: Vec<i32>)
    requires
        low < high <= nbs@.len(),
    ensures
        sorted(ret@),
        rearranged(ret@, nbs@.subrange(low as int, high as int)),
    decreases high - low,
{
    if low < high - 1 {
        let middle = low + (high - low) / 2;
        let v1 = merge_sort_step(nbs, low, middle);
        let v2 = merge_sort_step(nbs, middle, high);
        let mut i1: usize = 0;
        let mut i2: usize = 0;
        let mut ret: Vec<i32> = Vec::with_capacity(high - low);
        proof {
            broadcast use vstd::seq_lib::group_to_multiset_ensures;
            broadcast use vstd::multiset::group_multiset_axioms;

            assert(v1@.take(0) =~= Seq::<i32>::empty());
            assert(v2@.take(0) =~= Seq::<i32>::empty());
            assert(ret@ =~= Seq::<i32>::empty());
            assert(ret@.to_multiset().len() == 0);
            assert(ret@.to_multiset() =~= v1@.take(0).to_multiset().add(v2@.take(0).to_multiset()));
        }
        while i1 < v1.len() || i2 < v2.len()
            invariant
                i1 <= v1.len(),
                i2 <= v2.len(),
                sorted(v1@),
                sorted(v2@),
                sorted(ret@),
                ret@.to_multiset() == v1@.take(i1 as int).to_multiset().add(
                    v2@.take(i2 as int).to_multiset(),
                ),
                forall|k: int| 0 <= k < ret@.len() && i1 < v1.len() ==> ret@[k] <= v1@[i1 as int],
                forall|k: int| 0 <= k < ret@.len() && i2 < v2.len() ==> ret@[k] <= v2@[i2 as int],
            decreases v1.len() - i1 + v2.len() - i2,
        {
            let ghost before = ret@;
            if i1 < v1.len() && (i2 == v2.len() || v1[i1] < v2[i2]) {
                proof {
                    lemma_take_one_more(v1@, i1 as int);
                    vstd::seq_lib::to_multiset_build(before, v1@[i1 as int]);
                    assert(before.to_multiset().insert(v1@[i1 as int]) =~= v1@.take(
                        i1 + 1,
                    ).to_multiset().add(v2@.take(i2 as int).to_multiset()));
                }
                ret.push(v1[i1]);
                i1 += 1;
            } else {
                proof {
                    lemma_take_one_more(v2@, i2 as int);
                    vstd::seq_lib::to_multiset_build(before, v2@[i2 as int]);
                    assert(before.to_multiset().insert(v2@[i2 as int]) =~= v1@.take(
                        i1 as int,
                    ).to_multiset().add(v2@.take(i2 + 1).to_multiset()));
                }
                ret.push(v2[i2]);
                i2 += 1;
            }
        }
        proof {
            let whole = nbs@.subrange(low as int, high as int);
            let a = nbs@.subrange(low as int, middle as int);
            let b = nbs@.subrange(middle as int, high as int);
            assert(whole =~= a + b);
            vstd::seq_lib::lemma_multiset_commutative(a, b);
            assert(v1@.take(v1@.len() as int) =~= v1@);
            assert(v2@.take(v2@.len() as int) =~= v2@);
        }
        ret
    } else {
        let mut ret: Vec<i32> = Vec::new();
        ret.push(nbs[low]);
        proof {
            assert(ret@ =~= nbs@.subrange(low as int, high as int));
        }
        ret
    }
}

/// `a` is `b` with the numbers at the places from `low` to `high`, both
/// included, put in another order; the other places are as in `b`.
pub open spec fn rearranged_within(a: Seq<i32>, b: Seq<i32>, low: int, high: int) -> bool {
    &&& a.len() == b.len()
    &&& forall|k: int| 0 <= k < a.len() && !(low <= k <= high) ==> a[k] == b[k]
    &&& a.subrange(low, high + 1).to_multiset() == b.subrange(low, high + 1).to_multiset()
}

/// The numbers at the places from `low` to `high`, both included, never fall.
pub open spec fn sorted_within(s: Seq<i32>, low: int, high: int) -> bool {
    forall|i: int, j: int| low <= i <= j <= high ==> s[i] <= s[j]
}

/// Quick sort.
pub fn quick_sort(nbs: &mut Vec<i32>)
    ensures
        sorted(final(nbs)@),
        rearranged(final(nbs)@, old(nbs)@),
{
    if nbs.len() > 1 {
        let high = nbs.len() - 1;
        quick_sort_partial(nbs, 0, high);
        proof {
            assert(nbs@.subrange(0, high + 1) =~= nbs@);
            assert(old(nbs)@.subrange(0, high + 1) =~= old(nbs)@);
        }
    }
}

/// Quick sort of the places from `low` to `high`, both included. Where
/// `low` is not below `high` nothing is done.
pub fn quick_sort_partial(nbs: &mut Vec<i32>, low: usize, high: usize)
    requires
        low < high ==> high < old(nbs)@.len(),
    ensures
        low < high ==> rearranged_within(final(nbs)@, old(nbs)@, low as int, high as int),
        low < high ==> sorted_within(final(nbs)@, low as int, high as int),
        low >= high ==> final(nbs)@ == old(nbs)@,
    decreases high - low,
{
    if low < high {
        let p = partition(nbs, low, high);
        let ghost s1 = nbs@;
        quick_sort_partial(nbs, low, p);
        let ghost s2 = nbs@;
        quick_sort_partial(nbs, p + 1, high);
        proof {
            let s0 = old(nbs)@;
            let s3 = nbs@;
            let (l, m, h) = (low as int, p as int + 1, high as int + 1);
            assert(s3.subrange(l, m) =~= s2.subrange(l, m));
            assert(s2.subrange(m, h) =~= s1.subrange(m, h));
            assert(s1.subrange(l, h) =~= s1.subrange(l, m) + s1.subrange(m, h));
            assert(s3.subrange(l, h) =~= s3.subrange(l, m) + s3.subrange(m, h));
            vstd::seq_lib::lemma_multiset_commutative(s1.subrange(l, m), s1.subrange(m, h));
            vstd::seq_lib::lemma_multiset_commutative(s3.subrange(l, m), s3.subrange(m, h));
            assert forall|i: int, j: int| l <= i <= j < h implies s3[i] <= s3[j] by {
                if i < m && j >= m {
                    let a = lemma_same_bag_member(s3.subrange(l, m), s1.subrange(l, m), i - l);
                    let b = lemma_same_bag_member(s3.subrange(m, h), s1.subrange(m, h), j - m);
                    assert(s1[a + l] <= s1[b + m]);
                }
            }
        }
    }
}

/// Moves the numbers at the places from `low` to `high` so that, for the
/// place `p` returned, none of those up to `p` is greater than any of those
/// after `p`. The number in the middle serves as the pivot.
fn partition(nbs: &mut Vec<i32>, low: usize, high: usize) -> (p: usize)
    requires
        low < high < old(nbs)@.len(),
    ensures
        low <= p < high,
        rearranged_within(final(nbs)@, old(nbs)@, low as int, high as int),
        forall|a: int, b: int| low <= a <= p && p < b <= high ==> final(nbs)@[a] <= final(nbs)@[b],
{
    let pivot: i32 = nbs[low + (high - low) / 2];
    let mut i: usize = low;
    let mut j: usize = high;
    let ghost mut si: int = low + (high - low) / 2;
    let ghost mut sj: int = low + (high - low) / 2;
    loop
        invariant
            low < high < nbs@.len(),
            low <= i,
            j <= high,
            rearranged_within(nbs@, old(nbs)@, low as int, high as int),
            i <= si <= high,
            nbs@[si] >= pivot,
            low <= sj <= j,
            nbs@[sj] <= pivot,
            forall|k: int| low <= k < i ==> nbs@[k] <= pivot,
            forall|k: int| j < k <= high ==> nbs@[k] >= pivot,
            j == high ==> si < high,
        ensures
            low <= j < high,
            rearranged_within(nbs@, old(nbs)@, low as int, high as int),
            forall|k: int| low <= k <= j ==> nbs@[k] <= pivot,
            forall|k: int| j < k <= high ==> nbs@[k] >= pivot,
        decreases j,
    {
        while nbs[i] < pivot
            invariant
                high < nbs@.len(),
                low <= i <= si <= high,
                nbs@[si] >= pivot,
                forall|k: int| low <= k < i ==> nbs@[k] <= pivot,
            decreases si - i,
        {
            i += 1;
        }
        let ghost j0 = j;
        while nbs[j] > pivot
            invariant
                high < nbs@.len(),
                low <= sj <= j <= high,
                j <= j0,
                j == high ==> si < high,
                nbs@[sj] <= pivot,
                forall|k: int| j < k <= high ==> nbs@[k] >= pivot,
            decreases j - sj,
        {
            j -= 1;
        }
        if i >= j {
            break ;
        }
        let ghost before = nbs@;
        swap(nbs, i, j);
        proof {
            let (l, h) = (low as int, high as int + 1);
            let sub = before.subrange(l, h);
            lemma_exchange_keeps_bag(sub, i - l, j - l);
            assert(nbs@.subrange(l, h) =~= sub.update(i - l, sub[j - l]).update(j - l, sub[i - l]));
            si = j as int;
            sj = i as int;
        }
        i += 1;
        j -= 1;
    }
    j
}

/// The place of the parent of the place `k` in a heap.
pub open spec fn parent_of(k: int) -> int {
    (k - 1) / 2
}

/// The number at `k` is not greater than its parent.
pub open spec fn under_parent(s: Seq<i32>, k: int) -> bool {
    s[parent_of(k)] >= s[k]
}

/// The number at `k` is not greater than the parent of its parent.
spec fn under_grandparent(s: Seq<i32>, k: int) -> bool {
    s[parent_of(parent_of(k))] >= s[k]
}

/// The first `len` numbers are in heap order: none is greater than its
/// parent.
pub open spec fn heap_order(s: Seq<i32>, len: int) -> bool {
    forall|k: int| 1 <= k < len ==> #[trigger] under_parent(s, k)
}

/// The first `len` numbers are in heap order but for the children of
/// `root`, which may be greater than it but not than its parent.
spec fn heap_below(s: Seq<i32>, len: int, root: int) -> bool {
    &&& forall|k: int| 1 <= k < len && parent_of(k) != root ==> #[trigger] under_parent(s, k)
    &&& root >= 1 ==> forall|k: int|
        1 <= k < len && parent_of(k) == root ==> #[trigger] under_grandparent(s, k)
}

/// The first `len` numbers are in heap order but for the number at
/// `child`, which may be greater than its parent; its children are not
/// greater than its parent.
spec fn heap_above(s: Seq<i32>, len: int, child: int) -> bool {
    &&& forall|k: int| 1 <= k < len && k != child ==> #[trigger] under_parent(s, k)
    &&& child >= 1 ==> forall|k: int|
        1 <= k < len && parent_of(k) == child ==> #[trigger] under_grandparent(s, k)
}

/// The numbers after the place `end` never fall, and none of them is less
/// than a number up to `end`.
spec fn tail_settled(s: Seq<i32>, end: int) -> bool {
    &&& forall|a: int, b: int| end < a <= b < s.len() ==> s[a] <= s[b]
    &&& forall|a: int, b: int| 0 <= a <= end && end < b < s.len() ==> s[a] <= s[b]
}

/// The children of a place are the two places after twice that place.
proof fn lemma_children(k: int, root: int)
    requires
        k >= 1,
    ensures
        parent_of(k) == root <==> k == 2 * root + 1 || k == 2 * root + 2,
        0 <= parent_of(k) < k,
{
}

/// In heap order the first number is the greatest.
proof fn lemma_root_is_greatest(s: Seq<i32>, len: int, k: int)
    requires
        heap_order(s, len),
        0 <= k < len,
    ensures
        s[0] >= s[k],
    decreases k,
{
    if k >= 1 {
        lemma_children(k, 0);
        assert(under_parent(s, k));
        lemma_root_is_greatest(s, len, parent_of(k));
    }
}

/// Exchanging a root with the greater of its children, which is greater
/// than it, moves the one place where the heap is out of order down to
/// that child.
proof fn lemma_sink_step(s: Seq<i32>, t: Seq<i32>, len: int, root: int, swp: int)
    requires
        heap_below(s, len, root),
        0 <= root < swp < len <= s.len(),
        parent_of(swp) == root,
        s[swp] > s[root],
        forall|k: int| 1 <= k < len && parent_of(k) == root ==> s[swp] >= #[trigger] s[k],
        t == s.update(root, s[swp]).update(swp, s[root]),
    ensures
        heap_below(t, len, swp),
{
    assert forall|k: int| 1 <= k < len && parent_of(k) != swp implies #[trigger] under_parent(
        t,
        k,
    ) by {
        lemma_children(k, root);
        lemma_children(k, swp);
        if parent_of(k) == root {
            assert(s[swp] >= s[k]);
        } else if k == root {
            assert(under_grandparent(s, swp));
            lemma_children(root, parent_of(root));
        } else {
            assert(under_parent(s, k));
        }
    }
    assert forall|k: int| 1 <= k < len && parent_of(k) == swp implies #[trigger] under_grandparent(
        t,
        k,
    ) by {
        lemma_children(k, swp);
        assert(under_parent(s, k));
    }
}

/// Exchanging a number with its parent, which is less, moves the one place
/// where the heap is out of order up to that parent.
proof fn lemma_climb_step(s: Seq<i32>, t: Seq<i32>, len: int, child: int)
    requires
        heap_above(s, len, child),
        1 <= child < len <= s.len(),
        s[parent_of(child)] < s[child],
        t == s.update(parent_of(child), s[child]).update(child, s[parent_of(child)]),
    ensures
        heap_above(t, len, parent_of(child)),
{
    let p = parent_of(child);
    lemma_children(child, p);
    assert forall|k: int| 1 <= k < len && k != p implies #[trigger] under_parent(t, k) by {
        lemma_children(k, p);
        lemma_children(k, child);
        if k == child {
        } else if parent_of(k) == child {
            assert(under_grandparent(s, k));
        } else {
            assert(under_parent(s, k));
        }
    }
    if p >= 1 {
        lemma_children(p, parent_of(p));
        assert(under_parent(s, p));
        assert forall|k: int| 1 <= k < len && parent_of(k) == p implies #[trigger] under_grandparent(
            t,
            k,
        ) by {
            lemma_children(k, p);
            if k != child {
                assert(under_parent(s, k));
            }
        }
    }
}

/// Exchanging the first number of a heap that ends at `end` with the last
/// leaves the heap before `end` in order but for the children of the root.
proof fn lemma_heap_without_greatest(heap: Seq<i32>, before: Seq<i32>, end: int)
    requires
        1 <= end < heap.len(),
        heap_order(heap, end + 1),
        before == heap.update(end, heap[0]).update(0, heap[end]),
    ensures
        heap_below(before, end, 0),
{
    assert forall|k: int| 1 <= k < end && parent_of(k) != 0 implies #[trigger] under_parent(
        before,
        k,
    ) by {
        lemma_children(k, 0);
        assert(under_parent(heap, k));
    }
}

/// Exchanging the first number of a heap that ends at `end` with the last
/// settles the place `end`.
proof fn lemma_take_greatest(heap: Seq<i32>, before: Seq<i32>, end: int)
    requires
        1 <= end < heap.len(),
        heap_order(heap, end + 1),
        tail_settled(heap, end),
        before == heap.update(end, heap[0]).update(0, heap[end]),
    ensures
        tail_settled(before, end - 1),
{
    let top = heap[0];
    assert forall|a: int| 0 <= a <= end implies #[trigger] heap[a] <= top by {
        lemma_root_is_greatest(heap, end + 1, a);
    }
    assert forall|a: int, b: int| end - 1 < a <= b < before.len() implies before[a]
        <= before[b] by {
        if a == end && b > end {
            assert(heap[0] <= heap[b]);
        }
    }
    assert forall|a: int, b: int| 0 <= a <= end - 1 && end - 1 < b < before.len() implies before[a]
        <= before[b] by {
        if b == end {
            if a == 0 {
                assert(heap[end] <= top);
            } else {
                assert(heap[a] <= top);
            }
        } else if a == 0 {
            assert(heap[end] <= heap[b]);
        }
    }
}

/// Rearranging the numbers up to `end` leaves the numbers after `end`
/// settled.
proof fn lemma_tail_stays_settled(before: Seq<i32>, after: Seq<i32>, end: int)
    requires
        0 <= end < before.len(),
        tail_settled(before, end),
        rearranged_within(after, before, 0, end),
    ensures
        tail_settled(after, end),
{
    assert forall|a: int, b: int| 0 <= a <= end && end < b < after.len() implies after[a]
        <= after[b] by {
        let j = lemma_same_bag_member(after.subrange(0, end + 1), before.subrange(0, end + 1), a);
        assert(before[j] <= before[b]);
    }
}

/// Heap sort: the numbers are put in heap order, then the greatest is
/// taken from the heap to the place behind it, and the heap is put in
/// order again, until one number is left. The vector must not be empty,
/// nor longer than half the greatest `usize`.
pub fn heap_sort(nbs: &mut Vec<i32>)
    requires
        0 < old(nbs)@.len() <= usize::MAX / 2,
    ensures
        sorted(final(nbs)@),
        rearranged(final(nbs)@, old(nbs)@),
{
    heapify(nbs);
    let n = nbs.len();
    let mut end: usize = n - 1;
    while end > 0
        invariant
            n == nbs@.len(),
            end < n <= usize::MAX / 2,
            rearranged(nbs@, old(nbs)@),
            heap_order(nbs@, end + 1),
            tail_settled(nbs@, end as int),
        decreases end,
    {
        let ghost heap = nbs@;
        swap(nbs, end, 0);
        let ghost before = nbs@;
        end -= 1;
        proof {
            lemma_heap_without_greatest(heap, before, end + 1);
            lemma_take_greatest(heap, before, end + 1);
        }
        sift_down(nbs, 0, end);
        proof {
            lemma_tail_stays_settled(before, nbs@, end as int);
        }
    }
    proof {
        assert forall|a: int, b: int| 0 <= a <= b < n implies nbs@[a] <= nbs@[b] by {}
    }
}

/// Puts the numbers in heap order: each in turn climbs from its place.
fn heapify(nbs: &mut Vec<i32>)
    ensures
        heap_order(final(nbs)@, final(nbs)@.len() as int),
        final(nbs)@.len() == old(nbs)@.len(),
        rearranged(final(nbs)@, old(nbs)@),
{
    let mut end: usize = 1;
    let c = nbs.len();
    while end < c
        invariant
            c == nbs@.len(),
            1 <= end,
            c >= 1 ==> end <= c,
            rearranged(nbs@, old(nbs)@),
            heap_order(nbs@, if end <= c {
                end as int
            } else {
                0
            }),
        decreases c - end,
    {
        sift_up(nbs, 0, end);
        end += 1;
    }
}

/// Lets the number at `start`, the root, sink in the heap that ends at
/// `end`: while a child of it is greater, it is exchanged with the greatest
/// of its children. The heap must be in order but for the children of the
/// root.
fn sift_down(nbs: &mut Vec<i32>, start: usize, end: usize)
    requires
        start == 0,
        end < old(nbs)@.len() <= usize::MAX / 2,
        heap_below(old(nbs)@, end + 1, 0),
    ensures
        heap_order(final(nbs)@, end + 1),
        rearranged(final(nbs)@, old(nbs)@),
        rearranged_within(final(nbs)@, old(nbs)@, 0, end as int),
{
    let mut root: usize = start;
    while root <= end && heap_left(root) <= end
        invariant
            end < nbs@.len() <= usize::MAX / 2,
            root <= end,
            rearranged(nbs@, old(nbs)@),
            rearranged_within(nbs@, old(nbs)@, 0, end as int),
            heap_below(nbs@, end + 1, root as int),
        ensures
            heap_order(nbs@, end + 1),
            rearranged(nbs@, old(nbs)@),
            rearranged_within(nbs@, old(nbs)@, 0, end as int),
        decreases end - root,
    {
        let child = heap_left(root);
        let mut swp = root;
        if nbs[swp] < nbs[child] {
            swp = child;
        }
        if child + 1 <= end && nbs[swp] < nbs[child + 1] {
            swp = child + 1;
        }
        let ghost before = nbs@;
        proof {
            assert forall|k: int| 1 <= k < end + 1 && parent_of(k) == root implies before[swp as int]
                >= #[trigger] before[k] by {
                lemma_children(k, root as int);
            }
        }
        if swp == root {
            proof {
                assert forall|k: int| 1 <= k < end + 1 implies #[trigger] under_parent(before, k) by {
                    if parent_of(k) == root {
                        assert(before[swp as int] >= before[k]);
                    }
                }
            }
            break ;
        } else {
            swap(nbs, root, swp);
            proof {
                let h = end as int + 1;
                let sub = before.subrange(0, h);
                lemma_exchange_keeps_bag(sub, root as int, swp as int);
                assert(nbs@.subrange(0, h) =~= sub.update(root as int, sub[swp as int]).update(
                    swp as int,
                    sub[root as int],
                ));
                lemma_children(swp as int, root as int);
                lemma_sink_step(before, nbs@, h, root as int, swp as int);
            }
            root = swp;
        }
    }
    proof {
        let s = nbs@;
        assert forall|k: int| 1 <= k < end + 1 implies #[trigger] under_parent(s, k) by {
            lemma_children(k, root as int);
        }
    }
}

/// Lets the number at `end` climb towards `start`, the root: while it is
/// greater than its parent, the two are exchanged. The numbers before `end`
/// must be in heap order.
fn sift_up(nbs: &mut Vec<i32>, start: usize, end: usize)
    requires
        start == 0,
        end < old(nbs)@.len(),
        heap_order(old(nbs)@, end as int),
    ensures
        heap_order(final(nbs)@, end + 1),
        final(nbs)@.len() == old(nbs)@.len(),
        rearranged(final(nbs)@, old(nbs)@),
{
    let mut child: usize = end;
    proof {
        let s = nbs@;
        assert forall|k: int| 1 <= k < end + 1 && k != end implies #[trigger] under_parent(s, k) by {}
        assert forall|k: int| 1 <= k < end + 1 && parent_of(k) == end implies #[trigger] under_grandparent(
            s,
            k,
        ) by {
            lemma_children(k, end as int);
        }
    }
    while child > start
        invariant
            start == 0,
            child <= end < nbs@.len(),
            nbs@.len() == old(nbs)@.len(),
            rearranged(nbs@, old(nbs)@),
            heap_above(nbs@, end + 1, child as int),
        ensures
            heap_order(nbs@, end + 1),
            nbs@.len() == old(nbs)@.len(),
            rearranged(nbs@, old(nbs)@),
        decreases child,
    {
        let p = heap_parent(child);
        let ghost before = nbs@;
        if nbs[p] < nbs[child] {
            swap(nbs, p, child);
            proof {
                lemma_climb_step(before, nbs@, end + 1, child as int);
            }
            child = p;
        } else {
            proof {
                assert forall|k: int| 1 <= k < end + 1 implies #[trigger] under_parent(before, k) by {}
            }
            break ;
        }
    }
    proof {
        let s = nbs@;
        assert forall|k: int| 1 <= k < end + 1 implies #[trigger] under_parent(s, k) by {}
    }
}

/// The place of the parent of the place `i`, which is not the root.
fn heap_parent(i: usize) -> (p: usize)
    requires
        i >= 1,
    ensures
        p == (i - 1) / 2,
{
    (i - 1) / 2
}

/// The place of the left child of the place `i`.
fn heap_left(i: usize) -> (c: usize)
    requires
        i <= usize::MAX / 2 - 1,
    ensures
        c == 2 * i + 1,
{
    2 * i + 1
}

/// The place of the right child of the place `i`.
#[allow(dead_code)]
fn heap_right(i: usize) -> (c: usize)
    requires
        i <= usize::MAX / 2 - 1,
    ensures
        c == 2 * i + 2,
{
    2 * i + 2
}

} // verus!
