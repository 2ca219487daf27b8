//! What holds of the operations on a search tree, proved over the
//! mathematical tree of [`crate::shape`].
use vstd::prelude::*;
use crate::order::{ascending, below, strict_total};
use crate::shape::{Edit, Tree};

verus! {

/// Some pair of `s` has the key `k`.
pub open spec fn key_in<K, V>(s: Seq<(K, V)>, k: K) -> bool {
    exists|i: int| 0 <= i < s.len() && (#[trigger] s[i]).0 == k
}

/// The keys of the nodes are the keys of the pairs that a traversal yields.
pub proof fn lemma_entries_hold_keys<K, V>(t: Tree<K, V>, k: K)
    ensures
        t.has_key(k) <==> key_in(t.entries(), k),
    decreases t,
{
    match t {
        Tree::Leaf => {},
        Tree::Fork { left, key, value, right } => {
            let l = left.entries();
            let r = right.entries();
            let e = t.entries();
            lemma_entries_hold_keys(*left, k);
            lemma_entries_hold_keys(*right, k);
            assert(e.len() == l.len() + 1 + r.len());
            assert(e[l.len() as int] == (key, value));
            assert forall|i: int| 0 <= i < l.len() implies e[i] == l[i] by {}
            assert forall|i: int| 0 <= i < r.len() implies e[l.len() + 1 + i] == r[i] by {}
            if key_in(l, k) {
                let i = choose|i: int| 0 <= i < l.len() && (#[trigger] l[i]).0 == k;
                assert(e[i].0 == k);
            }
            if key_in(r, k) {
                let i = choose|i: int| 0 <= i < r.len() && (#[trigger] r[i]).0 == k;
                assert(e[l.len() + 1 + i].0 == k);
            }
            if key_in(e, k) {
                let i = choose|i: int| 0 <= i < e.len() && (#[trigger] e[i]).0 == k;
                if i < l.len() {
                    assert(l[i].0 == k);
                } else if i > l.len() {
                    assert(r[i - l.len() - 1].0 == k);
                }
            }
        },
    }
}

/// In a search tree, a traversal yields the keys in strictly ascending
/// order.
pub proof fn lemma_ordered_entries_ascend<K: PartialOrd, V>(t: Tree<K, V>)
    requires
        strict_total::<K>(),
        t.ordered(),
    ensures
        ascending(t.entries()),
    decreases t,
{
    match t {
        Tree::Leaf => {},
        Tree::Fork { left, key, value, right } => {
            let l = left.entries();
            let r = right.entries();
            let e = t.entries();
            lemma_ordered_entries_ascend(*left);
            lemma_ordered_entries_ascend(*right);
            assert(e.len() == l.len() + 1 + r.len());
            assert forall|i: int| 0 <= i < e.len() implies (i < l.len() ==> e[i] == l[i] && below(
                e[i].0,
                key,
            )) && (i == l.len() ==> e[i].0 == key) && (i > l.len() ==> e[i] == r[i - l.len() - 1]
                && below(key, e[i].0)) by {
                if i < l.len() {
                    assert(l[i].0 == e[i].0);
                    lemma_entries_hold_keys(*left, e[i].0);
                    assert(left.has_key(e[i].0));
                } else if i > l.len() {
                    assert(r[i - l.len() - 1].0 == e[i].0);
                    lemma_entries_hold_keys(*right, e[i].0);
                    assert(right.has_key(e[i].0));
                }
            }
            assert forall|i: int, j: int| 0 <= i < j < e.len() implies below(
                #[trigger] e[i].0,
                #[trigger] e[j].0,
            ) by {
                if j < l.len() {
                    assert(below(l[i].0, l[j].0));
                } else if i > l.len() {
                    assert(below(r[i - l.len() - 1].0, r[j - l.len() - 1].0));
                } else if i < l.len() && j > l.len() {
                    assert(below(e[i].0, key) && below(key, e[j].0));
                }
            }
        },
    }
}

/// In a search tree the descent for `k` ends at a node exactly if some node
/// carries `k`.
pub proof fn lemma_lookup_finds_keys<K: PartialOrd, V>(t: Tree<K, V>, k: K)
    requires
        strict_total::<K>(),
        t.ordered(),
    ensures
        t.lookup(k) is Some <==> t.has_key(k),
    decreases t,
{
    match t {
        Tree::Leaf => {},
        Tree::Fork { left, key, value, right } => {
            lemma_lookup_finds_keys(*left, k);
            lemma_lookup_finds_keys(*right, k);
            if key != k {
                if below(k, key) {
                    assert(!right.has_key(k));
                } else {
                    assert(below(key, k));
                    assert(!left.has_key(k));
                }
            }
        },
    }
}

/// In a search tree the descent for the key of a pair that the traversal
/// yields finds the value of that pair.
pub proof fn lemma_lookup_finds_entries<K: PartialOrd, V>(t: Tree<K, V>, i: int)
    requires
        strict_total::<K>(),
        t.ordered(),
        0 <= i < t.entries().len(),
    ensures
        t.lookup(t.entries()[i].0) == Some(t.entries()[i].1),
    decreases t,
{
    match t {
        Tree::Leaf => {},
        Tree::Fork { left, key, value, right } => {
            let l = left.entries();
            let r = right.entries();
            let e = t.entries();
            let k = e[i].0;
            assert(e.len() == l.len() + 1 + r.len());
            if i < l.len() {
                assert(e[i] == l[i]);
                lemma_lookup_finds_entries(*left, i);
                lemma_entries_hold_keys(*left, k);
                assert(left.has_key(k));
            } else if i > l.len() {
                assert(e[i] == r[i - l.len() - 1]);
                lemma_lookup_finds_entries(*right, i - l.len() - 1);
                lemma_entries_hold_keys(*right, k);
                assert(right.has_key(k));
            } else {
                assert(e[i] == (key, value));
            }
        },
    }
}

/// Storing under `k` adds `k` to the keys and takes none away.
pub proof fn lemma_put_keys<K: PartialOrd, V>(t: Tree<K, V>, k: K, v: V, x: K)
    ensures
        t.put(k, v).has_key(x) <==> x == k || t.has_key(x),
    decreases t,
{
    match t {
        Tree::Leaf => {},
        Tree::Fork { left, key, value, right } => {
            lemma_put_keys(*left, k, v, x);
            lemma_put_keys(*right, k, v, x);
        },
    }
}

/// Storing a pair in a search tree leaves a search tree.
pub proof fn lemma_put_keeps_order<K: PartialOrd, V>(t: Tree<K, V>, k: K, v: V)
    requires
        strict_total::<K>(),
        t.ordered(),
    ensures
        t.put(k, v).ordered(),
    decreases t,
{
    match t {
        Tree::Leaf => {
            assert(!Tree::<K, V>::Leaf.has_key(k));
        },
        Tree::Fork { left, key, value, right } => {
            if key == k {
            } else if below(k, key) {
                lemma_put_keeps_order(*left, k, v);
                assert forall|x: K| #[trigger] left.put(k, v).has_key(x) implies below(x, key) by {
                    lemma_put_keys(*left, k, v, x);
                }
            } else {
                lemma_put_keeps_order(*right, k, v);
                assert(below(key, k));
                assert forall|x: K| #[trigger] right.put(k, v).has_key(x) implies below(key, x) by {
                    lemma_put_keys(*right, k, v, x);
                }
            }
        },
    }
}

/// After storing `v` under `k`, the descent for `k` finds `v`, and the
/// descent for any other key finds what it found before.
pub proof fn lemma_put_lookup<K: PartialOrd, V>(t: Tree<K, V>, k: K, v: V, x: K)
    ensures
        t.put(k, v).lookup(x) == if x == k {
            Some(v)
        } else {
            t.lookup(x)
        },
    decreases t,
{
    match t {
        Tree::Leaf => {},
        Tree::Fork { left, key, value, right } => {
            lemma_put_lookup(*left, k, v, x);
            lemma_put_lookup(*right, k, v, x);
        },
    }
}

/// Storing under a key that a search tree has keeps the number of nodes;
/// storing under a new key adds one node.
pub proof fn lemma_put_size<K: PartialOrd, V>(t: Tree<K, V>, k: K, v: V)
    requires
        strict_total::<K>(),
        t.ordered(),
    ensures
        t.put(k, v).size() == if t.has_key(k) {
            t.size()
        } else {
            t.size() + 1
        },
    decreases t,
{
    match t {
        Tree::Leaf => {},
        Tree::Fork { left, key, value, right } => {
            if key == k {
            } else if below(k, key) {
                lemma_put_size(*left, k, v);
                assert(!right.has_key(k));
            } else {
                lemma_put_size(*right, k, v);
                assert(below(key, k));
                assert(!left.has_key(k));
            }
        },
    }
}

/// A traversal of a tree with a node yields the leftmost pair first and then
/// what a traversal of the tree without its leftmost node yields.
pub proof fn lemma_leftmost_comes_first<K, V>(t: Tree<K, V>)
    requires
        t is Fork,
    ensures
        t.entries() == seq![t.leftmost()] + t.without_leftmost().entries(),
    decreases t,
{
    match t {
        Tree::Leaf => {},
        Tree::Fork { left, key, value, right } => {
            if *left is Leaf {
                assert(left.entries() =~= Seq::empty());
                assert(t.entries() =~= seq![t.leftmost()] + t.without_leftmost().entries());
            } else {
                lemma_leftmost_comes_first(*left);
                assert(t.entries() =~= seq![t.leftmost()] + t.without_leftmost().entries());
            }
        },
    }
}

/// The keys of a tree with a node are the key of its leftmost node and the
/// keys of the tree without that node.
pub proof fn lemma_leftmost_keys<K, V>(t: Tree<K, V>, x: K)
    requires
        t is Fork,
    ensures
        t.has_key(x) <==> x == t.leftmost().0 || t.without_leftmost().has_key(x),
    decreases t,
{
    match t {
        Tree::Leaf => {},
        Tree::Fork { left, key, value, right } => {
            if *left is Leaf {
                assert(!left.has_key(x));
            } else {
                lemma_leftmost_keys(*left, x);
            }
        },
    }
}

/// In a search tree with a node, the leftmost node carries the least key:
/// every other key is above it, the tree without that node is a search tree
/// and does not have its key.
pub proof fn lemma_leftmost_is_least<K: PartialOrd, V>(t: Tree<K, V>)
    requires
        strict_total::<K>(),
        t.ordered(),
        t is Fork,
    ensures
        t.without_leftmost().ordered(),
        forall|x: K| #[trigger] t.without_leftmost().has_key(x) ==> below(t.leftmost().0, x),
        !t.without_leftmost().has_key(t.leftmost().0),
    decreases t,
{
    match t {
        Tree::Leaf => {},
        Tree::Fork { left, key, value, right } => {
            if *left is Leaf {
                assert(!right.has_key(key)) by {
                    if right.has_key(key) {
                        assert(below(key, key));
                    }
                }
            } else {
                lemma_leftmost_is_least(*left);
                let m = left.leftmost().0;
                lemma_leftmost_keys(*left, m);
                assert(left.has_key(m));
                assert(below(m, key));
                assert forall|x: K| #[trigger] left.without_leftmost().has_key(x) implies below(
                    x,
                    key,
                ) by {
                    lemma_leftmost_keys(*left, x);
                    assert(left.has_key(x));
                }
                assert forall|x: K| #[trigger] t.without_leftmost().has_key(x) implies below(
                    m,
                    x,
                ) by {
                    if right.has_key(x) {
                        assert(below(key, x));
                    } else if left.without_leftmost().has_key(x) {
                    } else {
                        assert(x == key);
                    }
                }
                assert(!t.without_leftmost().has_key(m)) by {
                    if right.has_key(m) {
                        assert(below(key, m));
                    }
                }
            }
        },
    }
}

/// In a search tree with a node, the descent for the least key finds the
/// value of the leftmost node; the descent for any other key finds the same
/// with and without that node.
pub proof fn lemma_leftmost_lookup<K: PartialOrd, V>(t: Tree<K, V>, x: K)
    requires
        strict_total::<K>(),
        t.ordered(),
        t is Fork,
    ensures
        t.lookup(t.leftmost().0) == Some(t.leftmost().1),
        x != t.leftmost().0 ==> t.without_leftmost().lookup(x) == t.lookup(x),
    decreases t,
{
    match t {
        Tree::Leaf => {},
        Tree::Fork { left, key, value, right } => {
            if *left is Leaf {
                assert(left.lookup(x) is None);
                if x != key {
                    if below(x, key) {
                        lemma_lookup_finds_keys(*right, x);
                        assert(!right.has_key(x));
                    } else {
                    }
                }
            } else {
                lemma_leftmost_lookup(*left, x);
                let m = left.leftmost().0;
                lemma_leftmost_keys(*left, m);
                assert(left.has_key(m));
                assert(below(m, key));
            }
        },
    }
}

/// Taking `k` out of a search tree takes `k` from its keys and no other.
pub proof fn lemma_remove_keys<K: PartialOrd, V>(t: Tree<K, V>, k: K, x: K)
    requires
        strict_total::<K>(),
        t.ordered(),
    ensures
        t.remove(k).has_key(x) <==> x != k && t.has_key(x),
    decreases t,
{
    match t {
        Tree::Leaf => {},
        Tree::Fork { left, key, value, right } => {
            if key == k {
                assert(!left.has_key(k)) by {
                    if left.has_key(k) {
                        assert(below(k, key));
                    }
                }
                assert(!right.has_key(k)) by {
                    if right.has_key(k) {
                        assert(below(key, k));
                    }
                }
                if *right is Leaf {
                    assert(!right.has_key(x));
                } else if *left is Leaf {
                    assert(!left.has_key(x));
                } else {
                    lemma_leftmost_keys(*right, x);
                }
            } else if below(k, key) {
                lemma_remove_keys(*left, k, x);
                assert(!right.has_key(k));
            } else {
                lemma_remove_keys(*right, k, x);
                assert(below(key, k));
                assert(!left.has_key(k));
            }
        },
    }
}

/// Taking a key out of a search tree leaves a search tree.
pub proof fn lemma_remove_keeps_order<K: PartialOrd, V>(t: Tree<K, V>, k: K)
    requires
        strict_total::<K>(),
        t.ordered(),
    ensures
        t.remove(k).ordered(),
    decreases t,
{
    match t {
        Tree::Leaf => {},
        Tree::Fork { left, key, value, right } => {
            if key == k {
                if *right is Leaf {
                } else if *left is Leaf {
                } else {
                    let m = right.leftmost().0;
                    lemma_leftmost_is_least(*right);
                    lemma_leftmost_keys(*right, m);
                    assert(right.has_key(m));
                    assert(below(key, m));
                    assert forall|x: K| #[trigger] left.has_key(x) implies below(x, m) by {
                        assert(below(x, key));
                    }
                }
            } else if below(k, key) {
                lemma_remove_keeps_order(*left, k);
                assert forall|x: K| #[trigger] left.remove(k).has_key(x) implies below(x, key) by {
                    lemma_remove_keys(*left, k, x);
                }
            } else {
                lemma_remove_keeps_order(*right, k);
                assert forall|x: K| #[trigger] right.remove(k).has_key(x) implies below(key, x) by {
                    lemma_remove_keys(*right, k, x);
                }
            }
        },
    }
}

/// After taking `k` out of a search tree, the descent for `k` finds nothing,
/// and the descent for any other key finds what it found before.
pub proof fn lemma_remove_lookup<K: PartialOrd, V>(t: Tree<K, V>, k: K, x: K)
    requires
        strict_total::<K>(),
        t.ordered(),
    ensures
        t.remove(k).lookup(x) == if x == k {
            None
        } else {
            t.lookup(x)
        },
    decreases t,
{
    lemma_remove_keeps_order(t, k);
    if x == k {
        lemma_remove_keys(t, k, k);
        lemma_lookup_finds_keys(t.remove(k), k);
    } else {
        match t {
            Tree::Leaf => {},
            Tree::Fork { left, key, value, right } => {
                if key == k {
                    lemma_lookup_finds_keys(*left, x);
                    lemma_lookup_finds_keys(*right, x);
                    if *right is Leaf {
                        assert(right.lookup(x) is None);
                        if !below(x, key) {
                            assert(below(key, x));
                            assert(!left.has_key(x));
                        }
                    } else if *left is Leaf {
                        assert(left.lookup(x) is None);
                        if below(x, key) {
                            assert(!right.has_key(x));
                        }
                    } else {
                        let m = right.leftmost().0;
                        lemma_leftmost_is_least(*right);
                        lemma_leftmost_keys(*right, m);
                        lemma_leftmost_keys(*right, x);
                        lemma_leftmost_lookup(*right, x);
                        assert(right.has_key(m));
                        assert(below(key, m));
                        if x == m {
                        } else if below(x, m) {
                            assert(!right.has_key(x)) by {
                                if right.without_leftmost().has_key(x) {
                                    assert(below(m, x));
                                }
                            }
                            if !below(x, key) {
                                assert(below(key, x));
                                assert(!left.has_key(x));
                            }
                        } else {
                            assert(below(m, x));
                            assert(below(key, x));
                        }
                    }
                } else if below(k, key) {
                    lemma_remove_lookup(*left, k, x);
                } else {
                    lemma_remove_lookup(*right, k, x);
                }
            },
        }
    }
}

/// Taking out a key that a search tree has leaves one node fewer.
pub proof fn lemma_remove_size<K: PartialOrd, V>(t: Tree<K, V>, k: K)
    requires
        strict_total::<K>(),
        t.ordered(),
        t.has_key(k),
    ensures
        t.remove(k).size() + 1 == t.size(),
    decreases t,
{
    match t {
        Tree::Leaf => {},
        Tree::Fork { left, key, value, right } => {
            if key == k {
                if *right is Leaf {
                    assert(right.entries() =~= Seq::empty());
                } else if *left is Leaf {
                    assert(left.entries() =~= Seq::empty());
                } else {
                    lemma_leftmost_comes_first(*right);
                }
            } else if below(k, key) {
                assert(!right.has_key(k));
                lemma_remove_size(*left, k);
            } else {
                assert(below(key, k));
                assert(!left.has_key(k));
                lemma_remove_size(*right, k);
            }
        },
    }
}

/// Taking out a key that the tree does not have changes nothing.
pub proof fn lemma_remove_absent<K: PartialOrd, V>(t: Tree<K, V>, k: K)
    requires
        !t.has_key(k),
    ensures
        t.remove(k) == t,
    decreases t,
{
    match t {
        Tree::Leaf => {},
        Tree::Fork { left, key, value, right } => {
            lemma_remove_absent(*left, k);
            lemma_remove_absent(*right, k);
        },
    }
}

/// Read as a map, a search tree after storing `v` under `k` is the map
/// before with `v` put under `k`.
pub proof fn lemma_put_map<K: PartialOrd, V>(t: Tree<K, V>, k: K, v: V)
    requires
        strict_total::<K>(),
        t.ordered(),
    ensures
        t.put(k, v).map() == t.map().insert(k, v),
{
    assert forall|x: K| #[trigger]
        t.put(k, v).map().dom().contains(x) <==> t.map().insert(k, v).dom().contains(x) by {
        lemma_put_keys(t, k, v, x);
    }
    assert forall|x: K| #[trigger] t.put(k, v).map().dom().contains(x) implies t.put(
        k,
        v,
    ).map()[x] == t.map().insert(k, v)[x] by {
        lemma_put_keys(t, k, v, x);
        lemma_put_lookup(t, k, v, x);
    }
    assert(t.put(k, v).map() =~= t.map().insert(k, v));
}

/// Read as a map, a search tree after taking `k` out is the map before
/// without `k`.
pub proof fn lemma_remove_map<K: PartialOrd, V>(t: Tree<K, V>, k: K)
    requires
        strict_total::<K>(),
        t.ordered(),
    ensures
        t.remove(k).map() == t.map().remove(k),
{
    assert forall|x: K| #[trigger]
        t.remove(k).map().dom().contains(x) <==> t.map().remove(k).dom().contains(x) by {
        lemma_remove_keys(t, k, x);
    }
    assert forall|x: K| #[trigger] t.remove(k).map().dom().contains(x) implies t.remove(
        k,
    ).map()[x] == t.map().remove(k)[x] by {
        lemma_remove_keys(t, k, x);
        lemma_remove_lookup(t, k, x);
    }
    assert(t.remove(k).map() =~= t.map().remove(k));
}

/// Read as a map, a search tree holds the pairs that a traversal of it
/// yields, and what the descent for a key finds is what the map holds
/// under it.
pub proof fn lemma_map_of_entries<K: PartialOrd, V>(t: Tree<K, V>)
    requires
        strict_total::<K>(),
        t.ordered(),
    ensures
        forall|i: int|
            0 <= i < t.entries().len() ==> t.map().contains_pair(
                (#[trigger] t.entries()[i]).0,
                t.entries()[i].1,
            ),
        forall|k: K| #[trigger] t.map().dom().contains(k) <==> key_in(t.entries(), k),
        forall|k: K|
            #[trigger] t.lookup(k) == if t.map().dom().contains(k) {
                Some(t.map()[k])
            } else {
                None
            },
{
    assert forall|i: int| 0 <= i < t.entries().len() implies t.map().contains_pair(
        (#[trigger] t.entries()[i]).0,
        t.entries()[i].1,
    ) by {
        lemma_lookup_finds_entries(t, i);
        lemma_lookup_finds_keys(t, t.entries()[i].0);
    }
    assert forall|k: K| #[trigger] t.map().dom().contains(k) <==> key_in(t.entries(), k) by {
        lemma_entries_hold_keys(t, k);
    }
    assert forall|k: K|
        #[trigger] t.lookup(k) == if t.map().dom().contains(k) {
            Some(t.map()[k])
        } else {
            None
        } by {
        lemma_lookup_finds_keys(t, k);
    }
}

/// Whatever pairs are stored into an empty tree, and in whatever order, the
/// result is a search tree, and a traversal of it yields strictly ascending
/// keys.
pub proof fn law_inserts_build_a_search_tree<K: PartialOrd, V>(items: Seq<(K, V)>)
    requires
        strict_total::<K>(),
    ensures
        Tree::<K, V>::Leaf.put_all(items).ordered(),
        ascending(Tree::<K, V>::Leaf.put_all(items).entries()),
    decreases items.len(),
{
    if items.len() > 0 {
        law_inserts_build_a_search_tree(items.drop_last());
        lemma_put_keeps_order(
            Tree::<K, V>::Leaf.put_all(items.drop_last()),
            items.last().0,
            items.last().1,
        );
    }
    lemma_ordered_entries_ascend(Tree::<K, V>::Leaf.put_all(items));
}

/// Any run of changes to a search tree leaves a search tree, and a traversal
/// of it yields strictly ascending keys.
pub proof fn law_edits_keep_order<K: PartialOrd, V>(t: Tree<K, V>, edits: Seq<Edit<K, V>>)
    requires
        strict_total::<K>(),
        t.ordered(),
    ensures
        t.edit_all(edits).ordered(),
        ascending(t.edit_all(edits).entries()),
    decreases edits.len(),
{
    if edits.len() > 0 {
        law_edits_keep_order(t, edits.drop_last());
        let before = t.edit_all(edits.drop_last());
        match edits.last() {
            Edit::Put(k, v) => lemma_put_keeps_order(before, k, v),
            Edit::Remove(k) => lemma_remove_keeps_order(before, k),
        }
    }
    lemma_ordered_entries_ascend(t.edit_all(edits));
}

/// A value that was stored under a key is found under that key for as long
/// as no later change is about that key: neither another value stored under
/// it nor the key taken out.
pub proof fn law_stored_value_is_found<K: PartialOrd, V>(
    t: Tree<K, V>,
    edits: Seq<Edit<K, V>>,
    i: int,
    k: K,
    v: V,
)
    requires
        strict_total::<K>(),
        t.ordered(),
        0 <= i < edits.len(),
        edits[i] == Edit::Put(k, v),
        forall|j: int| i < j < edits.len() ==> (#[trigger] edits[j]).key() != k,
    ensures
        t.edit_all(edits).lookup(k) == Some(v),
    decreases edits.len(),
{
    let before = t.edit_all(edits.drop_last());
    law_edits_keep_order(t, edits.drop_last());
    if i == edits.len() - 1 {
        lemma_put_lookup(before, k, v, k);
    } else {
        law_stored_value_is_found(t, edits.drop_last(), i, k, v);
        match edits.last() {
            Edit::Put(k2, v2) => {
                lemma_put_lookup(before, k2, v2, k);
            },
            Edit::Remove(k2) => {
                lemma_remove_lookup(before, k2, k);
            },
        }
    }
}

/// Storing a second value under the same key keeps the number of nodes, and
/// the second value is the one found.
pub proof fn law_overwrite<K: PartialOrd, V>(t: Tree<K, V>, k: K, v1: V, v2: V)
    requires
        strict_total::<K>(),
        t.ordered(),
    ensures
        t.put(k, v1).put(k, v2).size() == t.put(k, v1).size(),
        t.put(k, v1).put(k, v2).lookup(k) == Some(v2),
{
    lemma_put_keeps_order(t, k, v1);
    lemma_put_keys(t, k, v1, k);
    lemma_put_size(t.put(k, v1), k, v2);
    lemma_put_lookup(t.put(k, v1), k, v2, k);
}

/// Taking out a key that a search tree has: the descent for it found a
/// value before and finds none after, the tree has one node fewer, and it is
/// still a search tree.
pub proof fn law_remove_present<K: PartialOrd, V>(t: Tree<K, V>, k: K)
    requires
        strict_total::<K>(),
        t.ordered(),
        t.has_key(k),
    ensures
        t.lookup(k) is Some,
        t.remove(k).lookup(k) is None,
        t.remove(k).size() == t.size() - 1,
        t.remove(k).ordered(),
        ascending(t.remove(k).entries()),
{
    lemma_lookup_finds_keys(t, k);
    lemma_remove_lookup(t, k, k);
    lemma_remove_size(t, k);
    lemma_remove_keeps_order(t, k);
    lemma_ordered_entries_ascend(t.remove(k));
}

/// Taking out a key that a search tree does not have: the descent for it
/// finds nothing, and the tree stays as it is.
pub proof fn law_remove_absent<K: PartialOrd, V>(t: Tree<K, V>, k: K)
    requires
        strict_total::<K>(),
        t.ordered(),
        !t.has_key(k),
    ensures
        t.lookup(k) is None,
        t.remove(k) == t,
{
    lemma_lookup_finds_keys(t, k);
    lemma_remove_absent(t, k);
}

} // verus!
