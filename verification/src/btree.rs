//! An unbalanced binary search tree that maps keys to values.
use vstd::prelude::*;
use crate::laws::{
    lemma_lookup_finds_keys, lemma_ordered_entries_ascend, lemma_put_keeps_order, lemma_put_map,
    lemma_remove_keeps_order, lemma_remove_map,
};
use crate::order::{ascending, strict_total};
use crate::shape::Tree;

verus! {

/// A node of the tree. It owns its two subtrees.
#[derive(Debug)]
struct BNode<K, V> {
    key: K,
    value: V,
    left: Option<Box<BNode<K, V>>>,
    right: Option<Box<BNode<K, V>>>,
}

/// The binary search tree, possibly empty.
#[derive(Debug)]
pub struct BTree<K, V> {
    root: Option<Box<BNode<K, V>>>,
}

impl<K, V> BNode<K, V> {
    /// The mathematical tree rooted at this node.
    spec fn shape(self) -> Tree<K, V>
        decreases self,
    {
        Tree::Fork {
            left: Box::new(shape_of(self.left)),
            key: self.key,
            value: self.value,
            right: Box::new(shape_of(self.right)),
        }
    }
}

/// The mathematical tree held in a slot that may be empty.
spec fn shape_of<K, V>(onode: Option<Box<BNode<K, V>>>) -> Tree<K, V>
    decreases onode,
{
    match onode {
        None => Tree::Leaf,
        Some(node) => node.shape(),
    }
}

impl<K, V> View for BTree<K, V> {
    type V = Tree<K, V>;

    closed spec fn view(&self) -> Tree<K, V> {
        shape_of(self.root)
    }
}

/// An empty slot stands for the leaf, a filled one for a fork.
proof fn lemma_slot_shape<K, V>(onode: Option<Box<BNode<K, V>>>)
    ensures
        onode is None <==> shape_of(onode) is Leaf,
{
}

/// Stores `value` under `key` in the subtree `onode` and returns the new
/// root of that subtree.
fn insert_into_node<K: Eq + PartialOrd, V>(
    onode: Option<Box<BNode<K, V>>>,
    key: K,
    value: V,
) -> (r: BNode<K, V>)
    requires
        strict_total::<K>(),
    ensures
        r.shape() == shape_of(onode).put(key, value),
    decreases onode,
{
    match onode {
        None => BNode { key, value, left: None, right: None },
        Some(mut node) => {
            if node.key == key {
                node.value = value;
            } else if key < node.key {
                let left = node.left.take();
                node.left = Some(Box::new(insert_into_node(left, key, value)));
            } else {
                let right = node.right.take();
                node.right = Some(Box::new(insert_into_node(right, key, value)));
            };
            *node
        },
    }
}

/// Descends from `onode` for `key` and returns a reference to the value of
/// the node that carries it, if there is one.
fn search_node<'a, K: Eq + PartialOrd, V>(onode: &'a Option<Box<BNode<K, V>>>, key: &K) -> (r:
    Option<&'a V>)
    requires
        strict_total::<K>(),
    ensures
        r == match shape_of(*onode).lookup(*key) {
            Some(v) => Some(&v),
            None => None,
        },
    decreases *onode,
{
    match onode {
        None => None,
        Some(node) => {
            if node.key == *key {
                Some(&node.value)
            } else if *key < node.key {
                search_node(&node.left, key)
            } else {
                search_node(&node.right, key)
            }
        },
    }
}

/// Takes the node found by the descent for `key` out of the subtree `onode`.
/// Returns the subtree that is left and the value of the node taken out.
fn delete_node<K: Eq + PartialOrd, V>(onode: Option<Box<BNode<K, V>>>, key: &K) -> (r: (
    Option<Box<BNode<K, V>>>,
    Option<V>,
))
    requires
        strict_total::<K>(),
    ensures
        shape_of(r.0) == shape_of(onode).remove(*key),
        r.1 == shape_of(onode).lookup(*key),
    decreases onode,
{
    match onode {
        None => (None, None),
        Some(mut node) => {
            if node.key == *key {
                let node = *node;
                proof {
                    lemma_slot_shape(node.left);
                    lemma_slot_shape(node.right);
                }
                let v = Some(node.value);
                let n = match (node.left, node.right) {
                    (None, None) => None,
                    (Some(n), None) => Some(n),
                    (None, Some(n)) => Some(n),
                    (Some(l), Some(r)) => {
                        let (nr, k, v) = find_next(r);
                        Some(Box::new(BNode { key: k, value: v, left: Some(l), right: nr }))
                    },
                };
                (n, v)
            } else if *key < node.key {
                let left = node.left.take();
                let (n, v) = delete_node(left, key);
                node.left = n;
                (Some(node), v)
            } else {
                let right = node.right.take();
                let (n, v) = delete_node(right, key);
                node.right = n;
                (Some(node), v)
            }
        },
    }
}

/// Takes the leftmost node out of the subtree rooted at `onode`. Returns the
/// subtree that is left, and the key and value of the node taken out.
fn find_next<K: Eq + PartialOrd, V>(onode: Box<BNode<K, V>>) -> (r: (
    Option<Box<BNode<K, V>>>,
    K,
    V,
))
    ensures
        shape_of(r.0) == onode.shape().without_leftmost(),
        (r.1, r.2) == onode.shape().leftmost(),
    decreases onode,
{
    let mut onode = onode;
    match onode.left.take() {
        Some(n) => {
            let (nl, k, v) = find_next(n);
            onode.left = nl;
            (Some(onode), k, v)
        },
        None => {
            let node = *onode;
            (node.right, node.key, node.value)
        },
    }
}

/// Height of the subtree `onode`.
fn depth<K, V>(onode: &Option<Box<BNode<K, V>>>) -> (r: usize)
    requires
        shape_of(*onode).height() <= usize::MAX,
    ensures
        r == shape_of(*onode).height(),
    decreases *onode,
{
    match onode {
        None => 0,
        Some(node) => {
            let l = depth(&node.left);
            let r = depth(&node.right);
            if l >= r {
                l + 1
            } else {
                r + 1
            }
        },
    }
}

/// An in-order traversal that can be suspended between two pairs. It holds
/// the nodes whose pair, and whose right subtree, are still to be visited,
/// the next one on top.
pub struct BTIterator<'a, K, V> {
    stack: Vec<&'a BNode<K, V>>,
}

/// The pairs that a stack of pending nodes stands for, in the order in which
/// they will come out.
spec fn pending<K, V>(stack: Seq<&BNode<K, V>>) -> Seq<(K, V)>
    decreases stack.len(),
{
    if stack.len() == 0 {
        Seq::empty()
    } else {
        seq![(stack.last().key, stack.last().value)] + shape_of(stack.last().right).entries()
            + pending(stack.drop_last())
    }
}

/// Pushing a node puts its pair and its right subtree in front of what was
/// pending.
proof fn lemma_pending_push<K, V>(stack: Seq<&BNode<K, V>>, node: &BNode<K, V>)
    ensures
        pending(stack.push(node)) == seq![(node.key, node.value)] + shape_of(node.right).entries()
            + pending(stack),
{
    assert(stack.push(node).drop_last() == stack);
}

/// Pushes `on` and the nodes on its left spine onto `stack`.
fn push_left_spine<'a, K, V>(stack: &mut Vec<&'a BNode<K, V>>, on: &'a Option<Box<BNode<K, V>>>)
    ensures
        pending(final(stack)@) == shape_of(*on).entries() + pending(old(stack)@),
{
    let mut on = on;
    let ghost all = shape_of(*on).entries() + pending(stack@);
    loop
        invariant
            shape_of(*on).entries() + pending(stack@) == all,
        ensures
            pending(stack@) == all,
        decreases *on,
    {
        match on {
            None => {
                break ;
            },
            Some(ro) => {
                proof {
                    lemma_pending_push(stack@, &**ro);
                    assert(shape_of(*on).entries() == shape_of(ro.left).entries() + (seq![
                        (ro.key, ro.value),
                    ] + shape_of(ro.right).entries()));
                }
                on = &ro.left;
                stack.push(&**ro);
            },
        }
    }
}

impl<'a, K, V> View for BTIterator<'a, K, V> {
    type V = Seq<(K, V)>;

    /// The pairs still to come, the next one first.
    closed spec fn view(&self) -> Seq<(K, V)> {
        pending(self.stack@)
    }
}

impl<'a, K, V> BTIterator<'a, K, V> {
    /// Hands out the next pair in order, or `None` once all have been handed
    /// out; from then on it stays `None`.
    pub fn next(&mut self) -> (r: Option<(&'a K, &'a V)>)
        ensures
            old(self)@.len() == 0 ==> r is None && final(self)@ == old(self)@,
            old(self)@.len() > 0 ==> r == Some((&old(self)@[0].0, &old(self)@[0].1)),
            old(self)@.len() > 0 ==> final(self)@ == old(self)@.skip(1),
    {
        match self.stack.pop() {
            None => None,
            Some(n) => {
                proof {
                    assert(old(self).stack@.drop_last() == self.stack@);
                }
                push_left_spine(&mut self.stack, &n.right);
                proof {
                    assert(old(self)@.skip(1) == self@);
                }
                Some((&n.key, &n.value))
            },
        }
    }
}

impl<K: Eq + PartialOrd, V> BTree<K, V> {
    /// The invariant of the type: the tree is a search tree. `new` and
    /// `from_iter` establish it, `insert` and `delete` keep it.
    pub open spec fn wf(&self) -> bool {
        self@.ordered()
    }

    /// A tree without nodes.
    pub fn new() -> (t: BTree<K, V>)
        ensures
            t@ == Tree::<K, V>::Leaf,
            t.wf(),
    {
        BTree { root: None }
    }

    /// Stores `value` under `key`. A node that already carries `key` keeps
    /// its place and gets the new value; otherwise a new node hangs where
    /// the descent for `key` ends.
    pub fn insert(&mut self, key: K, value: V)
        requires
            strict_total::<K>(),
            old(self).wf(),
        ensures
            final(self)@ == old(self)@.put(key, value),
            final(self)@.map() == old(self)@.map().insert(key, value),
            final(self).wf(),
    {
        proof {
            lemma_put_keeps_order(self@, key, value);
            lemma_put_map(self@, key, value);
        }
        let oroot = self.root.take();
        let newroot = insert_into_node(oroot, key, value);
        self.root = Some(Box::new(newroot));
    }

    /// Whether the tree has no node.
    pub fn is_empty(&self) -> (r: bool)
        ensures
            r == (self@ is Leaf),
    {
        self.root.is_none()
    }

    /// A reference to the value stored under `key`, if there is one.
    pub fn get<'a>(&'a self, key: &K) -> (r: Option<&'a V>)
        requires
            strict_total::<K>(),
            self.wf(),
        ensures
            r == match self@.lookup(*key) {
                Some(v) => Some(&v),
                None => None,
            },
            r is Some <==> self@.has_key(*key),
            r == if self@.map().dom().contains(*key) {
                Some(&self@.map()[*key])
            } else {
                None
            },
    {
        proof {
            lemma_lookup_finds_keys(self@, *key);
        }
        search_node(&self.root, key)
    }

    /// Takes the node that carries `key` out of the tree and returns its
    /// value; leaves the tree as it is where no node carries `key`.
    pub fn delete(&mut self, key: &K) -> (r: Option<V>)
        requires
            strict_total::<K>(),
            old(self).wf(),
        ensures
            final(self)@ == old(self)@.remove(*key),
            final(self)@.map() == old(self)@.map().remove(*key),
            final(self).wf(),
            r == old(self)@.lookup(*key),
            r is Some <==> old(self)@.has_key(*key),
            r == if old(self)@.map().dom().contains(*key) {
                Some(old(self)@.map()[*key])
            } else {
                None
            },
    {
        proof {
            lemma_remove_keeps_order(self@, *key);
            lemma_lookup_finds_keys(self@, *key);
            lemma_remove_map(self@, *key);
        }
        let r = self.root.take();
        let (r, v) = delete_node(r, key);
        self.root = r;
        v
    }

    /// Number of nodes, found by counting what an in-order traversal hands
    /// out.
    pub fn len(&self) -> (n: usize)
        requires
            self@.size() <= usize::MAX,
        ensures
            n == self@.size(),
    {
        let mut it = self.into_iter();
        let mut n: usize = 0;
        loop
            invariant
                n + it@.len() == self@.size(),
                self@.size() <= usize::MAX,
            ensures
                n == self@.size(),
            decreases it@.len(),
        {
            match it.next() {
                None => {
                    break ;
                },
                Some(_) => {
                    n += 1;
                },
            }
        }
        n
    }

    /// Starts an in-order traversal of the tree.
    pub fn into_iter(&self) -> (it: BTIterator<'_, K, V>)
        ensures
            it@ == self@.entries(),
            strict_total::<K>() && self.wf() ==> ascending(it@),
    {
        proof {
            if strict_total::<K>() && self.wf() {
                lemma_ordered_entries_ascend(self@);
            }
        }
        let mut v: Vec<&BNode<K, V>> = Vec::new();
        push_left_spine(&mut v, &self.root);
        BTIterator { stack: v }
    }

    /// Builds a tree by storing the pairs of `items` one after the other,
    /// front to back.
    pub fn from_iter(items: Vec<(K, V)>) -> (t: BTree<K, V>)
        requires
            strict_total::<K>(),
        ensures
            t@ == Tree::<K, V>::Leaf.put_all(items@),
            t.wf(),
    {
        let mut t = BTree::new();
        let ghost all = items@;
        for e in it: items.into_iter()
            invariant
                strict_total::<K>(),
                t.wf(),
                it.seq() == all,
                t@ == Tree::<K, V>::Leaf.put_all(all.take(it.index() as int)),
        {
            proof {
                assert(all.take(it.index() + 1).drop_last() == all.take(it.index() as int));
            }
            t.insert(e.0, e.1);
        }
        proof {
            assert(all.take(all.len() as int) == all);
        }
        t
    }

    /// Height of the tree: 0 when empty, 1 for a single node.
    pub fn depth(&self) -> (r: usize)
        requires
            self@.height() <= usize::MAX,
        ensures
            r == self@.height(),
    {
        depth(&self.root)
    }
}

impl<K: Eq + PartialOrd, V> Default for BTree<K, V> {
    /// A tree without nodes.
    fn default() -> (t: Self)
        ensures
            t@ == Tree::<K, V>::Leaf,
            t.wf(),
    {
        BTree::new()
    }
}

} // verus!
