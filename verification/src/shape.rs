//! The mathematical tree that a [`crate::btree::BTree`] stands for, and the
//! operations on it that the executable tree refines.
use vstd::prelude::*;
use crate::order::below;

verus! {

/// A binary tree of key/value pairs. It exists only in specifications.
pub enum Tree<K, V> {
    Leaf,
    Fork { left: Box<Tree<K, V>>, key: K, value: V, right: Box<Tree<K, V>> },
}

/// One change to a tree: storing a pair, or taking a key out.
pub enum Edit<K, V> {
    Put(K, V),
    Remove(K),
}

impl<K, V> Edit<K, V> {
    /// The key that the change is about.
    pub open spec fn key(self) -> K {
        match self {
            Edit::Put(k, _) => k,
            Edit::Remove(k) => k,
        }
    }
}

impl<K, V> Tree<K, V> {
    /// A tree of one node.
    pub open spec fn single(k: K, v: V) -> Tree<K, V> {
        Tree::Fork { left: Box::new(Tree::Leaf), key: k, value: v, right: Box::new(Tree::Leaf) }
    }

    /// The pairs of the tree, left subtree first, then the node, then the
    /// right subtree.
    pub open spec fn entries(self) -> Seq<(K, V)>
        decreases self,
    {
        match self {
            Tree::Leaf => Seq::empty(),
            Tree::Fork { left, key, value, right } => left.entries().push((key, value))
                + right.entries(),
        }
    }

    /// Number of nodes.
    pub open spec fn size(self) -> nat {
        self.entries().len()
    }

    /// Number of nodes on the longest path from the root downwards.
    pub open spec fn height(self) -> nat
        decreases self,
    {
        match self {
            Tree::Leaf => 0,
            Tree::Fork { left, key, value, right } => if left.height() >= right.height() {
                left.height() + 1
            } else {
                right.height() + 1
            },
        }
    }

    /// Some node carries the key `k`.
    pub open spec fn has_key(self, k: K) -> bool
        decreases self,
    {
        match self {
            Tree::Leaf => false,
            Tree::Fork { left, key, value, right } => key == k || left.has_key(k) || right.has_key(
                k,
            ),
        }
    }

    /// The first pair in order: that of the node reached by going left from
    /// the root for as long as possible. Meaningful on a `Fork` only.
    pub open spec fn leftmost(self) -> (K, V)
        decreases self,
    {
        match self {
            Tree::Leaf => arbitrary(),
            Tree::Fork { left, key, value, right } => if *left is Leaf {
                (key, value)
            } else {
                left.leftmost()
            },
        }
    }

    /// The tree with its leftmost node taken out; the right subtree of that
    /// node takes its place.
    pub open spec fn without_leftmost(self) -> Tree<K, V>
        decreases self,
    {
        match self {
            Tree::Leaf => Tree::Leaf,
            Tree::Fork { left, key, value, right } => if *left is Leaf {
                *right
            } else {
                Tree::Fork { left: Box::new(left.without_leftmost()), key, value, right }
            },
        }
    }
}

impl<K: PartialOrd, V> Tree<K, V> {
    /// The search-tree property: at every node, all keys to the left are
    /// below the node's key and all keys to the right are above it.
    pub open spec fn ordered(self) -> bool
        decreases self,
    {
        match self {
            Tree::Leaf => true,
            Tree::Fork { left, key, value, right } => {
                &&& left.ordered()
                &&& right.ordered()
                &&& forall|k: K| #[trigger] left.has_key(k) ==> below(k, key)
                &&& forall|k: K| #[trigger] right.has_key(k) ==> below(key, k)
            },
        }
    }

    /// The value found by descending from the root: left where `k` is below
    /// the node's key, right where it is not, until a node carries `k`.
    pub open spec fn lookup(self, k: K) -> Option<V>
        decreases self,
    {
        match self {
            Tree::Leaf => None,
            Tree::Fork { left, key, value, right } => if key == k {
                Some(value)
            } else if below(k, key) {
                left.lookup(k)
            } else {
                right.lookup(k)
            },
        }
    }

    /// The tree read as a map: every key of a node, with the value that the
    /// descent for it finds.
    pub open spec fn map(self) -> Map<K, V> {
        Map::new(|k: K| self.has_key(k), |k: K| self.lookup(k)->0)
    }

    /// The tree after storing `v` under `k`: the node that carries `k` gets
    /// the new value; if there is none, a new node hangs where the descent
    /// for `k` ends.
    pub open spec fn put(self, k: K, v: V) -> Tree<K, V>
        decreases self,
    {
        match self {
            Tree::Leaf => Tree::single(k, v),
            Tree::Fork { left, key, value, right } => if key == k {
                Tree::Fork { left, key, value: v, right }
            } else if below(k, key) {
                Tree::Fork { left: Box::new(left.put(k, v)), key, value, right }
            } else {
                Tree::Fork { left, key, value, right: Box::new(right.put(k, v)) }
            },
        }
    }

    /// The tree after storing the pairs of `items` one after the other,
    /// front to back. A later pair overwrites an earlier one with its key.
    pub open spec fn put_all(self, items: Seq<(K, V)>) -> Tree<K, V>
        decreases items.len(),
    {
        if items.len() == 0 {
            self
        } else {
            self.put_all(items.drop_last()).put(items.last().0, items.last().1)
        }
    }

    /// The tree after one change.
    pub open spec fn edit(self, e: Edit<K, V>) -> Tree<K, V> {
        match e {
            Edit::Put(k, v) => self.put(k, v),
            Edit::Remove(k) => self.remove(k),
        }
    }

    /// The tree after the changes of `edits`, made front to back.
    pub open spec fn edit_all(self, edits: Seq<Edit<K, V>>) -> Tree<K, V>
        decreases edits.len(),
    {
        if edits.len() == 0 {
            self
        } else {
            self.edit_all(edits.drop_last()).edit(edits.last())
        }
    }

    /// The tree after taking out the node found by the descent for `k`. A
    /// node without children vanishes, a node with one child is replaced by
    /// that child, and a node with two children takes over the pair of its
    /// successor, the leftmost node to its right, which is taken out instead.
    pub open spec fn remove(self, k: K) -> Tree<K, V>
        decreases self,
    {
        match self {
            Tree::Leaf => Tree::Leaf,
            Tree::Fork { left, key, value, right } => if key == k {
                if *right is Leaf {
                    *left
                } else if *left is Leaf {
                    *right
                } else {
                    Tree::Fork {
                        left,
                        key: right.leftmost().0,
                        value: right.leftmost().1,
                        right: Box::new(right.without_leftmost()),
                    }
                }
            } else if below(k, key) {
                Tree::Fork { left: Box::new(left.remove(k)), key, value, right }
            } else {
                Tree::Fork { left, key, value, right: Box::new(right.remove(k)) }
            },
        }
    }
}

} // verus!
