//! An in-memory ordered binary search tree over `u64` values.
//!
//! Each node keeps the number of nodes in its left subtree, which gives
//! rank queries ("the n-th smallest value") in time proportional to the
//! depth of the tree.  The tree does not balance itself.

pub mod node;

use vstd::prelude::*;
use crate::node::Node;
use crate::node::NodeOption;
use crate::node::NodeOptionValue;
use crate::node::lemma_concat_contains;
use crate::node::lemma_membership;
use crate::node::lemma_sorted;
use crate::node::lemma_sorted_unique;
use crate::node::lemma_subtree;

verus! {

/// The tree: an owner of the optional root node.  All operations
/// delegate to the root, or handle the empty tree directly.
pub struct BinaryTree {
    root: Option<Box<Node>>,
}

impl BinaryTree {
    /// The in-order (ascending) sequence of the values held by the tree.
    pub closed spec fn as_seq(self) -> Seq<u64> {
        Node::optional_as_seq(self.root)
    }

    /// The tree invariant: search-tree order, uniqueness of values, and
    /// exact `left_nodes_count` bookkeeping at every node.
    pub closed spec fn well_formed(self) -> bool {
        Node::optional_well_formed(self.root)
    }

    /// The in-order sequence of the subtree rooted at the node holding
    /// `val`; empty when no node holds `val`.
    pub closed spec fn subtree_seq(self, val: u64) -> Seq<u64> {
        Node::optional_subtree_seq(self.root, val)
    }

    /// The empty tree.
    pub fn new() -> (r: BinaryTree)
        ensures
            r.well_formed(),
            r.as_seq() == Seq::<u64>::empty(),
    {
        BinaryTree { root: None }
    }

    /// Inserts `new_value`.  Inserting a value that the tree already
    /// holds leaves the tree exactly as it was; otherwise the tree gains
    /// that one value.
    pub fn insert(&mut self, new_value: u64)
        requires
            old(self).well_formed(),
            old(self).as_seq().len() < usize::MAX,
        ensures
            final(self).well_formed(),
            forall|x: u64|
                final(self).as_seq().contains(x) <==> (old(self).as_seq().contains(x)
                    || x == new_value),
            old(self).as_seq().contains(new_value) ==> *final(self) == *old(self),
            !old(self).as_seq().contains(new_value) ==> final(self).as_seq().len() == old(
                self,
            ).as_seq().len() + 1,
    {
        match self.root.take() {
            Some(mut node) => {
                (&mut *node).insert(new_value);
                self.root = Some(node);
            }
            None => {
                self.root = Some(Box::new(Node::create(new_value)));
                proof {
                    assert forall|x: u64|
                        self.as_seq().contains(x) <==> (old(self).as_seq().contains(x)
                            || x == new_value) by {
                        if x == new_value {
                            assert(self.as_seq()[0] == x);
                        }
                    }
                }
            }
        }
    }

    /// True exactly when `value` is held by the tree.
    pub fn find(&self, value: u64) -> (r: bool)
        requires
            self.well_formed(),
        ensures
            r == self.as_seq().contains(value),
    {
        match &self.root {
            Some(node) => node.find(&value),
            None => false,
        }
    }

    /// The smallest value the tree holds, or `None` on the empty tree.
    pub fn find_min(&self) -> (r: Option<&u64>)
        requires
            self.well_formed(),
        ensures
            match r {
                Some(v) => self.as_seq().len() > 0 && *v == self.as_seq()[0] && forall|i: int|
                    0 <= i < self.as_seq().len() ==> *v <= self.as_seq()[i],
                None => self.as_seq().len() == 0,
            },
    {
        match &self.root {
            Some(node) => Some(node.find_min()),
            None => None,
        }
    }

    /// The largest value the tree holds, or `None` on the empty tree.
    pub fn find_max(&self) -> (r: Option<&u64>)
        requires
            self.well_formed(),
        ensures
            match r {
                Some(v) => self.as_seq().len() > 0 && *v == self.as_seq()[self.as_seq().len() - 1]
                    && forall|i: int| 0 <= i < self.as_seq().len() ==> self.as_seq()[i] <= *v,
                None => self.as_seq().len() == 0,
            },
    {
        match &self.root {
            Some(node) => Some(node.find_max()),
            None => None,
        }
    }

    /// Removes the value `val` from the tree: exactly one node goes
    /// away, every count on the descent path is kept exact, and deleting
    /// a value the tree does not hold leaves the tree exactly as it was.
    pub fn delete(&mut self, val: u64)
        requires
            old(self).well_formed(),
        ensures
            final(self).well_formed(),
            forall|x: u64|
                final(self).as_seq().contains(x) <==> (old(self).as_seq().contains(x) && x != val),
            !old(self).as_seq().contains(val) ==> *final(self) == *old(self),
            old(self).as_seq().contains(val) ==> final(self).as_seq().len() == old(
                self,
            ).as_seq().len() - 1,
    {
        match self.root.take() {
            Some(mut node) => {
                let ghost pre = *node;
                if node.value == val {
                    if node.is_leaf() {
                        proof {
                            assert(pre.as_seq() =~= seq![val]);
                            assert forall|x: u64|
                                #[trigger] old(self).as_seq().contains(x) implies x == val by {
                                let i = choose|i: int|
                                    0 <= i < pre.as_seq().len() && pre.as_seq()[i] == x;
                            }
                            assert(pre.as_seq()[0] == val);
                        }
                        // the root was the only node; the tree is empty now
                    } else {
                        (&mut *node).delete_value();
                        self.root = Some(node);
                        proof {
                            let la = Node::optional_as_seq(pre.left);
                            let lb = Node::optional_as_seq(pre.right);
                            assert(self.as_seq() == la + lb);
                            assert(pre.as_seq()[la.len() as int] == val);
                            assert forall|x: u64|
                                self.as_seq().contains(x) <==> (old(self).as_seq().contains(x) && x
                                    != val) by {
                                lemma_concat_contains(la, lb, x);
                                lemma_membership(pre, x);
                            }
                        }
                    }
                } else {
                    let found = node.find(&val);
                    if found {
                        (&mut *node).delete(val);
                    }
                    self.root = Some(node);
                }
            }
            None => {}
        }
    }

    /// Removes the whole subtree rooted at the node holding `value`:
    /// that node and every value below it go away, and the counts on
    /// the descent path are lowered by the removed population.  When the
    /// tree does not hold `value` it is left exactly as it was.
    pub fn delete_node(&mut self, value: u64)
        requires
            old(self).well_formed(),
            old(self).as_seq().len() < usize::MAX,
        ensures
            final(self).well_formed(),
            forall|x: u64|
                final(self).as_seq().contains(x) <==> (old(self).as_seq().contains(x) && !old(
                    self,
                ).subtree_seq(value).contains(x)),
            final(self).as_seq().len() == old(self).as_seq().len() - old(self).subtree_seq(
                value,
            ).len(),
            !old(self).as_seq().contains(value) ==> *final(self) == *old(self),
    {
        match self.root.take() {
            Some(mut node) => {
                let ghost pre = *node;
                proof {
                    lemma_subtree(pre, value);
                }
                if node.value == value {
                    proof {
                        assert(old(self).subtree_seq(value) == pre.as_seq());
                        assert(pre.as_seq()[pre.left_nodes_count as int] == value);
                    }
                    // the whole tree was the removed subtree
                } else {
                    let count_opt = (&mut *node).get_nodes_count(&value);
                    match count_opt {
                        Some(nodes_count) => {
                            (&mut *node).delete_node(nodes_count, value);
                            self.root = Some(node);
                        }
                        None => {
                            self.root = Some(node);
                        }
                    }
                }
            }
            None => {}
        }
    }

    /// The value of rank `n`, 1-indexed from the smallest: rank `n`
    /// is the element at index `n - 1` of the ascending in-order
    /// sequence.  Rank `0` and ranks beyond the population yield `None`.
    pub fn find_n_max(&self, n: usize) -> (r: Option<&u64>)
        requires
            self.well_formed(),
        ensures
            match r {
                Some(v) => 1 <= n <= self.as_seq().len() && *v == self.as_seq()[n - 1],
                None => !(1 <= n <= self.as_seq().len()),
            },
    {
        match &self.root {
            Some(node) if n != 0 => {
                match node.find_n_max(n, NodeOption::Value) {
                    Some(NodeOptionValue::Value(n_max)) => Some(n_max),
                    _ => None,
                }
            }
            _ => None,
        }
    }
}

/// A lazy walk over the values of a tree in ascending order, driven by
/// rank queries: the `counter`-th call of `next` asks the borrowed tree
/// for the value of rank `counter`.  The walk borrows the tree, so the
/// tree cannot change under it, and a fresh walk over the unchanged
/// tree yields the identical values again.
pub struct BinaryTreeIterator<'a> {
    pub counter: usize,
    pub root: Option<&'a Node>,
}

impl<'a> BinaryTreeIterator<'a> {
    /// What the walk ranges over: the in-order sequence of the borrowed
    /// tree.
    pub open spec fn full_seq(self) -> Seq<u64> {
        match self.root {
            Some(n) => n.as_seq(),
            None => Seq::empty(),
        }
    }

    pub open spec fn inv(self) -> bool {
        &&& 1 <= self.counter
        &&& match self.root {
            Some(n) => n.well_formed() && n.as_seq().len() < usize::MAX,
            None => true,
        }
    }

    /// The next value in ascending order: the call numbered `k` on a
    /// fresh walk returns the value of rank `k`, and `None` once the
    /// population is exhausted.  The result depends only on the borrowed
    /// tree and the counter, so an exhausted walk stays exhausted and a
    /// re-created walk repeats the same values.
    pub fn next(&mut self) -> (r: Option<&'a u64>)
        requires
            old(self).inv(),
        ensures
            final(self).inv(),
            final(self).root == old(self).root,
            match r {
                Some(v) => {
                    &&& old(self).counter <= old(self).full_seq().len()
                    &&& *v == old(self).full_seq()[old(self).counter - 1]
                    &&& final(self).counter == old(self).counter + 1
                },
                None => old(self).counter > old(self).full_seq().len() && *final(self) == *old(
                    self,
                ),
            },
    {
        match self.root {
            Some(root) => {
                match root.find_n_max(self.counter, NodeOption::Value) {
                    Some(NodeOptionValue::Value(next)) => {
                        self.counter = self.counter + 1;
                        Some(next)
                    }
                    _ => None,
                }
            }
            None => None,
        }
    }
}

impl BinaryTree {
    /// A fresh walk over the tree's values in ascending order, starting
    /// at rank 1.
    pub fn iter<'a>(&'a self) -> (r: BinaryTreeIterator<'a>)
        requires
            self.well_formed(),
            self.as_seq().len() < usize::MAX,
        ensures
            r.inv(),
            r.counter == 1,
            r.full_seq() == self.as_seq(),
    {
        match &self.root {
            Some(node) => BinaryTreeIterator { counter: 1, root: Some(&**node) },
            None => BinaryTreeIterator { counter: 1, root: None },
        }
    }
}

/// The rank-query order law: ranks enumerate the tree's values in
/// strictly ascending order, so rank 1 is the smallest value, rank
/// `population` the largest, and the whole enumeration is the ascending
/// sort of the set of values the tree holds.
pub proof fn lemma_rank_values_ascending(tree: BinaryTree, i: int, j: int)
    requires
        tree.well_formed(),
        0 <= i < j < tree.as_seq().len(),
    ensures
        tree.as_seq()[i] < tree.as_seq()[j],
{
    match tree.root {
        Some(n) => {
            lemma_sorted(*n);
            assert(tree.as_seq() == n.as_seq());
        }
        None => {}
    }
}

/// The determinacy law: a well-formed tree's in-order sequence — and
/// with it every rank query and every walk — is fully determined by the
/// set of values the tree holds, whatever order inserts and deletes
/// built it in.
pub proof fn lemma_same_values_same_seq(t1: BinaryTree, t2: BinaryTree)
    requires
        t1.well_formed(),
        t2.well_formed(),
        forall|x: u64| t1.as_seq().contains(x) <==> t2.as_seq().contains(x),
    ensures
        t1.as_seq() == t2.as_seq(),
{
    match t1.root {
        Some(n) => {
            lemma_sorted(*n);
            assert(t1.as_seq() == n.as_seq());
        }
        None => {}
    }
    match t2.root {
        Some(n) => {
            lemma_sorted(*n);
            assert(t2.as_seq() == n.as_seq());
        }
        None => {}
    }
    lemma_sorted_unique(t1.as_seq(), t2.as_seq());
}

} // verus!
