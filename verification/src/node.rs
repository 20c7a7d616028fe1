use vstd::prelude::*;

verus! {

/// A node of an unbalanced binary search tree over `u64` values.
///
/// Besides its value and its two optional children, every node keeps
/// `left_nodes_count`, the number of nodes in its left subtree.  This
/// augmentation is what makes rank queries (`find_n_max`) run in time
/// proportional to the depth of the tree.
pub struct Node {
    pub value: u64,
    pub left: Option<Box<Node>>,
    pub right: Option<Box<Node>>,
    pub left_nodes_count: usize,
}

/// Selects what `find_n_max` hands back: the node itself or its value.
pub enum NodeOption {
    Node,
    Value,
}

/// The result of `find_n_max`: a reference to the node of the requested
/// rank, or a reference to its value, as asked for by `NodeOption`.
pub enum NodeOptionValue<'a> {
    Node(&'a Node),
    Value(&'a u64),
}

/// A lazy walk over the nodes of a subtree in ascending value order,
/// driven by rank queries: the `counter`-th call asks for rank
/// `counter`.  It borrows the subtree, so the tree cannot change under
/// it, and a fresh walk over the unchanged subtree yields the identical
/// nodes again.
pub struct NodeIterator<'a> {
    pub counter: usize,
    pub node: Option<&'a Node>,
}

/// A lazy walk over the values of a subtree in ascending order, driven
/// by rank queries exactly like `NodeIterator`.
pub struct NodeValuesIterator<'a> {
    pub counter: usize,
    pub node: Option<&'a Node>,
}

impl Node {
    /// The in-order sequence of the values of an optional subtree,
    /// in ascending order; empty if the subtree is absent.
    pub open spec fn optional_as_seq(node_opt: Option<Box<Node>>) -> Seq<u64>
        decreases node_opt,
    {
        match node_opt {
            None => Seq::empty(),
            Some(node) => node.as_seq(),
        }
    }

    /// The in-order sequence of the values of this subtree: left subtree,
    /// then the node's own value, then the right subtree.  On a
    /// well-formed node this sequence is strictly ascending, so rank `n`
    /// (the argument of `find_n_max`) addresses index `n - 1`.
    pub open spec fn as_seq(self) -> Seq<u64>
        decreases self,
    {
        Node::optional_as_seq(self.left) + seq![self.value] + Node::optional_as_seq(self.right)
    }

    pub open spec fn optional_well_formed(node_opt: Option<Box<Node>>) -> bool
        decreases node_opt,
    {
        match node_opt {
            None => true,
            Some(node) => node.well_formed(),
        }
    }

    /// The tree invariant: every value in the left subtree is below the
    /// node's value, every value in the right subtree is above it, both
    /// subtrees satisfy the same condition, and `left_nodes_count` is
    /// exactly the number of nodes of the left subtree.
    pub open spec fn well_formed(self) -> bool
        decreases self,
    {
        &&& Node::optional_well_formed(self.left)
        &&& Node::optional_well_formed(self.right)
        &&& (forall|i: int|
            0 <= i < Node::optional_as_seq(self.left).len()
                ==> Node::optional_as_seq(self.left)[i] < self.value)
        &&& (forall|i: int|
            0 <= i < Node::optional_as_seq(self.right).len()
                ==> self.value < Node::optional_as_seq(self.right)[i])
        &&& self.left_nodes_count == Node::optional_as_seq(self.left).len()
    }

    pub open spec fn spec_is_leaf(self) -> bool {
        self.left is None && self.right is None
    }

    /// The in-order sequence of the subtree rooted at the node holding
    /// `val`, reached by the usual search descent; empty when no node
    /// holds `val`.
    pub open spec fn subtree_seq(self, val: u64) -> Seq<u64>
        decreases self,
    {
        if val == self.value {
            self.as_seq()
        } else if val < self.value {
            Node::optional_subtree_seq(self.left, val)
        } else {
            Node::optional_subtree_seq(self.right, val)
        }
    }

    pub open spec fn optional_subtree_seq(node_opt: Option<Box<Node>>, val: u64) -> Seq<u64>
        decreases node_opt,
    {
        match node_opt {
            None => Seq::empty(),
            Some(node) => node.subtree_seq(val),
        }
    }

    /// The leftmost node of this subtree: the holder of the smallest
    /// value.
    pub open spec fn spec_min_node(self) -> Node
        decreases self,
    {
        match self.left {
            None => self,
            Some(l) => l.spec_min_node(),
        }
    }

    /// The rightmost node of this subtree: the holder of the largest
    /// value.
    pub open spec fn spec_max_node(self) -> Node
        decreases self,
    {
        match self.right {
            None => self,
            Some(r) => r.spec_max_node(),
        }
    }

    /// This subtree with its leftmost node replaced by `m`.
    pub open spec fn with_min_node(self, m: Node) -> Node
        decreases self,
    {
        match self.left {
            None => m,
            Some(l) => Node { left: Some(Box::new(l.with_min_node(m))), ..self },
        }
    }

    /// This subtree with its rightmost node replaced by `m`.
    pub open spec fn with_max_node(self, m: Node) -> Node
        decreases self,
    {
        match self.right {
            None => m,
            Some(r) => Node { right: Some(Box::new(r.with_max_node(m))), ..self },
        }
    }

    /// True when every count along the left spine can take `c` more
    /// without overflowing.
    pub open spec fn spine_add_ok(self, c: nat) -> bool
        decreases self,
    {
        &&& self.left_nodes_count + c <= usize::MAX
        &&& match self.left {
            None => c <= usize::MAX,
            Some(l) => l.spine_add_ok(c),
        }
    }

    /// This subtree with every count along the left spine raised by
    /// `c`, except the leftmost node's, which becomes `c` itself: the
    /// bookkeeping after `c` nodes are grafted in below the leftmost
    /// position.
    pub open spec fn with_spine_counts_raised(self, c: nat) -> Node
        decreases self,
    {
        match self.left {
            None => Node { left_nodes_count: c as usize, ..self },
            Some(l) => Node {
                left_nodes_count: (self.left_nodes_count + c) as usize,
                left: Some(Box::new(l.with_spine_counts_raised(c))),
                ..self
            },
        }
    }

    /// True when every count along the left spine is at least `c`.
    pub open spec fn spine_sub_ok(self, c: nat) -> bool
        decreases self,
    {
        &&& c <= self.left_nodes_count
        &&& match self.left {
            None => true,
            Some(l) => l.spine_sub_ok(c),
        }
    }

    /// This subtree with every count along the left spine lowered by
    /// `c`, except the leftmost node's, which becomes zero: the
    /// bookkeeping after `c` nodes are taken out below the leftmost
    /// position.
    pub open spec fn with_spine_counts_lowered(self, c: nat) -> Node
        decreases self,
    {
        match self.left {
            None => Node { left_nodes_count: 0usize, ..self },
            Some(l) => Node {
                left_nodes_count: (self.left_nodes_count - c) as usize,
                left: Some(Box::new(l.with_spine_counts_lowered(c))),
                ..self
            },
        }
    }
}

/// On a well-formed node, the subtree rooted at the node holding `val`
/// carries a part of the node's own values, and it is non-empty exactly
/// when `val` is present at all.
pub proof fn lemma_subtree(node: Node, val: u64)
    requires
        node.well_formed(),
    ensures
        forall|x: u64|
            #[trigger] node.subtree_seq(val).contains(x) ==> node.as_seq().contains(x),
        node.subtree_seq(val).len() <= node.as_seq().len(),
        node.as_seq().contains(val) <==> node.subtree_seq(val).len() > 0,
        node.as_seq().contains(val) ==> node.subtree_seq(val).contains(val),
    decreases node,
{
    lemma_membership(node, val);
    if val == node.value {
        assert(node.as_seq()[Node::optional_as_seq(node.left).len() as int] == val);
        assert(node.as_seq().contains(val));
    } else if val < node.value {
        match node.left {
            None => {
                assert(Node::optional_as_seq(node.left) == Seq::<u64>::empty());
            }
            Some(l) => {
                lemma_subtree(*l, val);
                assert(node.subtree_seq(val) == l.subtree_seq(val));
                assert(Node::optional_as_seq(node.left) == l.as_seq());
                assert forall|x: u64|
                    #[trigger] node.subtree_seq(val).contains(x) implies node.as_seq().contains(
                    x,
                ) by {
                    lemma_membership(node, x);
                }
            }
        }
    } else {
        match node.right {
            None => {
                assert(Node::optional_as_seq(node.right) == Seq::<u64>::empty());
            }
            Some(r) => {
                lemma_subtree(*r, val);
                assert(node.subtree_seq(val) == r.subtree_seq(val));
                assert(Node::optional_as_seq(node.right) == r.as_seq());
                assert forall|x: u64|
                    #[trigger] node.subtree_seq(val).contains(x) implies node.as_seq().contains(
                    x,
                ) by {
                    lemma_membership(node, x);
                }
            }
        }
    }
}

/// On a well-formed node, a value occurs in the in-order sequence exactly
/// when it is the node's own value or occurs in one of the subtrees, and
/// each subtree only holds values on its side of the node's value.
pub proof fn lemma_membership(node: Node, x: u64)
    requires
        node.well_formed(),
    ensures
        node.as_seq().contains(x) <==> (x == node.value
            || Node::optional_as_seq(node.left).contains(x)
            || Node::optional_as_seq(node.right).contains(x)),
        Node::optional_as_seq(node.left).contains(x) ==> x < node.value,
        Node::optional_as_seq(node.right).contains(x) ==> x > node.value,
{
    let ls = Node::optional_as_seq(node.left);
    let rs = Node::optional_as_seq(node.right);
    let s = node.as_seq();
    if ls.contains(x) {
        let i = choose|i: int| 0 <= i < ls.len() && ls[i] == x;
        assert(s[i] == x);
    }
    if rs.contains(x) {
        let i = choose|i: int| 0 <= i < rs.len() && rs[i] == x;
        assert(s[ls.len() + 1 + i] == x);
    }
    if x == node.value {
        assert(s[ls.len() as int] == x);
    }
    if s.contains(x) {
        let i = choose|i: int| 0 <= i < s.len() && s[i] == x;
        if i < ls.len() {
            assert(ls[i] == x);
        } else if i == ls.len() {
            assert(x == node.value);
        } else {
            assert(rs[i - ls.len() - 1] == x);
        }
    }
}

/// A value occurs in a concatenation exactly when it occurs in one of
/// the parts.
pub proof fn lemma_concat_contains(a: Seq<u64>, b: Seq<u64>, x: u64)
    ensures
        (a + b).contains(x) <==> (a.contains(x) || b.contains(x)),
{
    if a.contains(x) {
        let i = choose|i: int| 0 <= i < a.len() && a[i] == x;
        assert((a + b)[i] == x);
    }
    if b.contains(x) {
        let i = choose|i: int| 0 <= i < b.len() && b[i] == x;
        assert((a + b)[a.len() + i] == x);
    }
    if (a + b).contains(x) {
        let i = choose|i: int| 0 <= i < (a + b).len() && (a + b)[i] == x;
        if i < a.len() {
            assert(a[i] == x);
        } else {
            assert(b[i - a.len()] == x);
        }
    }
}

/// The rank bookkeeping law: on a well-formed node, the node's own
/// value sits at index `left_nodes_count` of its in-order sequence, so
/// the node's rank within its own subtree is `left_nodes_count + 1` —
/// which is exactly the case in which `find_n_max` answers with the
/// node itself.
pub proof fn lemma_own_rank(node: Node)
    requires
        node.well_formed(),
    ensures
        node.as_seq()[node.left_nodes_count as int] == node.value,
{
}

/// On a well-formed node the in-order sequence is strictly ascending:
/// this is the search-tree order and the uniqueness of values in one
/// statement.
pub proof fn lemma_sorted(node: Node)
    requires
        node.well_formed(),
    ensures
        forall|i: int, j: int|
            0 <= i < j < node.as_seq().len() ==> node.as_seq()[i] < node.as_seq()[j],
    decreases node,
{
    let ls = Node::optional_as_seq(node.left);
    let rs = Node::optional_as_seq(node.right);
    let s = node.as_seq();
    match node.left {
        None => {}
        Some(l) => {
            lemma_sorted(*l);
            assert(ls == l.as_seq());
        }
    }
    match node.right {
        None => {}
        Some(r) => {
            lemma_sorted(*r);
            assert(rs == r.as_seq());
        }
    }
    assert(forall|i: int, j: int| 0 <= i < j < ls.len() ==> ls[i] < ls[j]);
    assert(forall|i: int, j: int| 0 <= i < j < rs.len() ==> rs[i] < rs[j]);
    assert forall|i: int, j: int| 0 <= i < j < s.len() implies s[i] < s[j] by {
        assert(s[ls.len() as int] == node.value);
        if j < ls.len() {
            assert(s[i] == ls[i] && s[j] == ls[j]);
        } else if i < ls.len() && j == ls.len() {
            assert(s[i] == ls[i]);
        } else if i < ls.len() {
            assert(s[i] == ls[i] && s[j] == rs[j - ls.len() - 1]);
            assert(ls[i] < node.value && node.value < rs[j - ls.len() - 1]);
        } else if i == ls.len() {
            assert(s[j] == rs[j - ls.len() - 1]);
        } else {
            assert(i > ls.len());
            assert(s[i] == rs[i - ls.len() - 1] && s[j] == rs[j - ls.len() - 1]);
        }
    }
}

impl Node {
    /// A fresh leaf holding `value`.
    pub fn create(value: u64) -> (r: Node)
        ensures
            r.well_formed(),
            r.as_seq() == seq![value],
            r.value == value,
            r.spec_is_leaf(),
    {
        let node = Node { value, left: None, right: None, left_nodes_count: 0 };
        proof {
            assert(node.as_seq() =~= seq![value]);
        }
        node
    }

    /// True when the node has no children.
    pub fn is_leaf(&self) -> (r: bool)
        ensures
            r == self.spec_is_leaf(),
    {
        self.right.is_none() && self.left.is_none()
    }

    /// Inserts `new_value` into this subtree.  Inserting a value that is
    /// already present leaves the subtree exactly as it was; otherwise one
    /// node is added and every `left_nodes_count` on the descent path is
    /// kept exact.
    pub fn insert(&mut self, new_value: u64)
        requires
            old(self).well_formed(),
            old(self).as_seq().len() < usize::MAX,
        ensures
            final(self).well_formed(),
            forall|x: u64|
                final(self).as_seq().contains(x) <==> (old(self).as_seq().contains(x)
                    || x == new_value),
            old(self).as_seq().contains(new_value) ==> *final(self) == *old(self),
            !old(self).as_seq().contains(new_value) ==> final(self).as_seq().len() == old(
                self,
            ).as_seq().len() + 1,
        decreases *old(self),
    {
        if self.find(&new_value) {
            return;
        }
        proof {
            lemma_membership(*old(self), new_value);
        }
        if new_value < self.value {
            self.left_nodes_count = self.left_nodes_count + 1;
            match self.left.take() {
                Some(mut l) => {
                    (&mut *l).insert(new_value);
                    self.left = Some(l);
                }
                None => {
                    self.left = Some(Box::new(Node::create(new_value)));
                    proof {
                        let nl = Node::optional_as_seq(self.left);
                        assert(old(self).left is None);
                        assert(Node::optional_as_seq(old(self).left) == Seq::<u64>::empty());
                        assert forall|x: u64|
                            nl.contains(x) <==> (Node::optional_as_seq(old(self).left).contains(x)
                                || x == new_value) by {
                            if x == new_value {
                                assert(nl[0] == x);
                            }
                        }
                    }
                }
            }
            proof {
                assert(self.left is Some);
                assert(Node::optional_as_seq(self.left) == self.left.unwrap().as_seq());
                self.lemma_insert_glue(*old(self), new_value);
            }
        } else {
            match self.right.take() {
                Some(mut r) => {
                    (&mut *r).insert(new_value);
                    self.right = Some(r);
                }
                None => {
                    self.right = Some(Box::new(Node::create(new_value)));
                    proof {
                        let nr = Node::optional_as_seq(self.right);
                        assert(old(self).right is None);
                        assert(Node::optional_as_seq(old(self).right) == Seq::<u64>::empty());
                        assert forall|x: u64|
                            nr.contains(x) <==> (Node::optional_as_seq(old(self).right).contains(x)
                                || x == new_value) by {
                            if x == new_value {
                                assert(nr[0] == x);
                            }
                        }
                    }
                }
            }
            proof {
                assert(self.right is Some);
                assert(Node::optional_as_seq(self.right) == self.right.unwrap().as_seq());
                self.lemma_insert_glue(*old(self), new_value);
            }
        }
    }

    /// Glue for `insert`: a node whose one changed child took in
    /// `new_value` (on the correct side, with the count updated when on
    /// the left) is well-formed again and holds exactly the old values
    /// and `new_value`.
    proof fn lemma_insert_glue(self, pre: Node, new_value: u64)
        requires
            pre.well_formed(),
            !pre.as_seq().contains(new_value),
            new_value != pre.value,
            self.value == pre.value,
            new_value < pre.value ==> {
                &&& self.right == pre.right
                &&& self.left_nodes_count == pre.left_nodes_count + 1
                &&& Node::optional_well_formed(self.left)
                &&& forall|x: u64|
                    Node::optional_as_seq(self.left).contains(x) <==> (Node::optional_as_seq(
                        pre.left,
                    ).contains(x) || x == new_value)
                &&& Node::optional_as_seq(self.left).len() == Node::optional_as_seq(pre.left).len()
                    + 1
            },
            new_value > pre.value ==> {
                &&& self.left == pre.left
                &&& self.left_nodes_count == pre.left_nodes_count
                &&& Node::optional_well_formed(self.right)
                &&& forall|x: u64|
                    Node::optional_as_seq(self.right).contains(x) <==> (Node::optional_as_seq(
                        pre.right,
                    ).contains(x) || x == new_value)
                &&& Node::optional_as_seq(self.right).len() == Node::optional_as_seq(
                    pre.right,
                ).len() + 1
            },
        ensures
            self.well_formed(),
            forall|x: u64|
                self.as_seq().contains(x) <==> (pre.as_seq().contains(x) || x == new_value),
            self.as_seq().len() == pre.as_seq().len() + 1,
    {
        let ls = Node::optional_as_seq(self.left);
        let rs = Node::optional_as_seq(self.right);
        if new_value < pre.value {
            assert forall|i: int| 0 <= i < ls.len() implies ls[i] < self.value by {
                assert(ls.contains(ls[i]));
                lemma_membership(pre, ls[i]);
            }
        } else {
            assert forall|i: int| 0 <= i < rs.len() implies self.value < rs[i] by {
                assert(rs.contains(rs[i]));
                lemma_membership(pre, rs[i]);
            }
        }
        assert(self.well_formed());
        assert forall|x: u64|
            self.as_seq().contains(x) <==> (pre.as_seq().contains(x) || x == new_value) by {
            lemma_membership(self, x);
            lemma_membership(pre, x);
        }
    }

    /// The largest value of this subtree: the last element of the
    /// in-order sequence, reached by descending right all the way.
    pub fn find_max(&self) -> (r: &u64)
        requires
            self.well_formed(),
        ensures
            *r == self.as_seq()[self.as_seq().len() - 1],
            forall|i: int| 0 <= i < self.as_seq().len() ==> self.as_seq()[i] <= *r,
        decreases self,
    {
        proof {
            lemma_sorted(*self);
        }
        match &self.right {
            Some(right) => {
                let r = right.find_max();
                proof {
                    let ls = Node::optional_as_seq(self.left);
                    let rs = Node::optional_as_seq(self.right);
                    assert(self.as_seq()[ls.len() + rs.len() as int] == rs[rs.len() - 1]);
                }
                r
            }
            None => &self.value,
        }
    }

    /// The smallest value of this subtree: the first element of the
    /// in-order sequence, reached by descending left all the way.
    pub fn find_min(&self) -> (r: &u64)
        requires
            self.well_formed(),
        ensures
            *r == self.as_seq()[0],
            forall|i: int| 0 <= i < self.as_seq().len() ==> *r <= self.as_seq()[i],
        decreases self,
    {
        proof {
            lemma_sorted(*self);
        }
        match &self.left {
            Some(left) => {
                let r = left.find_min();
                proof {
                    let ls = Node::optional_as_seq(self.left);
                    assert(self.as_seq()[0] == ls[0]);
                }
                r
            }
            None => &self.value,
        }
    }

    /// The rank query that everything else is built on: rank `n` is
    /// 1-indexed in the in-order sequence, so `n == 1` asks for the
    /// smallest value.  With `c = left_nodes_count`, rank `c + 1` is this
    /// node's own value, ranks up to `c` lie in the left subtree, and
    /// larger ranks continue into the right subtree with `n - c - 1`.
    /// Rank `0` and ranks beyond the population yield `None`.
    pub fn find_n_max<'a>(&'a self, n: usize, node_option: NodeOption) -> (r: Option<
        NodeOptionValue<'a>,
    >)
        requires
            self.well_formed(),
        ensures
            1 <= n <= self.as_seq().len() ==> (match r {
                Some(NodeOptionValue::Value(v)) => node_option is Value && *v == self.as_seq()[n
                    - 1],
                Some(NodeOptionValue::Node(m)) => node_option is Node && m.well_formed()
                    && m.value == self.as_seq()[n - 1],
                None => false,
            }),
            !(1 <= n <= self.as_seq().len()) ==> r is None,
        decreases self,
    {
        let c = self.left_nodes_count;
        if n >= 1 && n - 1 == c {
            proof {
                assert(self.as_seq()[c as int] == self.value);
            }
            match node_option {
                NodeOption::Value => Some(NodeOptionValue::Value(&self.value)),
                NodeOption::Node => Some(NodeOptionValue::Node(self)),
            }
        } else if n > c {
            match &self.right {
                Some(right) => {
                    let r = right.find_n_max(n - c - 1, node_option);
                    proof {
                        let ls = Node::optional_as_seq(self.left);
                        let rs = Node::optional_as_seq(self.right);
                        if 1 <= n <= self.as_seq().len() {
                            assert(self.as_seq()[n - 1] == rs[n - c - 2]);
                        }
                    }
                    r
                }
                None => None,
            }
        } else {
            match &self.left {
                Some(left) => {
                    let r = left.find_n_max(n, node_option);
                    proof {
                        let ls = Node::optional_as_seq(self.left);
                        if 1 <= n <= self.as_seq().len() {
                            assert(self.as_seq()[n - 1] == ls[n - 1]);
                        }
                    }
                    r
                }
                None => None,
            }
        }
    }

    /// Splices the smallest node out of an optional subtree and returns
    /// it, detached: the node's own right child takes its place, and the
    /// counts along the descent path are lowered by one.
    fn pop_min(node: &mut Option<Box<Node>>) -> (r: Box<Node>)
        requires
            old(node).is_some(),
            Node::optional_well_formed(*old(node)),
        ensures
            Node::optional_well_formed(*final(node)),
            r.spec_is_leaf(),
            r.left_nodes_count == 0,
            r.value == Node::optional_as_seq(*old(node))[0],
            Node::optional_as_seq(*final(node)) == Node::optional_as_seq(*old(node)).subrange(
                1,
                Node::optional_as_seq(*old(node)).len() as int,
            ),
        decreases *old(node),
    {
        let mut b = node.take().unwrap();
        let ghost pre = *b;
        if b.left.is_some() {
            b.left_nodes_count = b.left_nodes_count - 1;
            let m = Node::pop_min(&mut b.left);
            *node = Some(b);
            proof {
                let pls = Node::optional_as_seq(pre.left);
                let ps = pre.as_seq();
                let cur = node.unwrap();
                assert(Node::optional_as_seq(cur.left) == pls.subrange(1, pls.len() as int));
                assert forall|i: int|
                    0 <= i < Node::optional_as_seq(cur.left).len() implies Node::optional_as_seq(
                    cur.left,
                )[i] < cur.value by {
                    assert(Node::optional_as_seq(cur.left)[i] == pls[i + 1]);
                }
                assert(cur.well_formed());
                assert(m.value == pls[0]);
                assert(ps[0] == pls[0]);
                assert(cur.as_seq() =~= ps.subrange(1, ps.len() as int));
            }
            m
        } else {
            let right_child = b.right.take();
            *node = right_child;
            proof {
                let ps = pre.as_seq();
                assert(Node::optional_as_seq(pre.left) == Seq::<u64>::empty());
                assert(ps[0] == pre.value);
                assert(Node::optional_as_seq(*node) =~= ps.subrange(1, ps.len() as int));
            }
            b
        }
    }

    /// Splices the largest node out of an optional subtree and returns
    /// it, detached: the node's own left child takes its place.  Counts
    /// along the descent path are unaffected, since the removed node
    /// never lies in a left subtree of that path.
    fn pop_max(node: &mut Option<Box<Node>>) -> (r: Box<Node>)
        requires
            old(node).is_some(),
            Node::optional_well_formed(*old(node)),
        ensures
            Node::optional_well_formed(*final(node)),
            r.spec_is_leaf(),
            r.left_nodes_count == 0,
            r.value == Node::optional_as_seq(*old(node))[Node::optional_as_seq(*old(node)).len()
                - 1],
            Node::optional_as_seq(*final(node)) == Node::optional_as_seq(*old(node)).subrange(
                0,
                Node::optional_as_seq(*old(node)).len() - 1,
            ),
        decreases *old(node),
    {
        let mut b = node.take().unwrap();
        let ghost pre = *b;
        if b.right.is_some() {
            let m = Node::pop_max(&mut b.right);
            *node = Some(b);
            proof {
                let pls = Node::optional_as_seq(pre.left);
                let prs = Node::optional_as_seq(pre.right);
                let ps = pre.as_seq();
                let cur = node.unwrap();
                assert(Node::optional_as_seq(cur.right) == prs.subrange(0, prs.len() - 1));
                assert forall|i: int|
                    0 <= i < Node::optional_as_seq(cur.right).len() implies cur.value
                    < Node::optional_as_seq(cur.right)[i] by {
                    assert(Node::optional_as_seq(cur.right)[i] == prs[i]);
                }
                assert(cur.well_formed());
                assert(m.value == prs[prs.len() - 1]);
                assert(ps[ps.len() - 1] == prs[prs.len() - 1]);
                assert(cur.as_seq() =~= ps.subrange(0, ps.len() - 1));
            }
            m
        } else {
            let left_child = b.left.take();
            b.left_nodes_count = 0;
            *node = left_child;
            proof {
                let pls = Node::optional_as_seq(pre.left);
                let ps = pre.as_seq();
                assert(Node::optional_as_seq(pre.right) == Seq::<u64>::empty());
                assert(ps[ps.len() - 1] == pre.value);
                assert(Node::optional_as_seq(*node) =~= ps.subrange(0, ps.len() - 1));
            }
            b
        }
    }

    /// Splices out and returns the smallest node of this subtree, which
    /// lives in the left subtree; on a node with no left child there is
    /// no such node and the call is a no-op returning `None`.  The
    /// returned node is detached: both children absent, count zero.
    pub fn remove_min_node(&mut self) -> (r: Option<Box<Node>>)
        requires
            old(self).well_formed(),
        ensures
            final(self).well_formed(),
            match r {
                None => old(self).left is None && *final(self) == *old(self),
                Some(m) => {
                    &&& old(self).left is Some
                    &&& m.spec_is_leaf()
                    &&& m.left_nodes_count == 0
                    &&& m.value == old(self).as_seq()[0]
                    &&& final(self).as_seq() == old(self).as_seq().subrange(
                        1,
                        old(self).as_seq().len() as int,
                    )
                },
            },
    {
        if self.left.is_some() {
            self.left_nodes_count = self.left_nodes_count - 1;
            let m = Node::pop_min(&mut self.left);
            proof {
                let pls = Node::optional_as_seq(old(self).left);
                let ps = old(self).as_seq();
                assert(Node::optional_as_seq(self.left) == pls.subrange(1, pls.len() as int));
                assert forall|i: int|
                    0 <= i < Node::optional_as_seq(self.left).len() implies Node::optional_as_seq(
                    self.left,
                )[i] < self.value by {
                    assert(Node::optional_as_seq(self.left)[i] == pls[i + 1]);
                }
                assert(self.well_formed());
                assert(m.value == pls[0] && ps[0] == pls[0]);
                assert(self.as_seq() =~= ps.subrange(1, ps.len() as int));
            }
            Some(m)
        } else {
            None
        }
    }

    /// Splices out and returns the largest node of this subtree, which
    /// lives in the right subtree; on a node with no right child there is
    /// no such node and the call is a no-op returning `None`.  The
    /// returned node is detached: both children absent, count zero.
    pub fn remove_max_node(&mut self) -> (r: Option<Box<Node>>)
        requires
            old(self).well_formed(),
        ensures
            final(self).well_formed(),
            match r {
                None => old(self).right is None && *final(self) == *old(self),
                Some(m) => {
                    &&& old(self).right is Some
                    &&& m.spec_is_leaf()
                    &&& m.left_nodes_count == 0
                    &&& m.value == old(self).as_seq()[old(self).as_seq().len() - 1]
                    &&& final(self).as_seq() == old(self).as_seq().subrange(
                        0,
                        old(self).as_seq().len() - 1,
                    )
                },
            },
    {
        if self.right.is_some() {
            let m = Node::pop_max(&mut self.right);
            proof {
                let pls = Node::optional_as_seq(old(self).left);
                let prs = Node::optional_as_seq(old(self).right);
                let ps = old(self).as_seq();
                assert(Node::optional_as_seq(self.right) == prs.subrange(0, prs.len() - 1));
                assert forall|i: int|
                    0 <= i < Node::optional_as_seq(self.right).len() implies self.value
                    < Node::optional_as_seq(self.right)[i] by {
                    assert(Node::optional_as_seq(self.right)[i] == prs[i]);
                }
                assert(self.well_formed());
                assert(m.value == prs[prs.len() - 1] && ps[ps.len() - 1] == prs[prs.len() - 1]);
                assert(self.as_seq() =~= ps.subrange(0, ps.len() - 1));
            }
            Some(m)
        } else {
            None
        }
    }

    /// Removes this node's own value.  The value is replaced by the
    /// in-order successor (the smallest value of the right subtree), or,
    /// when there is no right child, by the in-order predecessor (the
    /// largest value of the left subtree), and the donor node is spliced
    /// out with every affected count kept exact.  On a leaf there is no
    /// donor and the call is a no-op.
    pub fn delete_value(&mut self)
        requires
            old(self).well_formed(),
        ensures
            final(self).well_formed(),
            old(self).spec_is_leaf() ==> *final(self) == *old(self),
            !old(self).spec_is_leaf() ==> final(self).as_seq() == Node::optional_as_seq(
                old(self).left,
            ) + Node::optional_as_seq(old(self).right),
            !old(self).spec_is_leaf() ==> final(self).as_seq().len() == old(self).as_seq().len()
                - 1,
    {
        proof {
            match old(self).right {
                Some(r) => {
                    lemma_sorted(*r);
                    assert(Node::optional_as_seq(old(self).right) == r.as_seq());
                }
                None => {}
            }
            match old(self).left {
                Some(l) => {
                    lemma_sorted(*l);
                    assert(Node::optional_as_seq(old(self).left) == l.as_seq());
                }
                None => {}
            }
        }
        if self.right.is_some() {
            let m = Node::pop_min(&mut self.right);
            self.value = m.value;
            proof {
                let pls = Node::optional_as_seq(old(self).left);
                let prs = Node::optional_as_seq(old(self).right);
                assert(Node::optional_as_seq(self.right) == prs.subrange(1, prs.len() as int));
                assert(self.value == prs[0]);
                assert forall|i: int|
                    0 <= i < Node::optional_as_seq(self.right).len() implies self.value
                    < Node::optional_as_seq(self.right)[i] by {
                    assert(Node::optional_as_seq(self.right)[i] == prs[i + 1]);
                    assert(prs[0] < prs[i + 1]);
                }
                assert forall|i: int| 0 <= i < pls.len() implies pls[i] < self.value by {
                    assert(pls[i] < old(self).value);
                    assert(old(self).value < prs[0]);
                }
                assert(self.well_formed());
                assert(self.as_seq() =~= pls + prs);
            }
        } else if self.left.is_some() {
            let m = Node::pop_max(&mut self.left);
            self.value = m.value;
            self.left_nodes_count = self.left_nodes_count - 1;
            proof {
                let pls = Node::optional_as_seq(old(self).left);
                let prs = Node::optional_as_seq(old(self).right);
                assert(Node::optional_as_seq(self.left) == pls.subrange(0, pls.len() - 1));
                assert(self.value == pls[pls.len() - 1]);
                assert forall|i: int|
                    0 <= i < Node::optional_as_seq(self.left).len() implies Node::optional_as_seq(
                    self.left,
                )[i] < self.value by {
                    assert(Node::optional_as_seq(self.left)[i] == pls[i]);
                    assert(pls[i] < pls[pls.len() - 1]);
                }
                assert forall|i: int| 0 <= i < prs.len() implies self.value < prs[i] by {
                    assert(old(self).value < prs[i]);
                    assert(pls[pls.len() - 1] < old(self).value);
                }
                assert(self.well_formed());
                assert(self.as_seq() =~= pls + prs);
            }
        }
    }

    /// Removes `val` from this subtree, where `val` is present and is
    /// not this node's own value (the owner of the subtree handles that
    /// case).  Exactly one node goes away, and every count on the
    /// descent path is kept exact.
    pub fn delete(&mut self, val: u64)
        requires
            old(self).well_formed(),
            old(self).as_seq().contains(val),
            val != old(self).value,
        ensures
            final(self).well_formed(),
            forall|x: u64|
                final(self).as_seq().contains(x) <==> (old(self).as_seq().contains(x) && x != val),
            final(self).as_seq().len() == old(self).as_seq().len() - 1,
        decreases *old(self),
    {
        proof {
            lemma_membership(*old(self), val);
        }
        if val < self.value {
            proof {
                if self.left is None {
                    assert(Node::optional_as_seq(old(self).left) == Seq::<u64>::empty());
                }
            }
            self.left_nodes_count = self.left_nodes_count - 1;
            let mut l = self.left.take().unwrap();
            let ghost lpre = *l;
            if val == l.value {
                if l.is_leaf() {
                    proof {
                        assert(lpre.as_seq() =~= seq![val]);
                        assert forall|x: u64|
                            #[trigger] Node::optional_as_seq(old(self).left).contains(x) implies x
                            == val by {
                            let i = choose|i: int|
                                0 <= i < lpre.as_seq().len() && lpre.as_seq()[i] == x;
                        }
                    }
                } else {
                    (&mut *l).delete_value();
                    self.left = Some(l);
                    proof {
                        let la = Node::optional_as_seq(lpre.left);
                        let lb = Node::optional_as_seq(lpre.right);
                        assert(Node::optional_as_seq(self.left) == la + lb);
                        assert forall|x: u64|
                            Node::optional_as_seq(self.left).contains(x) <==> (
                            Node::optional_as_seq(old(self).left).contains(x) && x != val) by {
                            lemma_concat_contains(la, lb, x);
                            lemma_membership(lpre, x);
                        }
                    }
                }
            } else {
                (&mut *l).delete(val);
                self.left = Some(l);
            }
            proof {
                self.lemma_delete_glue(*old(self), val);
            }
        } else {
            proof {
                if self.right is None {
                    assert(Node::optional_as_seq(old(self).right) == Seq::<u64>::empty());
                }
            }
            let mut r = self.right.take().unwrap();
            let ghost rpre = *r;
            if val == r.value {
                if r.is_leaf() {
                    proof {
                        assert(rpre.as_seq() =~= seq![val]);
                        assert forall|x: u64|
                            #[trigger] Node::optional_as_seq(old(self).right).contains(x) implies x
                            == val by {
                            let i = choose|i: int|
                                0 <= i < rpre.as_seq().len() && rpre.as_seq()[i] == x;
                        }
                    }
                } else {
                    (&mut *r).delete_value();
                    self.right = Some(r);
                    proof {
                        let ra = Node::optional_as_seq(rpre.left);
                        let rb = Node::optional_as_seq(rpre.right);
                        assert(Node::optional_as_seq(self.right) == ra + rb);
                        assert forall|x: u64|
                            Node::optional_as_seq(self.right).contains(x) <==> (
                            Node::optional_as_seq(old(self).right).contains(x) && x != val) by {
                            lemma_concat_contains(ra, rb, x);
                            lemma_membership(rpre, x);
                        }
                    }
                }
            } else {
                (&mut *r).delete(val);
                self.right = Some(r);
            }
            proof {
                self.lemma_delete_glue(*old(self), val);
            }
        }
    }

    /// Glue for `delete`: a node whose one changed child gave up `val`
    /// (on the correct side, with the count updated when on the left) is
    /// well-formed again and holds exactly the old values except `val`.
    proof fn lemma_delete_glue(self, pre: Node, val: u64)
        requires
            pre.well_formed(),
            pre.as_seq().contains(val),
            val != pre.value,
            self.value == pre.value,
            val < pre.value ==> {
                &&& self.right == pre.right
                &&& self.left_nodes_count == pre.left_nodes_count - 1
                &&& Node::optional_well_formed(self.left)
                &&& forall|x: u64|
                    Node::optional_as_seq(self.left).contains(x) <==> (Node::optional_as_seq(
                        pre.left,
                    ).contains(x) && x != val)
                &&& Node::optional_as_seq(self.left).len() == Node::optional_as_seq(pre.left).len()
                    - 1
            },
            val > pre.value ==> {
                &&& self.left == pre.left
                &&& self.left_nodes_count == pre.left_nodes_count
                &&& Node::optional_well_formed(self.right)
                &&& forall|x: u64|
                    Node::optional_as_seq(self.right).contains(x) <==> (Node::optional_as_seq(
                        pre.right,
                    ).contains(x) && x != val)
                &&& Node::optional_as_seq(self.right).len() == Node::optional_as_seq(
                    pre.right,
                ).len() - 1
            },
        ensures
            self.well_formed(),
            forall|x: u64|
                self.as_seq().contains(x) <==> (pre.as_seq().contains(x) && x != val),
            self.as_seq().len() == pre.as_seq().len() - 1,
    {
        let ls = Node::optional_as_seq(self.left);
        let rs = Node::optional_as_seq(self.right);
        if val < pre.value {
            assert forall|i: int| 0 <= i < ls.len() implies ls[i] < self.value by {
                assert(ls.contains(ls[i]));
                lemma_membership(pre, ls[i]);
            }
        } else {
            assert forall|i: int| 0 <= i < rs.len() implies self.value < rs[i] by {
                assert(rs.contains(rs[i]));
                lemma_membership(pre, rs[i]);
            }
        }
        assert(self.well_formed());
        assert forall|x: u64|
            self.as_seq().contains(x) <==> (pre.as_seq().contains(x) && x != val) by {
            lemma_membership(self, x);
            lemma_membership(pre, x);
        }
    }

    /// Detaches and returns the whole subtree rooted at the node holding
    /// `val`, where `val` is present and is not this node's own value.
    /// `nodes_count` must be the population of that subtree; it is what
    /// every count on the descent path is lowered by on a left turn.
    pub fn remove_node(&mut self, nodes_count: usize, val: u64) -> (r: Option<Box<Node>>)
        requires
            old(self).well_formed(),
            old(self).as_seq().contains(val),
            val != old(self).value,
            nodes_count == old(self).subtree_seq(val).len(),
        ensures
            final(self).well_formed(),
            forall|x: u64|
                final(self).as_seq().contains(x) <==> (old(self).as_seq().contains(x) && !old(
                    self,
                ).subtree_seq(val).contains(x)),
            final(self).as_seq().len() == old(self).as_seq().len() - nodes_count,
            match r {
                Some(sub) => sub.well_formed() && sub.as_seq() == old(self).subtree_seq(val),
                None => false,
            },
        decreases *old(self),
    {
        proof {
            lemma_membership(*old(self), val);
        }
        if val < self.value {
            proof {
                if self.left is None {
                    assert(Node::optional_as_seq(old(self).left) == Seq::<u64>::empty());
                }
                let l = old(self).left.unwrap();
                lemma_subtree(*l, val);
                assert(old(self).subtree_seq(val) == l.subtree_seq(val));
                assert(Node::optional_as_seq(old(self).left) == l.as_seq());
            }
            self.left_nodes_count = self.left_nodes_count - nodes_count;
            let mut l = self.left.take().unwrap();
            let ghost lpre = *l;
            let r;
            if val == l.value {
                proof {
                    assert(lpre.subtree_seq(val) == lpre.as_seq());
                    assert(Node::optional_as_seq(self.left) == Seq::<u64>::empty());
                }
                r = Some(l);
            } else {
                r = (&mut *l).remove_node(nodes_count, val);
                self.left = Some(l);
            }
            proof {
                self.lemma_remove_glue(*old(self), val);
            }
            r
        } else {
            proof {
                if self.right is None {
                    assert(Node::optional_as_seq(old(self).right) == Seq::<u64>::empty());
                }
                let rn = old(self).right.unwrap();
                lemma_subtree(*rn, val);
                assert(old(self).subtree_seq(val) == rn.subtree_seq(val));
                assert(Node::optional_as_seq(old(self).right) == rn.as_seq());
            }
            let mut rc = self.right.take().unwrap();
            let ghost rpre = *rc;
            let r;
            if val == rc.value {
                proof {
                    assert(rpre.subtree_seq(val) == rpre.as_seq());
                    assert(Node::optional_as_seq(self.right) == Seq::<u64>::empty());
                }
                r = Some(rc);
            } else {
                r = (&mut *rc).remove_node(nodes_count, val);
                self.right = Some(rc);
            }
            proof {
                self.lemma_remove_glue(*old(self), val);
            }
            r
        }
    }

    /// Glue for `remove_node` and `delete_node`: a node whose one
    /// changed child gave up the subtree rooted at `val` (with the count
    /// updated when on the left) is well-formed again and holds exactly
    /// the old values less that subtree's values.
    proof fn lemma_remove_glue(self, pre: Node, val: u64)
        requires
            pre.well_formed(),
            pre.as_seq().contains(val),
            val != pre.value,
            self.value == pre.value,
            val < pre.value ==> {
                &&& self.right == pre.right
                &&& self.left_nodes_count == pre.left_nodes_count - pre.subtree_seq(val).len()
                &&& Node::optional_well_formed(self.left)
                &&& forall|x: u64|
                    Node::optional_as_seq(self.left).contains(x) <==> (Node::optional_as_seq(
                        pre.left,
                    ).contains(x) && !pre.subtree_seq(val).contains(x))
                &&& Node::optional_as_seq(self.left).len() == Node::optional_as_seq(pre.left).len()
                    - pre.subtree_seq(val).len()
            },
            val > pre.value ==> {
                &&& self.left == pre.left
                &&& self.left_nodes_count == pre.left_nodes_count
                &&& Node::optional_well_formed(self.right)
                &&& forall|x: u64|
                    Node::optional_as_seq(self.right).contains(x) <==> (Node::optional_as_seq(
                        pre.right,
                    ).contains(x) && !pre.subtree_seq(val).contains(x))
                &&& Node::optional_as_seq(self.right).len() == Node::optional_as_seq(
                    pre.right,
                ).len() - pre.subtree_seq(val).len()
            },
        ensures
            self.well_formed(),
            forall|x: u64|
                self.as_seq().contains(x) <==> (pre.as_seq().contains(x) && !pre.subtree_seq(
                    val,
                ).contains(x)),
            self.as_seq().len() == pre.as_seq().len() - pre.subtree_seq(val).len(),
    {
        let ls = Node::optional_as_seq(self.left);
        let rs = Node::optional_as_seq(self.right);
        if val < pre.value {
            match pre.left {
                None => {}
                Some(l) => {
                    lemma_subtree(*l, val);
                    assert(pre.subtree_seq(val) == l.subtree_seq(val));
                    assert(Node::optional_as_seq(pre.left) == l.as_seq());
                }
            }
            assert forall|i: int| 0 <= i < ls.len() implies ls[i] < self.value by {
                assert(ls.contains(ls[i]));
                lemma_membership(pre, ls[i]);
            }
        } else {
            match pre.right {
                None => {}
                Some(r) => {
                    lemma_subtree(*r, val);
                    assert(pre.subtree_seq(val) == r.subtree_seq(val));
                    assert(Node::optional_as_seq(pre.right) == r.as_seq());
                }
            }
            assert forall|i: int| 0 <= i < rs.len() implies self.value < rs[i] by {
                assert(rs.contains(rs[i]));
                lemma_membership(pre, rs[i]);
            }
        }
        assert(self.well_formed());
        assert forall|x: u64|
            self.as_seq().contains(x) <==> (pre.as_seq().contains(x) && !pre.subtree_seq(
                val,
            ).contains(x)) by {
            lemma_membership(self, x);
            lemma_membership(pre, x);
        }
    }

    /// Removes the whole subtree rooted at the node holding `val`, under
    /// the same conditions as `remove_node`.
    pub fn delete_node(&mut self, nodes_count: usize, val: u64)
        requires
            old(self).well_formed(),
            old(self).as_seq().contains(val),
            val != old(self).value,
            nodes_count == old(self).subtree_seq(val).len(),
        ensures
            final(self).well_formed(),
            forall|x: u64|
                final(self).as_seq().contains(x) <==> (old(self).as_seq().contains(x) && !old(
                    self,
                ).subtree_seq(val).contains(x)),
            final(self).as_seq().len() == old(self).as_seq().len() - nodes_count,
    {
        let _removed = self.remove_node(nodes_count, val);
    }

    /// A mutable borrow of the rightmost node: the holder of the
    /// largest value.  Whatever the caller writes through the borrow
    /// lands at that position.
    pub fn get_max_node_mut(&mut self) -> (r: &mut Node)
        ensures
            *r == old(self).spec_max_node(),
            *final(self) == old(self).with_max_node(*final(r)),
        decreases *old(self),
    {
        if self.right.is_some() {
            let right = self.right.as_mut().unwrap();
            (&mut **right).get_max_node_mut()
        } else {
            self
        }
    }

    /// A mutable borrow of the leftmost node: the holder of the
    /// smallest value.  Whatever the caller writes through the borrow
    /// lands at that position.
    pub fn get_min_node_mut(&mut self) -> (r: &mut Node)
        ensures
            *r == old(self).spec_min_node(),
            *final(self) == old(self).with_min_node(*final(r)),
        decreases *old(self),
    {
        if self.left.is_some() {
            let left = self.left.as_mut().unwrap();
            (&mut **left).get_min_node_mut()
        } else {
            self
        }
    }

    /// Raises every count along the left spine by `nodes_count`, and
    /// makes it the leftmost node's count: the bookkeeping for grafting
    /// that many nodes in below the leftmost position.
    pub fn add_left_nodes_count(&mut self, nodes_count: usize)
        requires
            old(self).spine_add_ok(nodes_count as nat),
        ensures
            *final(self) == old(self).with_spine_counts_raised(nodes_count as nat),
        decreases *old(self),
    {
        match self.left.take() {
            Some(mut l) => {
                self.left_nodes_count = self.left_nodes_count + nodes_count;
                (&mut *l).add_left_nodes_count(nodes_count);
                self.left = Some(l);
            }
            None => {
                self.left_nodes_count = nodes_count;
            }
        }
    }

    /// Lowers every count along the left spine by `nodes_count`, and
    /// zeroes the leftmost node's count: the bookkeeping for taking
    /// that many nodes out below the leftmost position.
    pub fn sub_left_nodes_count(&mut self, nodes_count: usize)
        requires
            old(self).spine_sub_ok(nodes_count as nat),
        ensures
            *final(self) == old(self).with_spine_counts_lowered(nodes_count as nat),
        decreases *old(self),
    {
        match self.left.take() {
            Some(mut l) => {
                self.left_nodes_count = self.left_nodes_count - nodes_count;
                (&mut *l).sub_left_nodes_count(nodes_count);
                self.left = Some(l);
            }
            None => {
                self.left_nodes_count = 0;
            }
        }
    }

    /// The population of this subtree, counted the way the value
    /// iterator does: by probing ranks upward until one is out of range.
    fn count_nodes(&self) -> (r: usize)
        requires
            self.well_formed(),
            self.as_seq().len() < usize::MAX,
        ensures
            r == self.as_seq().len(),
    {
        let mut k: usize = 1;
        loop
            invariant
                self.well_formed(),
                self.as_seq().len() < usize::MAX,
                1 <= k <= self.as_seq().len() + 1,
            decreases self.as_seq().len() + 1 - k,
        {
            match self.find_n_max(k, NodeOption::Value) {
                Some(_) => {
                    k = k + 1;
                }
                None => {
                    return k - 1;
                }
            }
        }
    }

    /// The population of the subtree rooted at the node holding `val`,
    /// or `None` when no node holds `val`.  The tree itself is left
    /// untouched.
    pub fn get_nodes_count(&mut self, val: &u64) -> (r: Option<usize>)
        requires
            old(self).well_formed(),
            old(self).as_seq().len() < usize::MAX,
        ensures
            *final(self) == *old(self),
            match r {
                Some(c) => old(self).as_seq().contains(*val) && c == old(self).subtree_seq(
                    *val,
                ).len(),
                None => !old(self).as_seq().contains(*val),
            },
        decreases *old(self),
    {
        proof {
            lemma_membership(*old(self), *val);
        }
        if *val < self.value {
            match self.left.take() {
                Some(mut l) => {
                    let ghost lpre = *l;
                    let r = (&mut *l).get_nodes_count(val);
                    self.left = Some(l);
                    proof {
                        assert(Node::optional_as_seq(old(self).left) == lpre.as_seq());
                        assert(old(self).subtree_seq(*val) == lpre.subtree_seq(*val));
                    }
                    r
                }
                None => {
                    proof {
                        assert(Node::optional_as_seq(old(self).left) == Seq::<u64>::empty());
                    }
                    None
                }
            }
        } else if *val > self.value {
            match self.right.take() {
                Some(mut rn) => {
                    let ghost rpre = *rn;
                    let r = (&mut *rn).get_nodes_count(val);
                    self.right = Some(rn);
                    proof {
                        assert(Node::optional_as_seq(old(self).right) == rpre.as_seq());
                        assert(old(self).subtree_seq(*val) == rpre.subtree_seq(*val));
                    }
                    r
                }
                None => {
                    proof {
                        assert(Node::optional_as_seq(old(self).right) == Seq::<u64>::empty());
                    }
                    None
                }
            }
        } else {
            proof {
                assert(old(self).as_seq()[Node::optional_as_seq(old(self).left).len() as int]
                    == *val);
            }
            let c = self.count_nodes();
            Some(c)
        }
    }

    /// A fresh value walk over this subtree, starting at rank 1 (the
    /// smallest value).
    pub fn values<'a>(&'a self) -> (r: NodeValuesIterator<'a>)
        requires
            self.well_formed(),
            self.as_seq().len() < usize::MAX,
        ensures
            r.node == Some(self),
            r.counter == 1,
            r.inv(),
    {
        NodeValuesIterator { counter: 1, node: Some(self) }
    }

    /// A fresh node walk over this subtree, starting at rank 1.
    pub fn nodes<'a>(&'a self) -> (r: NodeIterator<'a>)
        requires
            self.well_formed(),
            self.as_seq().len() < usize::MAX,
        ensures
            r.node == Some(self),
            r.counter == 1,
            r.inv(),
    {
        NodeIterator { counter: 1, node: Some(self) }
    }

    /// Standard search-tree descent: true exactly when `val` is one of
    /// the values of this subtree.
    pub fn find(&self, val: &u64) -> (r: bool)
        requires
            self.well_formed(),
        ensures
            r == self.as_seq().contains(*val),
        decreases self,
    {
        proof {
            lemma_membership(*self, *val);
        }
        if *val == self.value {
            true
        } else if *val < self.value {
            match &self.left {
                Some(l) => l.find(val),
                None => false,
            }
        } else {
            match &self.right {
                Some(r) => r.find(val),
                None => false,
            }
        }
    }
}

impl<'a> NodeValuesIterator<'a> {
    /// What the walk ranges over: the in-order sequence of the borrowed
    /// subtree, empty when there is none.
    pub open spec fn full_seq(self) -> Seq<u64> {
        match self.node {
            Some(n) => n.as_seq(),
            None => Seq::empty(),
        }
    }

    pub open spec fn inv(self) -> bool {
        &&& 1 <= self.counter
        &&& match self.node {
            Some(n) => n.well_formed() && n.as_seq().len() < usize::MAX,
            None => true,
        }
    }

    /// The next value in ascending order: the call numbered `k` on a
    /// fresh walk returns the value of rank `k`, and `None` once the
    /// population is exhausted.  The result depends only on the borrowed
    /// subtree and the counter, so an exhausted walk stays exhausted and
    /// a re-created walk repeats the same values.
    pub fn next(&mut self) -> (r: Option<&'a u64>)
        requires
            old(self).inv(),
        ensures
            final(self).inv(),
            final(self).node == old(self).node,
            match r {
                Some(v) => {
                    &&& old(self).counter <= old(self).full_seq().len()
                    &&& *v == old(self).full_seq()[old(self).counter - 1]
                    &&& final(self).counter == old(self).counter + 1
                },
                None => old(self).counter > old(self).full_seq().len() && *final(self) == *old(
                    self,
                ),
            },
    {
        match self.node {
            Some(node) => {
                match node.find_n_max(self.counter, NodeOption::Value) {
                    Some(NodeOptionValue::Value(next)) => {
                        self.counter = self.counter + 1;
                        Some(next)
                    }
                    _ => None,
                }
            }
            None => None,
        }
    }
}

impl<'a> NodeIterator<'a> {
    /// What the walk ranges over: the in-order sequence of the borrowed
    /// subtree, empty when there is none.
    pub open spec fn full_seq(self) -> Seq<u64> {
        match self.node {
            Some(n) => n.as_seq(),
            None => Seq::empty(),
        }
    }

    pub open spec fn inv(self) -> bool {
        &&& 1 <= self.counter
        &&& match self.node {
            Some(n) => n.well_formed() && n.as_seq().len() < usize::MAX,
            None => true,
        }
    }

    /// The next node in ascending value order, under the same regime as
    /// `NodeValuesIterator::next`.
    pub fn next(&mut self) -> (r: Option<&'a Node>)
        requires
            old(self).inv(),
        ensures
            final(self).inv(),
            final(self).node == old(self).node,
            match r {
                Some(m) => {
                    &&& old(self).counter <= old(self).full_seq().len()
                    &&& m.well_formed()
                    &&& m.value == old(self).full_seq()[old(self).counter - 1]
                    &&& final(self).counter == old(self).counter + 1
                },
                None => old(self).counter > old(self).full_seq().len() && *final(self) == *old(
                    self,
                ),
            },
    {
        match self.node {
            Some(node) => {
                match node.find_n_max(self.counter, NodeOption::Node) {
                    Some(NodeOptionValue::Node(next)) => {
                        self.counter = self.counter + 1;
                        Some(next)
                    }
                    _ => None,
                }
            }
            None => None,
        }
    }
}

/// Two strictly ascending sequences over the same values are the same
/// sequence: the in-order sequence of a well-formed tree is determined
/// by the set of values it holds.
pub proof fn lemma_sorted_unique(s1: Seq<u64>, s2: Seq<u64>)
    requires
        forall|i: int, j: int| 0 <= i < j < s1.len() ==> s1[i] < s1[j],
        forall|i: int, j: int| 0 <= i < j < s2.len() ==> s2[i] < s2[j],
        forall|x: u64| s1.contains(x) <==> s2.contains(x),
    ensures
        s1 == s2,
    decreases s1.len(),
{
    if s1.len() == 0 {
        if s2.len() > 0 {
            assert(s2.contains(s2[0]));
            assert(s1.contains(s2[0]));
        }
        assert(s1 =~= s2);
    } else {
        assert(s1.contains(s1[0]));
        assert(s2.contains(s1[0]));
        let j = choose|j: int| 0 <= j < s2.len() && s2[j] == s1[0];
        assert(s2[0] <= s2[j]);
        assert(s2.contains(s2[0]));
        assert(s1.contains(s2[0]));
        let i = choose|i: int| 0 <= i < s1.len() && s1[i] == s2[0];
        assert(s1[0] <= s1[i]);
        assert(s1[0] == s2[0]);
        let t1 = s1.subrange(1, s1.len() as int);
        let t2 = s2.subrange(1, s2.len() as int);
        assert forall|x: u64| t1.contains(x) implies t2.contains(x) by {
            let k = choose|k: int| 0 <= k < t1.len() && t1[k] == x;
            assert(s1[k + 1] == x);
            assert(s2.contains(x));
            let m = choose|m: int| 0 <= m < s2.len() && s2[m] == x;
            assert(s1[0] < s1[k + 1]);
            assert(m != 0);
            assert(t2[m - 1] == x);
        }
        assert forall|x: u64| t2.contains(x) implies t1.contains(x) by {
            let k = choose|k: int| 0 <= k < t2.len() && t2[k] == x;
            assert(s2[k + 1] == x);
            assert(s1.contains(x));
            let m = choose|m: int| 0 <= m < s1.len() && s1[m] == x;
            assert(s2[0] < s2[k + 1]);
            assert(m != 0);
            assert(t1[m - 1] == x);
        }
        lemma_sorted_unique(t1, t2);
        assert(s1.len() == s2.len());
        assert forall|k: int| 0 <= k < s1.len() implies s1[k] == s2[k] by {
            if k != 0 {
                assert(t1[k - 1] == s1[k]);
                assert(t2[k - 1] == s2[k]);
            }
        }
        assert(s1 =~= s2);
    }
}

} // verus!
