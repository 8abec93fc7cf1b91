//! Arena-indexed rooted trees.
//!
//! A tree is a vector of nodes addressed by dense integer ids.  Every node
//! carries an optional parent id, the ordered list of its child ids, an
//! optional label, and an optional branch length (in nano-units) to its
//! parent.  Nodes are only ever appended, and a child is always appended
//! after its parent, so the arena order is a topological order: every
//! non-root node has a parent with a strictly smaller id.  That single
//! invariant makes the parent-pointer graph acyclic and every node
//! reachable from the root.

use vstd::prelude::*;

verus! {

pub type NodeId = usize;

/// One node of a [`Tree`].
#[derive(Debug)]
pub struct Node {
    /// Parent node id; `None` exactly for the root.
    pub parent: Option<NodeId>,
    /// Child node ids, in insertion order (strictly increasing).
    pub children: Vec<NodeId>,
    /// Leaf label, or an optional name on an internal node.
    pub label: Option<String>,
    /// Branch length to the parent, in nano-units (billionths).
    pub length_to_parent: Option<u64>,
}

/// Specification-level image of a [`Node`].
#[verifier::ext_equal]
pub ghost struct NodeV {
    pub parent: Option<NodeId>,
    pub children: Seq<NodeId>,
    pub label: Option<Seq<char>>,
    pub length_to_parent: Option<u64>,
}

impl View for Node {
    type V = NodeV;

    open spec fn view(&self) -> NodeV {
        NodeV {
            parent: self.parent,
            children: self.children@,
            label: match self.label {
                Some(l) => Some(l@),
                None => None,
            },
            length_to_parent: self.length_to_parent,
        }
    }
}

/// A rooted tree over an arena of nodes.
#[derive(Debug)]
pub struct Tree {
    pub nodes: Vec<Node>,
    pub root: NodeId,
}

/// Specification-level image of a [`Tree`].
#[verifier::ext_equal]
pub ghost struct TreeV {
    pub nodes: Seq<NodeV>,
    pub root: NodeId,
}

impl View for Tree {
    type V = TreeV;

    open spec fn view(&self) -> TreeV {
        TreeV { nodes: Seq::new(self.nodes@.len(), |i: int| self.nodes@[i]@), root: self.root }
    }
}

impl TreeV {
    pub open spec fn valid_id(self, i: int) -> bool {
        0 <= i < self.nodes.len()
    }

    /// The node `i` respects the arena order and is consistent with its
    /// children: the parent of a node was created before it, and the child
    /// lists point exactly back.
    pub open spec fn wf_node(self, i: int) -> bool {
        &&& match self.nodes[i].parent {
            Some(p) => p < i && i != self.root,
            None => i == self.root,
        }
        &&& forall|k: int|
            0 <= k < self.nodes[i].children.len() ==> i < #[trigger] self.nodes[i].children[k]
                < self.nodes.len()
        &&& forall|k: int|
            0 <= k < self.nodes[i].children.len()
                ==> self.nodes[#[trigger] self.nodes[i].children[k] as int].parent == Some(
                i as NodeId,
            )
        &&& forall|k1: int, k2: int|
            0 <= k1 < k2 < self.nodes[i].children.len() ==> #[trigger] self.nodes[i].children[k1]
                < #[trigger] self.nodes[i].children[k2]
    }

    /// Tree invariant: nonempty arena, a valid root, every node consistent
    /// with the arena order, and every child edge mirrored by the parent
    /// pointer.
    pub open spec fn wf(self) -> bool {
        &&& self.nodes.len() > 0
        &&& self.nodes.len() <= usize::MAX
        &&& self.valid_id(self.root as int)
        &&& forall|i: int| 0 <= i < self.nodes.len() ==> #[trigger] self.wf_node(i)
        &&& forall|i: int|
            0 <= i < self.nodes.len() ==> match #[trigger] self.nodes[i].parent {
                Some(p) => self.nodes[p as int].children.contains(i as NodeId),
                None => true,
            }
    }

    /// Number of edges from node `i` up to the root (the root has depth 0).
    pub open spec fn depth_of(self, i: int) -> nat
        decreases i,
    {
        if 0 <= i < self.nodes.len() {
            match self.nodes[i].parent {
                Some(p) => if p < i {
                    1 + self.depth_of(p as int)
                } else {
                    0
                },
                None => 0,
            }
        } else {
            0
        }
    }

    /// `x` lies on the parent chain of `a` (inclusive: a node is an
    /// ancestor of itself).
    pub open spec fn in_ancestors(self, a: int, x: int) -> bool
        decreases a,
    {
        if 0 <= a < self.nodes.len() {
            a == x || (match self.nodes[a].parent {
                Some(p) => p < a && self.in_ancestors(p as int, x),
                None => false,
            })
        } else {
            false
        }
    }

    /// `r` is the lowest common ancestor of `a` and `b`: a common ancestor
    /// of which every common ancestor is itself an ancestor.
    pub open spec fn is_lca(self, a: int, b: int, r: int) -> bool {
        &&& self.valid_id(r)
        &&& self.in_ancestors(a, r)
        &&& self.in_ancestors(b, r)
        &&& forall|x: int|
            self.in_ancestors(a, x) && self.in_ancestors(b, x) ==> self.in_ancestors(r, x)
    }

    /// The lowest common ancestor of `a` and `b` (meaningful whenever the
    /// tree is well formed and both ids are valid).
    pub open spec fn lca_of(self, a: int, b: int) -> int {
        choose|r: int| self.is_lca(a, b, r)
    }

    /// The leaf ids among the first `n` nodes, in id order.
    pub open spec fn leaves_upto(self, n: int) -> Seq<NodeId>
        decreases n,
    {
        if n <= 0 {
            Seq::empty()
        } else {
            let pre = self.leaves_upto(n - 1);
            if self.nodes[n - 1].children.len() == 0 {
                pre.push((n - 1) as NodeId)
            } else {
                pre
            }
        }
    }

    /// All leaf ids, in id order (which is insertion order).
    pub open spec fn leaf_seq(self) -> Seq<NodeId> {
        self.leaves_upto(self.nodes.len() as int)
    }

    /// The labels of the labelled leaves among the first `n` nodes, in id
    /// order.
    pub open spec fn taxa_upto(self, n: int) -> Seq<Seq<char>>
        decreases n,
    {
        if n <= 0 {
            Seq::empty()
        } else {
            let pre = self.taxa_upto(n - 1);
            if self.nodes[n - 1].children.len() == 0 {
                match self.nodes[n - 1].label {
                    Some(l) => pre.push(l),
                    None => pre,
                }
            } else {
                pre
            }
        }
    }

    /// The labels of all labelled leaves, in id order.
    pub open spec fn taxa_seq(self) -> Seq<Seq<char>> {
        self.taxa_upto(self.nodes.len() as int)
    }

    /// Preorder traversal of the subtree rooted at `n`: the node itself,
    /// then each child subtree in order.
    pub open spec fn preorder_of(self, n: int) -> Seq<NodeId>
        decreases self.nodes.len() - n, 1int, 0int,
    {
        if 0 <= n < self.nodes.len() {
            seq![n as NodeId] + self.preorder_kids(n, 0)
        } else {
            Seq::empty()
        }
    }

    /// Concatenated preorder traversals of the children `k..` of node `n`.
    pub open spec fn preorder_kids(self, n: int, k: int) -> Seq<NodeId>
        decreases self.nodes.len() - n, 0int, self.nodes[n].children.len() - k,
    {
        if 0 <= n < self.nodes.len() && 0 <= k < self.nodes[n].children.len() {
            let c = self.nodes[n].children[k] as int;
            if n < c < self.nodes.len() {
                self.preorder_of(c) + self.preorder_kids(n, k + 1)
            } else {
                Seq::empty()
            }
        } else {
            Seq::empty()
        }
    }

    /// Postorder traversal of the subtree rooted at `n`: each child subtree
    /// in order, then the node itself.
    pub open spec fn postorder_of(self, n: int) -> Seq<NodeId>
        decreases self.nodes.len() - n, 1int, 0int,
    {
        if 0 <= n < self.nodes.len() {
            self.postorder_kids(n, 0) + seq![n as NodeId]
        } else {
            Seq::empty()
        }
    }

    /// Concatenated postorder traversals of the children `k..` of node `n`.
    pub open spec fn postorder_kids(self, n: int, k: int) -> Seq<NodeId>
        decreases self.nodes.len() - n, 0int, self.nodes[n].children.len() - k,
    {
        if 0 <= n < self.nodes.len() && 0 <= k < self.nodes[n].children.len() {
            let c = self.nodes[n].children[k] as int;
            if n < c < self.nodes.len() {
                self.postorder_of(c) + self.postorder_kids(n, k + 1)
            } else {
                Seq::empty()
            }
        } else {
            Seq::empty()
        }
    }

    /// Concatenated preorders of the nodes on a work stack, top first.
    pub open spec fn stack_preorders(self, st: Seq<NodeId>) -> Seq<NodeId>
        decreases st.len(),
    {
        if st.len() == 0 {
            Seq::empty()
        } else {
            self.preorder_of(st.last() as int) + self.stack_preorders(st.drop_last())
        }
    }

    /// Pending output of a postorder frame stack, top frame first: for a
    /// frame `(n, k)`, the subtrees of the children `k..` of `n`, then `n`
    /// itself.
    pub open spec fn frames_rest(self, st: Seq<(NodeId, usize)>) -> Seq<NodeId>
        decreases st.len(),
    {
        if st.len() == 0 {
            Seq::empty()
        } else {
            self.postorder_kids(st.last().0 as int, st.last().1 as int) + seq![st.last().0]
                + self.frames_rest(st.drop_last())
        }
    }

    /// The parent chain of `a`: `a` itself, then its parent, and so on up
    /// to and including the root.
    pub open spec fn ancestor_seq(self, a: int) -> Seq<NodeId>
        decreases a,
    {
        if 0 <= a < self.nodes.len() {
            match self.nodes[a].parent {
                Some(p) => if p < a {
                    seq![a as NodeId] + self.ancestor_seq(p as int)
                } else {
                    seq![a as NodeId]
                },
                None => seq![a as NodeId],
            }
        } else {
            Seq::empty()
        }
    }
}

/// A frame stack owes at least one output node per frame.
pub proof fn lemma_frames_rest_min(t: TreeV, st: Seq<(NodeId, usize)>)
    ensures
        t.frames_rest(st).len() >= st.len(),
    decreases st.len(),
{
    if st.len() > 0 {
        lemma_frames_rest_min(t, st.drop_last());
    }
}

/// Every ancestor of `a` has an id no larger than `a`.
pub proof fn lemma_ancestor_index(t: TreeV, a: int, x: int)
    requires
        t.in_ancestors(a, x),
    ensures
        0 <= x <= a,
    decreases a,
{
    if a != x {
        let p = t.nodes[a].parent.unwrap();
        lemma_ancestor_index(t, p as int, x);
    }
}

/// Ancestry is transitive along the parent chain.
pub proof fn lemma_ancestor_trans(t: TreeV, a: int, m: int, x: int)
    requires
        t.in_ancestors(a, m),
        t.in_ancestors(m, x),
    ensures
        t.in_ancestors(a, x),
    decreases a,
{
    if a != m {
        let p = t.nodes[a].parent.unwrap();
        lemma_ancestor_trans(t, p as int, m, x);
    }
}

/// Climbing to an ancestor never increases the depth.
pub proof fn lemma_ancestor_depth(t: TreeV, a: int, x: int)
    requires
        t.in_ancestors(a, x),
    ensures
        t.depth_of(x) <= t.depth_of(a),
    decreases a,
{
    if a != x {
        let p = t.nodes[a].parent.unwrap();
        lemma_ancestor_depth(t, p as int, x);
    }
}

/// An ancestor at the same depth is the node itself.
pub proof fn lemma_ancestor_same_depth(t: TreeV, a: int, x: int)
    requires
        t.in_ancestors(a, x),
        t.depth_of(x) == t.depth_of(a),
    ensures
        x == a,
    decreases a,
{
    if a != x {
        let p = t.nodes[a].parent.unwrap();
        lemma_ancestor_depth(t, p as int, x);
    }
}

/// Two nodes that are ancestors of each other coincide.
pub proof fn lemma_ancestor_antisym(t: TreeV, x: int, y: int)
    requires
        t.in_ancestors(x, y),
        t.in_ancestors(y, x),
    ensures
        x == y,
{
    lemma_ancestor_index(t, x, y);
    lemma_ancestor_index(t, y, x);
}

/// The depth of a node never exceeds its arena id.
pub proof fn lemma_depth_le_index(t: TreeV, i: int)
    requires
        0 <= i < t.nodes.len(),
    ensures
        t.depth_of(i) <= i,
    decreases i,
{
    match t.nodes[i].parent {
        Some(p) => {
            if p < i {
                lemma_depth_le_index(t, p as int);
            }
        },
        None => {},
    }
}

/// In a well-formed tree, a node of depth 0 is the root.
pub proof fn lemma_depth_zero_is_root(t: TreeV, i: int)
    requires
        t.wf(),
        t.valid_id(i),
        t.depth_of(i) == 0,
    ensures
        i == t.root,
{
    assert(t.wf_node(i));
}

/// The lowest common ancestor of a pair is unique.
pub proof fn lemma_lca_unique(t: TreeV, a: int, b: int, r1: int, r2: int)
    requires
        t.is_lca(a, b, r1),
        t.is_lca(a, b, r2),
    ensures
        r1 == r2,
{
    lemma_ancestor_antisym(t, r1, r2);
}

/// Every pair of valid nodes has a lowest common ancestor, so `lca_of`
/// denotes it.
pub proof fn lemma_lca_exists(t: TreeV, a: int, b: int)
    requires
        t.wf(),
        t.valid_id(a),
        t.valid_id(b),
    ensures
        t.is_lca(a, b, t.lca_of(a, b)),
    decreases t.depth_of(a) + t.depth_of(b),
{
    assert(t.wf_node(a));
    assert(t.wf_node(b));
    if t.depth_of(a) > t.depth_of(b) {
        let p = t.nodes[a].parent.unwrap() as int;
        lemma_lca_exists(t, p, b);
        let l = t.lca_of(p, b);
        assert(t.in_ancestors(p, p));
        assert(t.in_ancestors(a, p));
        lemma_ancestor_trans(t, a, p, l);
        assert forall|x: int|
            t.in_ancestors(a, x) && t.in_ancestors(b, x) implies #[trigger] t.in_ancestors(
            l,
            x,
        ) by {
            lemma_ancestor_depth(t, b, x);
            assert(x != a);
            assert(t.in_ancestors(p, x));
        }
        assert(t.is_lca(a, b, l));
        lemma_lca_unique(t, a, b, l, t.lca_of(a, b));
    } else if t.depth_of(b) > t.depth_of(a) {
        let p = t.nodes[b].parent.unwrap() as int;
        lemma_lca_exists(t, a, p);
        let l = t.lca_of(a, p);
        assert(t.in_ancestors(p, p));
        assert(t.in_ancestors(b, p));
        lemma_ancestor_trans(t, b, p, l);
        assert forall|x: int|
            t.in_ancestors(a, x) && t.in_ancestors(b, x) implies #[trigger] t.in_ancestors(
            l,
            x,
        ) by {
            lemma_ancestor_depth(t, a, x);
            assert(x != b);
            assert(t.in_ancestors(p, x));
        }
        assert(t.is_lca(a, b, l));
        lemma_lca_unique(t, a, b, l, t.lca_of(a, b));
    } else if a == b {
        assert(t.in_ancestors(a, a));
        assert(t.is_lca(a, b, a));
        lemma_lca_unique(t, a, b, a, t.lca_of(a, b));
    } else {
        if t.depth_of(a) == 0 {
            lemma_depth_zero_is_root(t, a);
            lemma_depth_zero_is_root(t, b);
        }
        let pa = t.nodes[a].parent.unwrap() as int;
        let pb = t.nodes[b].parent.unwrap() as int;
        lemma_lca_exists(t, pa, pb);
        let l = t.lca_of(pa, pb);
        assert(t.in_ancestors(pa, pa));
        assert(t.in_ancestors(a, pa));
        assert(t.in_ancestors(pb, pb));
        assert(t.in_ancestors(b, pb));
        lemma_ancestor_trans(t, a, pa, l);
        lemma_ancestor_trans(t, b, pb, l);
        assert forall|x: int|
            t.in_ancestors(a, x) && t.in_ancestors(b, x) implies #[trigger] t.in_ancestors(
            l,
            x,
        ) by {
            if x == a {
                lemma_ancestor_same_depth(t, b, x);
            }
            if x == b {
                lemma_ancestor_same_depth(t, a, x);
            }
            assert(t.in_ancestors(pa, x));
            assert(t.in_ancestors(pb, x));
        }
        assert(t.is_lca(a, b, l));
        lemma_lca_unique(t, a, b, l, t.lca_of(a, b));
    }
}

impl Tree {
    /// An empty arena with the root id defaulted to 0; nodes are appended
    /// by the parser.
    pub fn new() -> (t: Tree)
        ensures
            t@.nodes.len() == 0,
            t.root == 0,
    {
        Tree { nodes: Vec::new(), root: 0 }
    }

    /// A node is a leaf when it has no children.
    pub fn is_leaf(&self, node_id: NodeId) -> (r: bool)
        requires
            self@.valid_id(node_id as int),
        ensures
            r == (self@.nodes[node_id as int].children.len() == 0),
    {
        self.nodes[node_id].children.len() == 0
    }

    /// The parent id of a node, `None` for the root.
    pub fn parent(&self, node_id: NodeId) -> (r: Option<NodeId>)
        requires
            self@.valid_id(node_id as int),
        ensures
            r == self@.nodes[node_id as int].parent,
    {
        self.nodes[node_id].parent
    }

    /// The ordered child ids of a node.
    pub fn children(&self, node_id: NodeId) -> (r: &Vec<NodeId>)
        requires
            self@.valid_id(node_id as int),
        ensures
            r@ == self@.nodes[node_id as int].children,
    {
        &self.nodes[node_id].children
    }

    /// The ids of all leaves, in insertion order.
    pub fn leaves(&self) -> (r: Vec<NodeId>)
        ensures
            r@ == self@.leaf_seq(),
    {
        let mut result: Vec<NodeId> = Vec::new();
        let mut i: usize = 0;
        while i < self.nodes.len()
            invariant
                i <= self.nodes.len(),
                self@.nodes.len() == self.nodes.len(),
                result@ == self@.leaves_upto(i as int),
            decreases self.nodes.len() - i,
        {
            if self.nodes[i].children.len() == 0 {
                result.push(i);
            }
            i = i + 1;
        }
        result
    }

    /// The labels of the labelled leaves (the taxa), in insertion order.
    pub fn taxa(&self) -> (r: Vec<&str>)
        ensures
            r@.len() == self@.taxa_seq().len(),
            forall|k: int| 0 <= k < r@.len() ==> #[trigger] r@[k]@ == self@.taxa_seq()[k],
    {
        let mut result: Vec<&str> = Vec::new();
        let mut i: usize = 0;
        while i < self.nodes.len()
            invariant
                i <= self.nodes.len(),
                self@.nodes.len() == self.nodes.len(),
                result@.len() == self@.taxa_upto(i as int).len(),
                forall|k: int|
                    0 <= k < result@.len() ==> #[trigger] result@[k]@ == self@.taxa_upto(
                        i as int,
                    )[k],
            decreases self.nodes.len() - i,
        {
            if self.nodes[i].children.len() == 0 {
                match &self.nodes[i].label {
                    Some(l) => {
                        result.push(l.as_str());
                    },
                    None => {},
                }
            }
            i = i + 1;
        }
        result
    }

    /// The full preorder traversal, starting at the root: an explicit
    /// work stack rather than call recursion, so caller-controlled tree
    /// depth cannot exhaust the call stack.
    pub fn preorder(&self) -> (r: Vec<NodeId>)
        requires
            self@.wf(),
        ensures
            r@ == self@.preorder_of(self.root as int),
    {
        let ghost total = self@.preorder_of(self.root as int);
        let mut result: Vec<NodeId> = Vec::new();
        let mut stack: Vec<NodeId> = Vec::new();
        stack.push(self.root);
        proof {
            assert(stack@.len() == 1 && stack@.last() == self.root);
            assert(stack@.drop_last() =~= Seq::<NodeId>::empty());
            assert(self@.stack_preorders(stack@.drop_last()) == Seq::<NodeId>::empty());
            assert(self@.stack_preorders(stack@) == self@.preorder_of(self.root as int)
                + self@.stack_preorders(stack@.drop_last()));
            assert(self@.stack_preorders(stack@) =~= total);
        }
        while stack.len() > 0
            invariant
                self@.wf(),
                total == self@.preorder_of(self.root as int),
                forall|k: int|
                    0 <= k < stack@.len() ==> ((#[trigger] stack@[k]) as int) < self@.nodes.len(),
                result@ + self@.stack_preorders(stack@) == total,
            decreases total.len() - result@.len(),
        {
            let ghost st0 = stack@;
            let n = stack.pop().unwrap();
            proof {
                assert(st0.last() == n);
                assert(stack@ == st0.drop_last());
                assert(self@.stack_preorders(st0) == self@.preorder_of(n as int)
                    + self@.stack_preorders(stack@));
            }
            result.push(n);
            let ghost rest = stack@;
            let cl = self.nodes[n].children.len();
            let mut k = cl;
            proof {
                assert(self@.preorder_of(n as int) == seq![n] + self@.preorder_kids(n as int, 0));
                assert(self@.preorder_kids(n as int, cl as int) =~= Seq::<NodeId>::empty());
                assert(self@.stack_preorders(rest) == self@.preorder_kids(n as int, cl as int)
                    + self@.stack_preorders(rest));
                assert(result@ + self@.preorder_kids(n as int, 0) + self@.stack_preorders(rest)
                    =~= total);
            }
            while k > 0
                invariant
                    self@.wf(),
                    self@.valid_id(n as int),
                    cl == self@.nodes[n as int].children.len(),
                    k <= cl,
                    total == self@.preorder_of(self.root as int),
                    forall|x: int|
                        0 <= x < stack@.len() ==> ((#[trigger] stack@[x]) as int)
                            < self@.nodes.len(),
                    self@.stack_preorders(stack@) == self@.preorder_kids(n as int, k as int)
                        + self@.stack_preorders(rest),
                    result@ + self@.preorder_kids(n as int, 0) + self@.stack_preorders(rest)
                        == total,
                decreases k,
            {
                assert(self@.wf_node(n as int));
                let c = self.nodes[n].children[k - 1];
                let ghost before = stack@;
                stack.push(c);
                proof {
                    assert(stack@.last() == c);
                    assert(stack@.drop_last() =~= before);
                    assert(self@.stack_preorders(stack@) == self@.preorder_of(c as int)
                        + self@.stack_preorders(before));
                    assert(self@.preorder_kids(n as int, k as int - 1) == self@.preorder_of(
                        c as int,
                    ) + self@.preorder_kids(n as int, k as int));
                    assert(self@.preorder_of(c as int) + (self@.preorder_kids(n as int, k as int)
                        + self@.stack_preorders(rest)) =~= (self@.preorder_of(c as int)
                        + self@.preorder_kids(n as int, k as int)) + self@.stack_preorders(rest));
                }
                k = k - 1;
            }
            proof {
                assert(result@ + self@.stack_preorders(stack@) =~= total);
                assert((result@ + self@.stack_preorders(stack@)).len() == total.len());
                assert(result@.len() <= total.len());
            }
        }
        proof {
            assert(self@.stack_preorders(stack@) =~= Seq::<NodeId>::empty());
            assert(result@ =~= total);
        }
        result
    }

    /// The full postorder traversal, starting at the root: an explicit
    /// stack of (node, next-child) frames rather than call recursion, so
    /// caller-controlled tree depth cannot exhaust the call stack.
    pub fn postorder(&self) -> (r: Vec<NodeId>)
        requires
            self@.wf(),
        ensures
            r@ == self@.postorder_of(self.root as int),
    {
        let ghost total = self@.postorder_of(self.root as int);
        let mut result: Vec<NodeId> = Vec::new();
        let mut frames: Vec<(NodeId, usize)> = Vec::new();
        frames.push((self.root, 0));
        proof {
            assert(frames@.len() == 1 && frames@.last() == (self.root, 0usize));
            assert(frames@.drop_last() =~= Seq::<(NodeId, usize)>::empty());
            assert(self@.frames_rest(frames@.drop_last()) == Seq::<NodeId>::empty());
            assert(self@.frames_rest(frames@) == self@.postorder_kids(self.root as int, 0)
                + seq![self.root] + Seq::<NodeId>::empty());
            assert(self@.postorder_of(self.root as int) == self@.postorder_kids(
                self.root as int,
                0,
            ) + seq![self.root]);
            assert(result@ + self@.frames_rest(frames@) =~= total);
        }
        while frames.len() > 0
            invariant
                self@.wf(),
                total == self@.postorder_of(self.root as int),
                forall|x: int|
                    0 <= x < frames@.len() ==> ((#[trigger] frames@[x]).0 as int)
                        < self@.nodes.len() && (frames@[x].1 as int)
                        <= self@.nodes[frames@[x].0 as int].children.len(),
                result@ + self@.frames_rest(frames@) == total,
            decreases 2 * total.len() - 2 * result@.len() - frames@.len(),
        {
            proof {
                lemma_frames_rest_min(self@, frames@);
                assert((result@ + self@.frames_rest(frames@)).len() == total.len());
            }
            let idx = frames.len() - 1;
            let (n, k) = frames[idx];
            let ghost f0 = frames@;
            let cl = self.nodes[n].children.len();
            if k < cl {
                assert(self@.wf_node(n as int));
                let c = self.nodes[n].children[k];
                frames.set(idx, (n, k + 1));
                frames.push((c, 0));
                proof {
                    let f1 = f0.update(idx as int, (n, (k + 1) as usize));
                    assert(frames@ =~= f1.push((c, 0usize)));
                    assert(f1.drop_last() =~= f0.drop_last());
                    assert(self@.frames_rest(f1) == self@.postorder_kids(n as int, k + 1)
                        + seq![n] + self@.frames_rest(f0.drop_last()));
                    assert(f1.push((c, 0usize)).drop_last() =~= f1);
                    assert(f1.push((c, 0usize)).last() == (c, 0usize));
                    assert(self@.frames_rest(f1.push((c, 0usize))) == self@.postorder_kids(
                        c as int,
                        0,
                    ) + seq![c] + self@.frames_rest(f1));
                    assert(self@.postorder_kids(n as int, k as int) == self@.postorder_of(c as int)
                        + self@.postorder_kids(n as int, k + 1));
                    assert(self@.postorder_of(c as int) == self@.postorder_kids(c as int, 0)
                        + seq![c]);
                    assert(self@.frames_rest(f0) == self@.postorder_kids(n as int, k as int)
                        + seq![n] + self@.frames_rest(f0.drop_last()));
                    assert(self@.frames_rest(frames@) =~= self@.frames_rest(f0));
                }
            } else {
                let _ = frames.pop();
                result.push(n);
                proof {
                    assert(frames@ =~= f0.drop_last());
                    assert(self@.postorder_kids(n as int, k as int) =~= Seq::<NodeId>::empty());
                    assert(self@.frames_rest(f0) == self@.postorder_kids(n as int, k as int)
                        + seq![n] + self@.frames_rest(frames@));
                    assert(self@.frames_rest(f0) =~= seq![n] + self@.frames_rest(frames@));
                    assert(result@ + self@.frames_rest(frames@) =~= total);
                }
            }
        }
        proof {
            assert(self@.frames_rest(frames@) =~= Seq::<NodeId>::empty());
            assert(result@ =~= total);
        }
        result
    }

    /// The parent chain of a node: itself, its parent, and so on up to and
    /// including the root.
    pub fn ancestors(&self, node_id: NodeId) -> (r: Vec<NodeId>)
        requires
            self@.wf(),
            self@.valid_id(node_id as int),
        ensures
            r@ == self@.ancestor_seq(node_id as int),
    {
        let mut result: Vec<NodeId> = Vec::new();
        let mut current: Option<NodeId> = Some(node_id);
        while current.is_some()
            invariant
                self@.wf(),
                match current {
                    Some(c) => self@.valid_id(c as int) && result@ + self@.ancestor_seq(c as int)
                        == self@.ancestor_seq(node_id as int),
                    None => result@ == self@.ancestor_seq(node_id as int),
                },
            decreases (match current {
                Some(c) => c as int + 1,
                None => 0int,
            }),
        {
            let id = current.unwrap();
            result.push(id);
            assert(self@.wf_node(id as int));
            proof {
                match self@.nodes[id as int].parent {
                    Some(p) => {
                        assert(self@.ancestor_seq(id as int) == seq![id] + self@.ancestor_seq(
                            p as int,
                        ));
                    },
                    None => {
                        assert(self@.ancestor_seq(id as int) == seq![id]);
                    },
                }
            }
            current = self.nodes[id].parent;
        }
        result
    }

    /// The number of edges from a node up to the root.
    pub fn depth(&self, node_id: NodeId) -> (r: usize)
        requires
            self@.wf(),
            self@.valid_id(node_id as int),
        ensures
            r == self@.depth_of(node_id as int),
    {
        let mut depth: usize = 0;
        let mut current: NodeId = node_id;
        proof {
            lemma_depth_le_index(self@, node_id as int);
        }
        while self.nodes[current].parent.is_some()
            invariant
                self@.wf(),
                self@.valid_id(current as int),
                self@.depth_of(node_id as int) <= node_id,
                depth + self@.depth_of(current as int) == self@.depth_of(node_id as int),
            decreases current,
        {
            assert(self@.wf_node(current as int));
            proof {
                lemma_depth_le_index(self@, current as int);
            }
            let p = self.nodes[current].parent.unwrap();
            depth = depth + 1;
            current = p;
        }
        depth
    }

    /// The lowest common ancestor of `a` and `b`, found by climbing the
    /// deeper node until the depths match and then climbing both together.
    /// Returns `None` exactly when one of the ids is out of range.
    pub fn lca(&self, a: NodeId, b: NodeId) -> (r: Option<NodeId>)
        requires
            self@.wf(),
        ensures
            r is Some <==> (self@.valid_id(a as int) && self@.valid_id(b as int)),
            r is Some ==> self@.is_lca(a as int, b as int, r.unwrap() as int) && r.unwrap() as int
                == self@.lca_of(a as int, b as int),
    {
        if a >= self.nodes.len() || b >= self.nodes.len() {
            return None;
        }
        let ghost a0 = a as int;
        let ghost b0 = b as int;
        let mut a = a;
        let mut b = b;
        let mut da = self.depth(a);
        let mut db = self.depth(b);
        while da > db
            invariant
                self@.wf(),
                self@.valid_id(a as int),
                self@.valid_id(b as int),
                da == self@.depth_of(a as int),
                db == self@.depth_of(b as int),
                self@.in_ancestors(a0, a as int),
                self@.in_ancestors(b0, b as int),
                forall|x: int|
                    self@.in_ancestors(a0, x) && self@.in_ancestors(b0, x) ==> #[trigger] self@.in_ancestors(
                        a as int,
                        x,
                    ) && self@.in_ancestors(b as int, x),
            decreases da,
        {
            assert(self@.wf_node(a as int));
            let p = self.nodes[a].parent.unwrap();
            proof {
                assert forall|x: int|
                    self@.in_ancestors(a0, x) && self@.in_ancestors(b0, x) implies #[trigger] self@.in_ancestors(
                    p as int,
                    x,
                ) && self@.in_ancestors(b as int, x) by {
                    assert(self@.in_ancestors(a as int, x));
                    assert(self@.in_ancestors(b as int, x));
                    lemma_ancestor_depth(self@, b as int, x);
                    assert(x != a as int);
                    assert(self@.in_ancestors(p as int, x));
                }
                assert(self@.in_ancestors(p as int, p as int));
                assert(self@.in_ancestors(a as int, p as int));
                lemma_ancestor_trans(self@, a0, a as int, p as int);
            }
            a = p;
            da = da - 1;
        }
        while db > da
            invariant
                self@.wf(),
                self@.valid_id(a as int),
                self@.valid_id(b as int),
                da <= db,
                da == self@.depth_of(a as int),
                db == self@.depth_of(b as int),
                self@.in_ancestors(a0, a as int),
                self@.in_ancestors(b0, b as int),
                forall|x: int|
                    self@.in_ancestors(a0, x) && self@.in_ancestors(b0, x) ==> #[trigger] self@.in_ancestors(
                        a as int,
                        x,
                    ) && self@.in_ancestors(b as int, x),
            decreases db,
        {
            assert(self@.wf_node(b as int));
            let p = self.nodes[b].parent.unwrap();
            proof {
                assert forall|x: int|
                    self@.in_ancestors(a0, x) && self@.in_ancestors(b0, x) implies #[trigger] self@.in_ancestors(
                    a as int,
                    x,
                ) && self@.in_ancestors(p as int, x) by {
                    assert(self@.in_ancestors(a as int, x));
                    assert(self@.in_ancestors(b as int, x));
                    lemma_ancestor_depth(self@, a as int, x);
                    assert(x != b as int);
                    assert(self@.in_ancestors(p as int, x));
                }
                assert(self@.in_ancestors(p as int, p as int));
                assert(self@.in_ancestors(b as int, p as int));
                lemma_ancestor_trans(self@, b0, b as int, p as int);
            }
            b = p;
            db = db - 1;
        }
        while a != b
            invariant
                self@.wf(),
                self@.valid_id(a as int),
                self@.valid_id(b as int),
                da == self@.depth_of(a as int),
                da == self@.depth_of(b as int),
                self@.in_ancestors(a0, a as int),
                self@.in_ancestors(b0, b as int),
                forall|x: int|
                    self@.in_ancestors(a0, x) && self@.in_ancestors(b0, x) ==> #[trigger] self@.in_ancestors(
                        a as int,
                        x,
                    ) && self@.in_ancestors(b as int, x),
            decreases da,
        {
            proof {
                if self@.depth_of(a as int) == 0 {
                    lemma_depth_zero_is_root(self@, a as int);
                    lemma_depth_zero_is_root(self@, b as int);
                }
                assert(self@.wf_node(a as int));
                assert(self@.wf_node(b as int));
            }
            let pa = self.nodes[a].parent.unwrap();
            let pb = self.nodes[b].parent.unwrap();
            proof {
                assert forall|x: int|
                    self@.in_ancestors(a0, x) && self@.in_ancestors(b0, x) implies #[trigger] self@.in_ancestors(
                    pa as int,
                    x,
                ) && self@.in_ancestors(pb as int, x) by {
                    assert(self@.in_ancestors(a as int, x));
                    assert(self@.in_ancestors(b as int, x));
                    if x == a as int {
                        lemma_ancestor_same_depth(self@, b as int, x);
                        assert(false);
                    }
                    if x == b as int {
                        lemma_ancestor_same_depth(self@, a as int, x);
                        assert(false);
                    }
                }
                assert(self@.in_ancestors(pa as int, pa as int));
                assert(self@.in_ancestors(a as int, pa as int));
                assert(self@.in_ancestors(pb as int, pb as int));
                assert(self@.in_ancestors(b as int, pb as int));
                lemma_ancestor_trans(self@, a0, a as int, pa as int);
                lemma_ancestor_trans(self@, b0, b as int, pb as int);
            }
            a = pa;
            b = pb;
            da = da - 1;
        }
        proof {
            assert(self@.is_lca(a0, b0, a as int));
            let r0 = self@.lca_of(a0, b0);
            assert(self@.is_lca(a0, b0, r0));
            lemma_lca_unique(self@, a0, b0, a as int, r0);
        }
        Some(a)
    }

    /// The label of a node, if it has one.
    pub fn node_label(&self, node_id: NodeId) -> (r: Option<&str>)
        requires
            self@.valid_id(node_id as int),
        ensures
            match self@.nodes[node_id as int].label {
                Some(l) => r is Some && r.unwrap()@ == l,
                None => r is None,
            },
    {
        match &self.nodes[node_id].label {
            Some(l) => Some(l.as_str()),
            None => None,
        }
    }
}

} // verus!
