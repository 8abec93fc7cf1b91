//! Phylogenetic networks and quartet resolution.
//!
//! A [`Network`] generalizes a tree by letting a node have several
//! parents.  The arena keeps the same topological order as trees do —
//! every parent id is strictly smaller than the child id — so the
//! directed graph is acyclic by construction and every node is reachable
//! from the root (node 0) along first-parent chains.
//!
//! [`resolve_network`] builds a network from a weighted quartet table: it
//! greedily commits the best-supported pairing of every quartet key by
//! clustering its two pairs — two free taxa found a cluster, a free taxon
//! joins its partner's cluster — and absorbs contradictory signal (a tied
//! variant, or a pairing whose taxa are already committed to different
//! lineages) by giving one contested leaf a reticulation node joining
//! both conflicting parent lineages.  Ties are broken first by the
//! smaller summed patristic distance of the supporting pairing, then by
//! variant order, so the result is a function of the table alone.

use vstd::prelude::*;

use crate::quartet::QuartetTable;
use crate::quartet::Topology;
use crate::structure::NodeId;
use crate::structure::Tree;
use crate::structure::TreeV;

verus! {

/// One node of a [`Network`].
#[derive(Debug)]
pub struct NetNode {
    /// Parent edges, each with an optional branch length (nano-units).
    pub parents: Vec<(NodeId, Option<u64>)>,
    /// Child ids, strictly increasing.
    pub children: Vec<NodeId>,
    /// Leaf label.
    pub label: Option<String>,
}

/// Specification-level image of a [`NetNode`].
#[verifier::ext_equal]
pub ghost struct NetNodeV {
    pub parents: Seq<(NodeId, Option<u64>)>,
    pub children: Seq<NodeId>,
    pub label: Option<Seq<char>>,
}

impl View for NetNode {
    type V = NetNodeV;

    open spec fn view(&self) -> NetNodeV {
        NetNodeV {
            parents: self.parents@,
            children: self.children@,
            label: match self.label {
                Some(l) => Some(l@),
                None => None,
            },
        }
    }
}

/// A rooted network over an arena of nodes.
#[derive(Debug)]
pub struct Network {
    pub nodes: Vec<NetNode>,
    pub root: NodeId,
}

/// Specification-level image of a [`Network`].
#[verifier::ext_equal]
pub ghost struct NetworkV {
    pub nodes: Seq<NetNodeV>,
    pub root: NodeId,
}

impl View for Network {
    type V = NetworkV;

    open spec fn view(&self) -> NetworkV {
        NetworkV {
            nodes: Seq::new(self.nodes@.len(), |i: int| self.nodes@[i]@),
            root: self.root,
        }
    }
}

/// `p` occurs among the parent edges `s`.
pub open spec fn parent_has_seq(s: Seq<(NodeId, Option<u64>)>, p: int) -> bool {
    exists|m: int| 0 <= m < s.len() && (#[trigger] s[m]).0 == p
}

/// `p` is one of the parents of `nd`.
pub open spec fn parent_has(nd: NetNodeV, p: int) -> bool {
    parent_has_seq(nd.parents, p)
}

impl NetworkV {
    pub open spec fn valid_id(self, i: int) -> bool {
        0 <= i < self.nodes.len()
    }

    /// Network invariant: one root (node 0, the only parentless node),
    /// every parent created before its child (so the digraph is acyclic
    /// and everything hangs below the root), distinct parents per node,
    /// and child lists that mirror the parent edges exactly.
    pub open spec fn wf(self) -> bool {
        &&& 0 < self.nodes.len() <= usize::MAX
        &&& self.root == 0usize
        &&& self.nodes[0].parents.len() == 0
        &&& forall|i: int| 1 <= i < self.nodes.len() ==> (#[trigger] self.nodes[i].parents).len() >= 1
        &&& forall|i: int, k: int|
            0 <= i < self.nodes.len() && 0 <= k < self.nodes[i].parents.len() ==> ((
            #[trigger] self.nodes[i].parents[k]).0 as int) < i
        &&& forall|i: int, k1: int, k2: int|
            0 <= i < self.nodes.len() && 0 <= k1 < k2 < self.nodes[i].parents.len() ==> (
            #[trigger] self.nodes[i].parents[k1]).0 != (#[trigger] self.nodes[i].parents[k2]).0
        &&& forall|i: int, k: int|
            0 <= i < self.nodes.len() && 0 <= k < self.nodes[i].children.len() ==> i < (
            #[trigger] self.nodes[i].children[k]) < self.nodes.len() && parent_has(
                self.nodes[self.nodes[i].children[k] as int],
                i,
            )
        &&& forall|i: int, k1: int, k2: int|
            0 <= i < self.nodes.len() && 0 <= k1 < k2 < self.nodes[i].children.len()
                ==> #[trigger] self.nodes[i].children[k1] < #[trigger] self.nodes[i].children[k2]
        &&& forall|j: int, m: int|
            0 <= j < self.nodes.len() && 0 <= m < self.nodes[j].parents.len()
                ==> self.nodes[(#[trigger] self.nodes[j].parents[m]).0 as int].children.contains(
                j as NodeId,
            )
    }

    /// A sequence of nodes linked by child edges.
    pub open spec fn is_child_path(self, p: Seq<int>) -> bool {
        &&& forall|k: int| 0 <= k < p.len() ==> self.valid_id(#[trigger] p[k])
        &&& forall|k: int|
            0 <= k < p.len() - 1 ==> self.nodes[#[trigger] p[k]].children.contains(
                p[k + 1] as NodeId,
            )
    }
}

/// Along any child path the node ids strictly increase, so no directed
/// cycle exists.
pub proof fn lemma_network_acyclic(net: NetworkV, p: Seq<int>)
    requires
        net.wf(),
        net.is_child_path(p),
        p.len() >= 2,
    ensures
        p[0] < p[p.len() - 1],
    decreases p.len(),
{
    let last = p.len() - 1;
    assert(net.nodes[p[last - 1]].children.contains(p[last] as NodeId));
    let k = choose|k: int|
        0 <= k < net.nodes[p[last - 1]].children.len() && (#[trigger] net.nodes[p[last
            - 1]].children[k]) == p[last] as NodeId;
    if p.len() == 2 {
    } else {
        let q = p.drop_last();
        assert(net.is_child_path(q));
        lemma_network_acyclic(net, q);
    }
}

/// Every node of a well-formed network is reachable from the root: the
/// chain of first parents ends at node 0, and reversing it is a child
/// path from the root to the node.
pub open spec fn root_path(net: NetworkV, i: int) -> Seq<int>
    decreases i,
{
    if 0 < i < net.nodes.len() && net.nodes[i].parents.len() > 0 && (net.nodes[i].parents[0].0
        as int) < i {
        root_path(net, net.nodes[i].parents[0].0 as int).push(i)
    } else {
        seq![0int]
    }
}

pub proof fn lemma_network_connected(net: NetworkV, i: int)
    requires
        net.wf(),
        net.valid_id(i),
    ensures
        net.is_child_path(root_path(net, i)),
        root_path(net, i)[0] == 0,
        root_path(net, i).last() == i,
    decreases i,
{
    if 0 < i {
        let p = net.nodes[i].parents[0].0 as int;
        lemma_network_connected(net, p);
        let q = root_path(net, p);
        assert(net.nodes[p].children.contains(i as NodeId));
        let q2 = q.push(i);
        assert forall|k: int| 0 <= k < q2.len() - 1 implies net.nodes[#[trigger] q2[k]].children.contains(
            q2[k + 1] as NodeId,
        ) by {
            if k < q.len() - 1 {
                assert(q2[k] == q[k]);
                assert(q2[k + 1] == q[k + 1]);
            } else {
                assert(q2[k] == q.last());
                assert(q2[k] == p);
            }
        }
    }
}

/// The network a tree denotes: the same arena, each parent pointer an
/// edge carrying the branch length.
pub open spec fn tree_net_v(t: TreeV) -> NetworkV {
    NetworkV {
        nodes: Seq::new(
            t.nodes.len(),
            |i: int|
                NetNodeV {
                    parents: match t.nodes[i].parent {
                        Some(p) => seq![(p, t.nodes[i].length_to_parent)],
                        None => Seq::empty(),
                    },
                    children: t.nodes[i].children,
                    label: t.nodes[i].label,
                },
        ),
        root: 0,
    }
}

/// A tree, viewed as the (reticulation-free) network with the same nodes.
pub fn tree_to_network(t: &Tree) -> (r: Network)
    requires
        t@.wf(),
    ensures
        r@.wf(),
        r@ == tree_net_v(t@),
        r@.nodes.len() == t@.nodes.len(),
        forall|i: int|
            0 <= i < t@.nodes.len() ==> (#[trigger] r@.nodes[i]).children == t@.nodes[i].children
                && r@.nodes[i].label == t@.nodes[i].label && (match t@.nodes[i].parent {
                Some(p) => r@.nodes[i].parents == seq![(p, t@.nodes[i].length_to_parent)],
                None => r@.nodes[i].parents.len() == 0,
            }),
{
    proof {
        assert(t@.wf_node(0));
        assert(t@.root == 0) by {
            match t@.nodes[0].parent {
                Some(p) => {
                    assert(false);
                },
                None => {},
            }
        }
    }
    let mut nodes: Vec<NetNode> = Vec::new();
    let n = t.nodes.len();
    let mut i: usize = 0;
    while i < n
        invariant
            t@.wf(),
            n == t@.nodes.len(),
            i <= n,
            nodes@.len() == i,
            forall|x: int|
                0 <= x < i ==> (#[trigger] nodes@[x]@).children == t@.nodes[x].children
                    && nodes@[x]@.label == t@.nodes[x].label && (match t@.nodes[x].parent {
                    Some(p) => nodes@[x]@.parents == seq![(p, t@.nodes[x].length_to_parent)],
                    None => nodes@[x]@.parents.len() == 0,
                }),
        decreases n - i,
    {
        let mut parents: Vec<(NodeId, Option<u64>)> = Vec::new();
        match self_parent(t, i) {
            Some(p) => {
                parents.push((p, t.nodes[i].length_to_parent));
            },
            None => {},
        }
        let mut children: Vec<NodeId> = Vec::new();
        let mut k: usize = 0;
        let cl = t.nodes[i].children.len();
        while k < cl
            invariant
                t@.wf(),
                i < n == t@.nodes.len(),
                cl == t@.nodes[i as int].children.len(),
                k <= cl,
                children@ == t@.nodes[i as int].children.take(k as int),
            decreases cl - k,
        {
            children.push(t.nodes[i].children[k]);
            proof {
                let ci = t@.nodes[i as int].children;
                assert(ci.take(k + 1) =~= ci.take(k as int).push(ci[k as int]));
            }
            k = k + 1;
        }
        proof {
            assert(t@.nodes[i as int].children.take(cl as int) =~= t@.nodes[i as int].children);
        }
        let label = match &t.nodes[i].label {
            Some(l) => Some(l.as_str().to_owned()),
            None => None,
        };
        nodes.push(NetNode { parents, children, label });
        i = i + 1;
    }
    let r = Network { nodes, root: t.root };
    proof {
        assert forall|i2: int| 0 <= i2 < r@.nodes.len() implies #[trigger] r@.nodes[i2]
            =~= tree_net_v(t@).nodes[i2] by {
            match t@.nodes[i2].parent {
                Some(p) => {},
                None => {
                    assert(r@.nodes[i2].parents =~= Seq::<(NodeId, Option<u64>)>::empty());
                },
            }
        }
        assert(r@.nodes =~= tree_net_v(t@).nodes);
        assert(r@ =~= tree_net_v(t@));
        assert forall|i2: int, k: int|
            0 <= i2 < r@.nodes.len() && 0 <= k < r@.nodes[i2].parents.len() implies ((
        #[trigger] r@.nodes[i2].parents[k]).0 as int) < i2 by {
            assert(t@.wf_node(i2));
        }
        assert forall|i2: int| 1 <= i2 < r@.nodes.len() implies (
        #[trigger] r@.nodes[i2].parents).len() >= 1 by {
            assert(t@.wf_node(i2));
            match t@.nodes[i2].parent {
                Some(p) => {},
                None => {
                    assert(i2 == t@.root);
                },
            }
        }
        assert forall|i2: int, k: int|
            0 <= i2 < r@.nodes.len() && 0 <= k < r@.nodes[i2].children.len() implies i2 < (
        #[trigger] r@.nodes[i2].children[k]) < r@.nodes.len() && parent_has(
            r@.nodes[r@.nodes[i2].children[k] as int],
            i2,
        ) by {
            assert(t@.wf_node(i2));
            let c = t@.nodes[i2].children[k] as int;
            assert(t@.nodes[c].parent == Some(i2 as NodeId));
            assert(r@.nodes[c].parents[0].0 == i2 as NodeId);
        }
        assert forall|i2: int, k1: int, k2: int|
            0 <= i2 < r@.nodes.len() && 0 <= k1 < k2 < r@.nodes[i2].children.len()
            implies #[trigger] r@.nodes[i2].children[k1] < #[trigger] r@.nodes[i2].children[k2] by {
            assert(t@.wf_node(i2));
        }
        assert forall|j: int, m: int|
            0 <= j < r@.nodes.len() && 0 <= m < r@.nodes[j].parents.len() implies r@.nodes[(
        #[trigger] r@.nodes[j].parents[m]).0 as int].children.contains(j as NodeId) by {
            assert(t@.wf_node(j));
            match t@.nodes[j].parent {
                Some(p) => {
                    assert(t@.nodes[p as int].children.contains(j as NodeId));
                    assert(r@.nodes[p as int].children == t@.nodes[p as int].children);
                },
                None => {},
            }
        }
    }
    r
}

/// The parent id of tree node `i` (a plain read, for borrowing reasons).
fn self_parent(t: &Tree, i: usize) -> (r: Option<NodeId>)
    requires
        t@.valid_id(i as int),
    ensures
        r == t@.nodes[i as int].parent,
{
    t.nodes[i].parent
}

} // verus!

verus! {

/// Where a taxon's leaf currently hangs: directly under the root, under a
/// cherry group node, or under a reticulation node created for it.
#[derive(Clone, Copy, Debug, PartialEq, Eq, Structural)]
pub enum Attach {
    Root,
    Group(usize),
    Retic(usize),
}

/// The attachment references only structure that already exists: a group
/// below `g`, a reticulation below `r`.
pub open spec fn attach_ok(a: Attach, g: int, r: int) -> bool {
    match a {
        Attach::Root => true,
        Attach::Group(gi) => gi < g,
        Attach::Retic(ri) => ri < r,
    }
}

/// Every reticulation record joins two distinct earlier lineages.
pub open spec fn retics_ok(retics: Seq<(Attach, Attach)>, g: int) -> bool {
    forall|x: int|
        0 <= x < retics.len() ==> attach_ok((#[trigger] retics[x]).0, g, x) && attach_ok(
            retics[x].1,
            g,
            x,
        ) && retics[x].0 != retics[x].1
}

/// The resolver's working state over `ntaxa` taxa.
pub open spec fn state_ok(
    attach: Seq<Attach>,
    g_count: int,
    retics: Seq<(Attach, Attach)>,
    ntaxa: int,
    gcap: int,
    rcap: int,
) -> bool {
    &&& attach.len() == ntaxa
    &&& g_count <= gcap
    &&& retics.len() <= rcap
    &&& forall|x: int|
        0 <= x < ntaxa ==> attach_ok(#[trigger] attach[x], g_count, retics.len() as int)
    &&& retics_ok(retics, g_count)
}

/// Arena index of an attachment point, once the arena is laid out as
/// root, then `g` group nodes, then the reticulation nodes.
pub open spec fn spec_attach_node(a: Attach, g: int) -> int {
    match a {
        Attach::Root => 0,
        Attach::Group(gi) => 1 + gi,
        Attach::Retic(ri) => 1 + g + ri,
    }
}

proof fn lemma_attach_node_inj(a1: Attach, a2: Attach, g: int, r: int)
    requires
        g >= 0,
        attach_ok(a1, g, r),
        attach_ok(a2, g, r),
        a1 != a2,
    ensures
        spec_attach_node(a1, g) != spec_attach_node(a2, g),
{
    match (a1, a2) {
        (Attach::Root, _) => {},
        (_, Attach::Root) => {},
        (Attach::Group(x), Attach::Group(y)) => {
            assert(x != y);
        },
        (Attach::Group(x), Attach::Retic(y)) => {
            assert(1 + x <= g < 1 + g + y);
        },
        (Attach::Retic(x), Attach::Group(y)) => {
            assert(1 + y <= g < 1 + g + x);
        },
        (Attach::Retic(x), Attach::Retic(y)) => {
            assert(x != y);
        },
    }
}

/// How many taxa hang behind an attachment point, for the rule that
/// prefers to attach the smaller subtree deeper: the root stands for the
/// whole taxon set, a cluster for its current leaf count, a reticulation
/// for one leaf.
fn cluster_size(a: Attach, gsizes: &Vec<u64>) -> (r: u64)
    requires
        attach_ok(a, gsizes@.len() as int, usize::MAX as int),
    ensures
        r == (match a {
            Attach::Root => 0xffff_ffff_ffff_ffffu64,
            Attach::Group(g) => gsizes@[g as int],
            Attach::Retic(_) => 1u64,
        }),
{
    match a {
        Attach::Root => 0xffff_ffff_ffff_ffff,
        Attach::Group(g) => gsizes[g],
        Attach::Retic(_) => 1,
    }
}

/// Record a reticulation joining the lineages of taxa `a` and `b`, unless
/// they are already attached to the same point (then nothing is recorded).
/// The contested leaf — the one on the smaller cluster, the first on a
/// tie — is re-attached below the new reticulation node.  Returns whether
/// a reticulation was recorded.
fn conflict_pair(
    a: usize,
    b: usize,
    attach: &mut Vec<Attach>,
    g_count: usize,
    gsizes: &Vec<u64>,
    retics: &mut Vec<(Attach, Attach)>,
    ntaxa: usize,
    gcap: usize,
    rcap: usize,
) -> (created: bool)
    requires
        a < ntaxa,
        b < ntaxa,
        a != b,
        gsizes@.len() == g_count,
        state_ok(
            old(attach)@,
            g_count as int,
            old(retics)@,
            ntaxa as int,
            gcap as int,
            rcap as int,
        ),
    ensures
        state_ok(
            final(attach)@,
            g_count as int,
            final(retics)@,
            ntaxa as int,
            gcap as int,
            rcap as int,
        ),
        final(retics)@.len() == old(retics)@.len() + (if created {
            1int
        } else {
            0int
        }),
{
    let ra = attach[a];
    let rb = attach[b];
    if ra == rb {
        return false;
    }
    if retics.len() >= rcap {
        return false;
    }
    let sa = cluster_size(ra, gsizes);
    let sb = cluster_size(rb, gsizes);
    let (tgt, own, oth) = if sb < sa {
        (b, rb, ra)
    } else {
        (a, ra, rb)
    };
    let rid = retics.len();
    retics.push((own, oth));
    attach.set(tgt, Attach::Retic(rid));
    proof {
        assert forall|x: int|
            0 <= x < ntaxa implies attach_ok(
            #[trigger] attach@[x],
            g_count as int,
            retics@.len() as int,
        ) by {
            if x != tgt {
                assert(attach@[x] == old(attach)@[x]);
            }
        }
        assert forall|x: int|
            0 <= x < retics@.len() implies attach_ok(
            (#[trigger] retics@[x]).0,
            g_count as int,
            x,
        ) && attach_ok(retics@[x].1, g_count as int, x) && retics@[x].0 != retics@[x].1 by {
            if x < old(retics)@.len() {
                assert(retics@[x] == old(retics)@[x]);
            } else {
                assert(retics@[x] == (own, oth));
            }
        }
    }
    true
}

/// Commit the pairing `{a, b}`: cluster the two taxa when both still hang
/// free under the root, let a free taxon join the other's cluster, accept
/// the pairing silently when they already share a cluster, and only
/// otherwise — both already committed elsewhere, or a reticulated leaf —
/// absorb it as a reticulation.
fn merge_pair(
    a: usize,
    b: usize,
    attach: &mut Vec<Attach>,
    g_count: &mut usize,
    gsizes: &mut Vec<u64>,
    retics: &mut Vec<(Attach, Attach)>,
    ntaxa: usize,
    gcap: usize,
    rcap: usize,
)
    requires
        a < ntaxa,
        b < ntaxa,
        a != b,
        old(gsizes)@.len() == *old(g_count),
        state_ok(
            old(attach)@,
            *old(g_count) as int,
            old(retics)@,
            ntaxa as int,
            gcap as int,
            rcap as int,
        ),
    ensures
        final(gsizes)@.len() == *final(g_count),
        state_ok(
            final(attach)@,
            *final(g_count) as int,
            final(retics)@,
            ntaxa as int,
            gcap as int,
            rcap as int,
        ),
        *final(g_count) >= *old(g_count),
{
    let ra = attach[a];
    let rb = attach[b];
    let same = match (ra, rb) {
        (Attach::Group(x), Attach::Group(y)) => x == y,
        _ => false,
    };
    if same {
        return ;
    }
    let a_root = matches!(ra, Attach::Root);
    let b_root = matches!(rb, Attach::Root);
    if a_root && b_root {
        if *g_count < gcap {
            let g = *g_count;
            *g_count = g + 1;
            gsizes.push(2);
            attach.set(a, Attach::Group(g));
            attach.set(b, Attach::Group(g));
            proof {
                assert forall|x: int|
                    0 <= x < ntaxa implies attach_ok(
                    #[trigger] attach@[x],
                    g + 1 as int,
                    retics@.len() as int,
                ) by {
                    if x != a && x != b {
                        assert(attach@[x] == old(attach)@[x]);
                    }
                }
                assert forall|x: int|
                    0 <= x < retics@.len() implies attach_ok(
                    (#[trigger] retics@[x]).0,
                    g + 1 as int,
                    x,
                ) && attach_ok(retics@[x].1, g + 1 as int, x) && retics@[x].0 != retics@[x].1 by {}
            }
        }
    } else if a_root && matches!(rb, Attach::Group(_)) {
        // `a` still hangs free: it joins `b`'s cluster
        let g = match rb {
            Attach::Group(g) => g,
            _ => 0,
        };
        attach.set(a, Attach::Group(g));
        let sz = gsizes[g];
        let bumped = crate::quartet::sat_add_exec(sz, 1);
        gsizes.set(g, bumped);
        proof {
            assert forall|x: int|
                0 <= x < ntaxa implies attach_ok(
                #[trigger] attach@[x],
                *g_count as int,
                retics@.len() as int,
            ) by {
                if x != a {
                    assert(attach@[x] == old(attach)@[x]);
                }
            }
        }
    } else if b_root && matches!(ra, Attach::Group(_)) {
        // `b` still hangs free: it joins `a`'s cluster
        let g = match ra {
            Attach::Group(g) => g,
            _ => 0,
        };
        attach.set(b, Attach::Group(g));
        let sz = gsizes[g];
        let bumped = crate::quartet::sat_add_exec(sz, 1);
        gsizes.set(g, bumped);
        proof {
            assert forall|x: int|
                0 <= x < ntaxa implies attach_ok(
                #[trigger] attach@[x],
                *g_count as int,
                retics@.len() as int,
            ) by {
                if x != b {
                    assert(attach@[x] == old(attach)@[x]);
                }
            }
        }
    } else {
        let _ = conflict_pair(a, b, attach, *g_count, gsizes, retics, ntaxa, gcap, rcap);
    }
}

} // verus!

verus! {

/// Number of reticulation nodes (more than one parent) among the first
/// `n` nodes.
pub open spec fn retic_count_upto(nodes: Seq<NetNodeV>, n: int) -> nat
    decreases n,
{
    if n <= 0 {
        0
    } else {
        retic_count_upto(nodes, n - 1) + if nodes[n - 1].parents.len() >= 2 {
            1nat
        } else {
            0nat
        }
    }
}

/// A network whose resolver reported no conflicts has no reticulation
/// node at all: a zero count over the whole arena leaves every node at
/// most one parent.
pub proof fn lemma_no_conflicts_no_reticulation(nodes: Seq<NetNodeV>, n: int)
    requires
        0 <= n <= nodes.len(),
        retic_count_upto(nodes, n) == 0,
    ensures
        forall|i: int| 0 <= i < n ==> (#[trigger] nodes[i].parents).len() <= 1,
    decreases n,
{
    if n > 0 {
        lemma_no_conflicts_no_reticulation(nodes, n - 1);
    }
}

/// When the reticulation nodes are exactly the index range `[lo, hi)`,
/// their number is `hi - lo`.
proof fn lemma_retic_count_range(nodes: Seq<NetNodeV>, lo: int, hi: int, n: int)
    requires
        0 <= lo <= hi <= n <= nodes.len(),
        forall|i: int|
            0 <= i < n ==> ((#[trigger] nodes[i].parents).len() >= 2 <==> lo <= i < hi),
    ensures
        retic_count_upto(nodes, n) == hi - lo,
    decreases n,
{
    if n > 0 {
        if n - 1 >= hi {
            lemma_retic_count_range(nodes, lo, hi, n - 1);
        } else if n - 1 >= lo {
            lemma_retic_count_range(nodes, lo, n - 1, n - 1);
        } else {
            lemma_retic_count_range(nodes, n - 1, n - 1, n - 1);
        }
    }
}

/// Resolves a weighted quartet table over `taxa` into a network, together
/// with the number of irreconcilable quartet signals that were absorbed
/// as reticulations.
///
/// For every key the best-supported pairing is committed: each of its
/// two pairs founds a cluster, joins an existing one, or is accepted as
/// already clustered; a pairing that clashes with committed structure,
/// and every variant tied with the winner, is absorbed by re-attaching
/// one contested leaf — the one behind the smaller cluster — below a
/// fresh reticulation node whose two parents are the conflicting
/// lineages.  The arena is laid out root first, then the cluster nodes,
/// then the reticulation nodes, then one leaf per taxon, so every parent
/// precedes its child and the network is acyclic and connected by
/// construction.
pub fn resolve_network(table: &QuartetTable, taxa: &Vec<String>) -> (r: (Network, usize))
    requires
        table.wf(taxa@.len() as int),
        taxa@.len() + 1 < usize::MAX,
    ensures
        r.0@.wf(),
        r.0@.nodes.len() >= 1 + taxa@.len(),
        forall|t: int|
            0 <= t < taxa@.len() ==> (#[trigger] r.0@.nodes[r.0@.nodes.len() - taxa@.len()
                + t]).label == Some(taxa@[t]@) && r.0@.nodes[r.0@.nodes.len() - taxa@.len()
                + t].children.len() == 0 && r.0@.nodes[r.0@.nodes.len() - taxa@.len()
                + t].parents.len() == 1,
        forall|i: int|
            0 <= i < r.0@.nodes.len() - taxa@.len() ==> (#[trigger] r.0@.nodes[i]).label is None,
        r.1 == retic_count_upto(r.0@.nodes, r.0@.nodes.len() as int),
{
    let ntaxa = taxa.len();
    // Caps keep the arena within the address space; they are far beyond
    // anything reachable in practice.
    let budget = usize::MAX - 1 - ntaxa;
    let gcap = budget / 2;
    let rcap = budget - gcap;
    let mut attach: Vec<Attach> = Vec::new();
    let mut x: usize = 0;
    while x < ntaxa
        invariant
            x <= ntaxa,
            attach@.len() == x,
            forall|y: int| 0 <= y < x ==> #[trigger] attach@[y] == Attach::Root,
        decreases ntaxa - x,
    {
        attach.push(Attach::Root);
        x = x + 1;
    }
    let mut g_count: usize = 0;
    let mut gsizes: Vec<u64> = Vec::new();
    let mut retics: Vec<(Attach, Attach)> = Vec::new();
    let mut ei: usize = 0;
    let n_entries = table.entries.len();
    while ei < n_entries
        invariant
            ntaxa == taxa@.len(),
            n_entries == table@.len(),
            table.wf(ntaxa as int),
            gcap + rcap + 1 + ntaxa <= usize::MAX,
            gsizes@.len() == g_count,
            state_ok(
                attach@,
                g_count as int,
                retics@,
                ntaxa as int,
                gcap as int,
                rcap as int,
            ),
        decreases n_entries - ei,
    {
        let e = table.entries[ei];
        proof {
            assert(table@[ei as int].key.wf(ntaxa as int));
        }
        let k = e.key;
        let mut bw = e.w_first;
        let mut bd = e.d_first;
        let mut bt = 0u8;  // 0: first, 1: second, 2: third
        if e.w_second > bw || (e.w_second == bw && e.d_second < bd) {
            bw = e.w_second;
            bd = e.d_second;
            bt = 1;
        }
        if e.w_third > bw || (e.w_third == bw && e.d_third < bd) {
            bw = e.w_third;
            bd = e.d_third;
            bt = 2;
        }
        if bw > 0 {
            // commit both pairs of the winning pairing
            let (a1, b1, a2, b2) = if bt == 0 {
                (k.t0, k.t1, k.t2, k.t3)
            } else if bt == 1 {
                (k.t0, k.t2, k.t1, k.t3)
            } else {
                (k.t0, k.t3, k.t1, k.t2)
            };
            merge_pair(
                a1,
                b1,
                &mut attach,
                &mut g_count,
                &mut gsizes,
                &mut retics,
                ntaxa,
                gcap,
                rcap,
            );
            merge_pair(
                a2,
                b2,
                &mut attach,
                &mut g_count,
                &mut gsizes,
                &mut retics,
                ntaxa,
                gcap,
                rcap,
            );
            // absorb every variant tied with the winner as a reticulation
            if bt != 0 && e.w_first == bw {
                if !conflict_pair(
                    k.t0,
                    k.t1,
                    &mut attach,
                    g_count,
                    &gsizes,
                    &mut retics,
                    ntaxa,
                    gcap,
                    rcap,
                ) {
                    let _ = conflict_pair(
                        k.t2,
                        k.t3,
                        &mut attach,
                        g_count,
                        &gsizes,
                        &mut retics,
                        ntaxa,
                        gcap,
                        rcap,
                    );
                }
            }
            if bt != 1 && e.w_second == bw {
                if !conflict_pair(
                    k.t0,
                    k.t2,
                    &mut attach,
                    g_count,
                    &gsizes,
                    &mut retics,
                    ntaxa,
                    gcap,
                    rcap,
                ) {
                    let _ = conflict_pair(
                        k.t1,
                        k.t3,
                        &mut attach,
                        g_count,
                        &gsizes,
                        &mut retics,
                        ntaxa,
                        gcap,
                        rcap,
                    );
                }
            }
            if bt != 2 && e.w_third == bw {
                if !conflict_pair(
                    k.t0,
                    k.t3,
                    &mut attach,
                    g_count,
                    &gsizes,
                    &mut retics,
                    ntaxa,
                    gcap,
                    rcap,
                ) {
                    let _ = conflict_pair(
                        k.t1,
                        k.t2,
                        &mut attach,
                        g_count,
                        &gsizes,
                        &mut retics,
                        ntaxa,
                        gcap,
                        rcap,
                    );
                }
            }
        }
        ei = ei + 1;
    }
    let conflicts = retics.len();
    let net = build_network(&attach, &retics, g_count, taxa, gcap, rcap);
    (net, conflicts)
}

/// Arena index of an attachment point.
fn attach_node(a: Attach, g_count: usize) -> (r: usize)
    requires
        attach_ok(a, g_count as int, usize::MAX - 1 - g_count),
    ensures
        r == spec_attach_node(a, g_count as int),
{
    match a {
        Attach::Root => 0,
        Attach::Group(gi) => 1 + gi,
        Attach::Retic(ri) => 1 + g_count + ri,
    }
}

/// Lay the resolved structure out as an arena: the root, the cherry
/// group nodes, the reticulation nodes, then one leaf per taxon.
fn build_network(
    attach: &Vec<Attach>,
    retics: &Vec<(Attach, Attach)>,
    g_count: usize,
    taxa: &Vec<String>,
    gcap: usize,
    rcap: usize,
) -> (net: Network)
    requires
        gcap + rcap + 1 + taxa@.len() <= usize::MAX,
        state_ok(
            attach@,
            g_count as int,
            retics@,
            taxa@.len() as int,
            gcap as int,
            rcap as int,
        ),
    ensures
        net@.wf(),
        net@.nodes.len() == 1 + g_count + retics@.len() + taxa@.len(),
        forall|t: int|
            0 <= t < taxa@.len() ==> (#[trigger] net@.nodes[net@.nodes.len() - taxa@.len()
                + t]).label == Some(taxa@[t]@) && net@.nodes[net@.nodes.len() - taxa@.len()
                + t].children.len() == 0 && net@.nodes[net@.nodes.len() - taxa@.len()
                + t].parents.len() == 1,
        forall|i: int|
            0 <= i < net@.nodes.len() - taxa@.len() ==> (#[trigger] net@.nodes[i]).label is None,
        retic_count_upto(net@.nodes, net@.nodes.len() as int) == retics@.len(),
{
    let ntaxa = taxa.len();
    let r_count = retics.len();
    let first_retic = 1 + g_count;
    let first_leaf = 1 + g_count + r_count;
    let total = first_leaf + ntaxa;
    let mut nodes: Vec<NetNode> = Vec::new();
    nodes.push(NetNode { parents: Vec::new(), children: Vec::new(), label: None });
    let mut g: usize = 0;
    while g < g_count
        invariant
            nodes@.len() == 1 + g,
            g <= g_count,
            nodes@[0]@.parents.len() == 0,
            nodes@[0]@.label is None,
            forall|i: int|
                1 <= i < nodes@.len() ==> (#[trigger] nodes@[i]@).parents =~= seq![
                    (0usize, None::<u64>),
                ] && nodes@[i]@.label is None,
            forall|i: int| 0 <= i < nodes@.len() ==> (#[trigger] nodes@[i]@).children.len() == 0,
        decreases g_count - g,
    {
        let mut parents: Vec<(NodeId, Option<u64>)> = Vec::new();
        parents.push((0, None));
        nodes.push(NetNode { parents, children: Vec::new(), label: None });
        g = g + 1;
    }
    let mut rr: usize = 0;
    while rr < r_count
        invariant
            r_count == retics@.len(),
            state_ok(
                attach@,
                g_count as int,
                retics@,
                taxa@.len() as int,
                gcap as int,
                rcap as int,
            ),
            gcap + rcap + 1 + taxa@.len() <= usize::MAX,
            first_retic == 1 + g_count,
            nodes@.len() == first_retic + rr,
            rr <= r_count,
            nodes@[0]@.parents.len() == 0,
            nodes@[0]@.label is None,
            forall|i: int|
                1 <= i < first_retic ==> (#[trigger] nodes@[i]@).parents =~= seq![
                    (0usize, None::<u64>),
                ] && nodes@[i]@.label is None,
            forall|i: int|
                first_retic <= i < nodes@.len() ==> (#[trigger] nodes@[i]@).parents.len() == 2
                    && nodes@[i]@.label is None,
            forall|i: int, k: int|
                0 <= i < nodes@.len() && 0 <= k < nodes@[i]@.parents.len() ==> ((
                #[trigger] nodes@[i]@.parents[k]).0 as int) < i && (nodes@[i]@.parents[k].0 as int)
                    < first_retic + r_count,
            forall|i: int, k1: int, k2: int|
                0 <= i < nodes@.len() && 0 <= k1 < k2 < nodes@[i]@.parents.len() ==> (
                #[trigger] nodes@[i]@.parents[k1]).0 != (#[trigger] nodes@[i]@.parents[k2]).0,
            forall|i: int| 0 <= i < nodes@.len() ==> (#[trigger] nodes@[i]@).children.len() == 0,
        decreases r_count - rr,
    {
        let (a1, a2) = (retics[rr].0, retics[rr].1);
        proof {
            assert(retics@[rr as int].0 == a1 && retics@[rr as int].1 == a2);
            assert(attach_ok(a1, g_count as int, rr as int));
            assert(attach_ok(a2, g_count as int, rr as int));
            lemma_attach_node_inj(a1, a2, g_count as int, rr as int);
        }
        let p1 = attach_node(a1, g_count);
        let p2 = attach_node(a2, g_count);
        let mut parents: Vec<(NodeId, Option<u64>)> = Vec::new();
        parents.push((p1, None));
        parents.push((p2, None));
        nodes.push(NetNode { parents, children: Vec::new(), label: None });
        rr = rr + 1;
    }
    let mut t: usize = 0;
    while t < ntaxa
        invariant
            ntaxa == taxa@.len(),
            r_count == retics@.len(),
            state_ok(
                attach@,
                g_count as int,
                retics@,
                taxa@.len() as int,
                gcap as int,
                rcap as int,
            ),
            gcap + rcap + 1 + taxa@.len() <= usize::MAX,
            first_retic == 1 + g_count,
            first_leaf == 1 + g_count + r_count,
            nodes@.len() == first_leaf + t,
            t <= ntaxa,
            nodes@[0]@.parents.len() == 0,
            forall|i: int|
                1 <= i < first_retic ==> (#[trigger] nodes@[i]@).parents =~= seq![
                    (0usize, None::<u64>),
                ],
            forall|i: int|
                first_retic <= i < first_leaf ==> (#[trigger] nodes@[i]@).parents.len() == 2,
            forall|i: int|
                first_leaf <= i < nodes@.len() ==> (#[trigger] nodes@[i]@).parents.len() == 1
                    && nodes@[i]@.label == Some(taxa@[i - first_leaf]@),
            forall|i: int| 0 <= i < first_leaf ==> (#[trigger] nodes@[i]@).label is None,
            forall|i: int, k: int|
                0 <= i < nodes@.len() && 0 <= k < nodes@[i]@.parents.len() ==> ((
                #[trigger] nodes@[i]@.parents[k]).0 as int) < i && (nodes@[i]@.parents[k].0 as int)
                    < first_leaf,
            forall|i: int, k1: int, k2: int|
                0 <= i < nodes@.len() && 0 <= k1 < k2 < nodes@[i]@.parents.len() ==> (
                #[trigger] nodes@[i]@.parents[k1]).0 != (#[trigger] nodes@[i]@.parents[k2]).0,
            forall|i: int| 0 <= i < nodes@.len() ==> (#[trigger] nodes@[i]@).children.len() == 0,
        decreases ntaxa - t,
    {
        let at = attach[t];
        proof {
            assert(attach_ok(at, g_count as int, r_count as int));
        }
        let p = attach_node(at, g_count);
        let mut parents: Vec<(NodeId, Option<u64>)> = Vec::new();
        parents.push((p, None));
        let label = Some(taxa[t].as_str().to_owned());
        nodes.push(NetNode { parents, children: Vec::new(), label });
        t = t + 1;
    }
    finish_network(nodes, first_leaf, r_count, first_retic, taxa)
}

} // verus!

verus! {

/// The specification image of an arena of network nodes.
pub open spec fn net_nodes_view(nodes: Seq<NetNode>) -> Seq<NetNodeV> {
    Seq::new(nodes.len(), |y: int| nodes[y]@)
}

/// Whether `p` occurs among the parent edges in `v`.
fn parents_contains(v: &Vec<(NodeId, Option<u64>)>, p: usize) -> (r: bool)
    ensures
        r == parent_has_seq(v@, p as int),
{
    let mut m: usize = 0;
    while m < v.len()
        invariant
            m <= v@.len(),
            forall|x: int| 0 <= x < m ==> (#[trigger] v@[x]).0 != p,
        decreases v@.len() - m,
    {
        if v[m].0 == p {
            return true;
        }
        m = m + 1;
    }
    false
}

/// Children of the first `i` nodes are exactly the later nodes that name
/// them as a parent, in increasing order.
pub open spec fn kids_ok(nodes: Seq<NetNodeV>, i: int) -> bool {
    &&& forall|k: int|
        0 <= k < nodes[i].children.len() ==> i < (#[trigger] nodes[i].children[k]) < nodes.len()
            && parent_has(nodes[nodes[i].children[k] as int], i)
    &&& forall|k1: int, k2: int|
        0 <= k1 < k2 < nodes[i].children.len() ==> #[trigger] nodes[i].children[k1]
            < #[trigger] nodes[i].children[k2]
    &&& forall|j: int|
        i < j < nodes.len() && parent_has(#[trigger] nodes[j], i) ==> nodes[i].children.contains(
            j as NodeId,
        )
}

/// Fill in the child lists of a parents-only arena and package it as a
/// well-formed network.
fn finish_network(
    nodes: Vec<NetNode>,
    first_leaf: usize,
    r_count: usize,
    first_retic: usize,
    taxa: &Vec<String>,
) -> (net: Network)
    requires
        nodes@.len() == first_leaf + taxa@.len(),
        first_leaf == first_retic + r_count,
        1 <= first_retic <= first_leaf,
        nodes@[0]@.parents.len() == 0,
        forall|i: int| 1 <= i < first_retic ==> (#[trigger] nodes@[i]@).parents.len() == 1,
        forall|i: int|
            first_retic <= i < first_leaf ==> (#[trigger] nodes@[i]@).parents.len() == 2,
        forall|i: int|
            first_leaf <= i < nodes@.len() ==> (#[trigger] nodes@[i]@).parents.len() == 1
                && nodes@[i]@.label == Some(taxa@[i - first_leaf]@),
        forall|i: int| 0 <= i < first_leaf ==> (#[trigger] nodes@[i]@).label is None,
        forall|i: int, k: int|
            0 <= i < nodes@.len() && 0 <= k < nodes@[i]@.parents.len() ==> ((
            #[trigger] nodes@[i]@.parents[k]).0 as int) < i && (nodes@[i]@.parents[k].0 as int)
                < first_leaf,
        forall|i: int, k1: int, k2: int|
            0 <= i < nodes@.len() && 0 <= k1 < k2 < nodes@[i]@.parents.len() ==> (
            #[trigger] nodes@[i]@.parents[k1]).0 != (#[trigger] nodes@[i]@.parents[k2]).0,
        forall|i: int| 0 <= i < nodes@.len() ==> (#[trigger] nodes@[i]@).children.len() == 0,
    ensures
        net@.wf(),
        net@.nodes.len() == nodes@.len(),
        forall|t: int|
            0 <= t < taxa@.len() ==> (#[trigger] net@.nodes[net@.nodes.len() - taxa@.len()
                + t]).label == Some(taxa@[t]@) && net@.nodes[net@.nodes.len() - taxa@.len()
                + t].children.len() == 0 && net@.nodes[net@.nodes.len() - taxa@.len()
                + t].parents.len() == 1,
        forall|i: int|
            0 <= i < net@.nodes.len() - taxa@.len() ==> (#[trigger] net@.nodes[i]).label is None,
        retic_count_upto(net@.nodes, net@.nodes.len() as int) == r_count,
{
    let mut nodes = nodes;
    let total = nodes.len();
    let ghost snap = net_nodes_view(nodes@);
    let mut i: usize = 0;
    while i < total
        invariant
            total == nodes@.len(),
            snap.len() == total,
            i <= total,
            forall|x: int|
                0 <= x < total ==> (#[trigger] nodes@[x]@).parents == snap[x].parents
                    && nodes@[x]@.label == snap[x].label,
            forall|x: int|
                0 <= x < i ==> #[trigger] kids_ok(net_nodes_view(nodes@), x),
            forall|x: int| i <= x < total ==> (#[trigger] nodes@[x]@).children.len() == 0,
        decreases total - i,
    {
        let ghost pre = net_nodes_view(nodes@);
        let mut kids: Vec<NodeId> = Vec::new();
        let mut j: usize = i + 1;
        while j < total
            invariant
                total == nodes@.len(),
                i < j <= total || (j == i + 1),
                i < total,
                j >= i + 1,
                pre == net_nodes_view(nodes@),
                forall|k: int|
                    0 <= k < kids@.len() ==> i < (#[trigger] kids@[k]) < total && parent_has(
                        pre[kids@[k] as int],
                        i as int,
                    ),
                forall|k: int| 0 <= k < kids@.len() ==> (#[trigger] kids@[k]) < j,
                forall|k1: int, k2: int|
                    0 <= k1 < k2 < kids@.len() ==> #[trigger] kids@[k1] < #[trigger] kids@[k2],
                forall|j2: int|
                    i < j2 < j && parent_has(#[trigger] pre[j2], i as int) ==> kids@.contains(
                        j2 as NodeId,
                    ),
            decreases total - j,
        {
            if parents_contains(&nodes[j].parents, i) {
                proof {
                    assert(pre[j as int].parents == nodes@[j as int]@.parents);
                    assert(parent_has(pre[j as int], i as int));
                }
                let ghost oldkids = kids@;
                kids.push(j);
                proof {
                    assert forall|j2: int|
                        i < j2 < j + 1 && parent_has(#[trigger] pre[j2], i as int)
                        implies kids@.contains(j2 as NodeId) by {
                        if j2 == j {
                            assert(kids@.last() == j as NodeId);
                        } else {
                            let idx = choose|idx: int|
                                0 <= idx < oldkids.len() && oldkids[idx] == j2 as NodeId;
                            assert(kids@[idx] == j2 as NodeId);
                        }
                    }
                }
            } else {
                proof {
                    assert(pre[j as int].parents == nodes@[j as int]@.parents);
                    assert(!parent_has(pre[j as int], i as int));
                }
            }
            j = j + 1;
        }
        let nd = &mut nodes[i];
        nd.children = kids;
        proof {
            let post = net_nodes_view(nodes@);
            assert(nodes@[i as int]@.children == kids@);
            assert(nodes@[i as int]@.parents == pre[i as int].parents);
            assert(nodes@[i as int]@.label == pre[i as int].label);
            assert forall|x: int| 0 <= x < total && x != i implies #[trigger] post[x] == pre[x] by {
                assert(nodes@[x]@ == pre[x]);
            }
            assert forall|x: int|
                0 <= x < total implies (#[trigger] post[x]).parents == snap[x].parents
                && post[x].label == snap[x].label by {
                if x != i {
                    assert(post[x] == pre[x]);
                }
            }
            assert forall|x: int| 0 <= x <= i implies kids_ok(post, x) by {
                if x < i {
                    assert(kids_ok(pre, x));
                    assert(post[x].children == pre[x].children);
                    assert forall|k: int|
                        0 <= k < post[x].children.len() implies x < (
                    #[trigger] post[x].children[k]) < post.len() && parent_has(
                        post[post[x].children[k] as int],
                        x,
                    ) by {
                        let c = pre[x].children[k] as int;
                        assert(post[c].parents == pre[c].parents);
                    }
                    assert forall|j2: int|
                        x < j2 < post.len() && parent_has(#[trigger] post[j2], x)
                        implies post[x].children.contains(j2 as NodeId) by {
                        assert(post[j2].parents == pre[j2].parents);
                        assert(parent_has(pre[j2], x));
                    }
                } else {
                    assert(post[x].children == kids@);
                    assert forall|k: int|
                        0 <= k < post[x].children.len() implies x < (
                    #[trigger] post[x].children[k]) < post.len() && parent_has(
                        post[post[x].children[k] as int],
                        x,
                    ) by {
                        assert(parent_has(pre[kids@[k] as int], x));
                        assert(post[kids@[k] as int].parents == pre[kids@[k] as int].parents);
                    }
                    assert forall|j2: int|
                        x < j2 < post.len() && parent_has(#[trigger] post[j2], x)
                        implies post[x].children.contains(j2 as NodeId) by {
                        assert(post[j2].parents == pre[j2].parents);
                        assert(parent_has(pre[j2], x));
                    }
                }
            }
        }
        i = i + 1;
    }
    let net = Network { nodes, root: 0 };
    proof {
        let nv = net@;
        assert(nv.nodes =~= net_nodes_view(net.nodes@));
        assert forall|i2: int, k: int|
            0 <= i2 < nv.nodes.len() && 0 <= k < nv.nodes[i2].children.len() implies i2 < (
        #[trigger] nv.nodes[i2].children[k]) < nv.nodes.len() && parent_has(
            nv.nodes[nv.nodes[i2].children[k] as int],
            i2,
        ) by {
            assert(kids_ok(nv.nodes, i2));
        }
        assert forall|i2: int, k1: int, k2: int|
            0 <= i2 < nv.nodes.len() && 0 <= k1 < k2 < nv.nodes[i2].children.len()
            implies #[trigger] nv.nodes[i2].children[k1] < #[trigger] nv.nodes[i2].children[k2] by {
            assert(kids_ok(nv.nodes, i2));
        }
        assert forall|j: int, m: int|
            0 <= j < nv.nodes.len() && 0 <= m < nv.nodes[j].parents.len() implies nv.nodes[(
        #[trigger] nv.nodes[j].parents[m]).0 as int].children.contains(j as NodeId) by {
            let p = nv.nodes[j].parents[m].0 as int;
            assert(parent_has(nv.nodes[j], p));
            assert(kids_ok(nv.nodes, p));
        }
        assert forall|i2: int| 1 <= i2 < nv.nodes.len() implies (
        #[trigger] nv.nodes[i2].parents).len() >= 1 by {
            assert(nv.nodes[i2].parents == snap[i2].parents);
        }
        // the reticulation nodes are exactly the range [first_retic, first_leaf)
        assert forall|i2: int|
            0 <= i2 < nv.nodes.len() implies ((#[trigger] nv.nodes[i2].parents).len() >= 2
            <==> first_retic <= i2 < first_leaf) by {
            assert(nv.nodes[i2].parents == snap[i2].parents);
        }
        lemma_retic_count_range(
            nv.nodes,
            first_retic as int,
            first_leaf as int,
            nv.nodes.len() as int,
        );
        // a leaf has no children: nothing names a leaf as its parent
        assert forall|t: int|
            0 <= t < taxa@.len() implies (#[trigger] nv.nodes[first_leaf + t]).children.len()
            == 0 by {
            assert(kids_ok(nv.nodes, first_leaf + t));
            if nv.nodes[first_leaf + t].children.len() > 0 {
                let c = nv.nodes[first_leaf + t].children[0] as int;
                assert(parent_has(nv.nodes[c], first_leaf + t));
                let m = choose|m: int|
                    0 <= m < nv.nodes[c].parents.len() && (#[trigger] nv.nodes[c].parents[m]).0
                        == first_leaf + t;
                assert(nv.nodes[c].parents == snap[c].parents);
            }
        }
    }
    net
}

} // verus!
