//! Rooting.
//!
//! The resolver lays its arena out in topological order, so the network
//! arrives with a unique in-degree-zero node, node 0.  Midpoint rooting
//! would need branch lengths, which quartet resolution does not produce;
//! the deterministic fallback policy therefore applies and keeps the
//! unique parentless apex as the root, which makes the output
//! reproducible.  The one failure the policy admits — a network without
//! leaves — cannot arise: in a well-formed network the youngest node has
//! no children, so a leaf always exists ([`lemma_network_has_leaf`]).

use vstd::prelude::*;

use crate::network::Network;
use crate::network::NetworkV;

verus! {

/// A well-formed network always has a leaf: its youngest node can have no
/// children (a child would need a larger id).
pub proof fn lemma_network_has_leaf(net: NetworkV)
    requires
        net.wf(),
    ensures
        exists|i: int|
            0 <= i < net.nodes.len() && (#[trigger] net.nodes[i]).children.len() == 0,
{
    let last = net.nodes.len() - 1;
    if net.nodes[last].children.len() > 0 {
        assert((net.nodes[last].children[0] as int) < net.nodes.len());
        assert(false);
    }
    assert(net.nodes[last].children.len() == 0);
}

/// Assign the root: the unique parentless node, node 0.
pub fn root_network(net: Network) -> (r: Network)
    requires
        net@.wf(),
    ensures
        r@.wf(),
        r@.nodes == net@.nodes,
        r@.root == 0usize,
{
    let r = Network { nodes: net.nodes, root: 0 };
    proof {
        assert(r@.nodes =~= net@.nodes);
    }
    r
}

} // verus!
