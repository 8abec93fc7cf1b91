//! Distance computations and subtree statistics over a [`Tree`].
//!
//! The topological distance between two nodes is the number of edges on the
//! path joining them through their lowest common ancestor; the patristic
//! distance is the sum of branch lengths (in nano-units, missing lengths
//! counting as zero) along the same path.

use vstd::prelude::*;
use vstd::set_lib::lemma_int_range;
use vstd::set_lib::lemma_len_subset;
use vstd::set_lib::lemma_set_disjoint_lens;
use vstd::set_lib::set_int_range;

use crate::structure::NodeId;
use crate::structure::Tree;
use crate::structure::TreeV;
use crate::structure::lemma_ancestor_depth;
use crate::structure::lemma_ancestor_index;
use crate::structure::lemma_ancestor_same_depth;
use crate::structure::lemma_ancestor_trans;

verus! {

impl TreeV {
    /// Branch length of the edge from `x` to its parent; a missing length
    /// counts as zero.
    pub open spec fn edge_weight(self, x: int) -> u64 {
        match self.nodes[x].length_to_parent {
            Some(w) => w,
            None => 0,
        }
    }

    /// Sum of branch lengths on the chain from `x` up to (but excluding)
    /// the ancestor `r`.
    pub open spec fn chain_sum(self, x: int, r: int) -> int
        decreases x,
    {
        if 0 <= x < self.nodes.len() && x != r {
            match self.nodes[x].parent {
                Some(p) => if p < x {
                    self.edge_weight(x) + self.chain_sum(p as int, r)
                } else {
                    0
                },
                None => 0,
            }
        } else {
            0
        }
    }

    /// Patristic distance between `a` and `b`: branch lengths summed along
    /// the path joining them through their lowest common ancestor.
    pub open spec fn spec_patristic_distance(self, a: int, b: int) -> int {
        self.chain_sum(a, self.lca_of(a, b)) + self.chain_sum(b, self.lca_of(a, b))
    }

    /// Topological distance between `a` and `b`: the number of edges on the
    /// path joining them through their lowest common ancestor.
    pub open spec fn spec_topological_distance(self, a: int, b: int) -> int {
        self.depth_of(a) + self.depth_of(b) - 2 * self.depth_of(self.lca_of(a, b))
    }

    /// The strict ancestors of `a` that sit below the depth cutoff `dcut`.
    pub open spec fn chain_above(self, a: int, dcut: nat) -> Set<int> {
        Set::new(|x: int| self.in_ancestors(a, x) && self.depth_of(x) > dcut)
    }

    /// The number of leaves in the subtree rooted at `n`: the leaves having
    /// `n` on their parent chain.
    pub open spec fn leaf_descendants(self, n: int) -> Set<int> {
        Set::new(
            |x: int|
                0 <= x < self.nodes.len() && self.nodes[x].children.len() == 0
                    && self.in_ancestors(x, n),
        )
    }

    pub open spec fn subtree_leaf_count(self, n: int) -> nat {
        self.leaf_descendants(n).len()
    }
}

/// The chain from `a` up to depth `dcut` holds exactly
/// `depth(a) - dcut` nodes.
pub proof fn lemma_chain_above_card(t: TreeV, a: int, dcut: nat)
    requires
        t.wf(),
        t.valid_id(a),
        dcut <= t.depth_of(a),
    ensures
        t.chain_above(a, dcut).finite(),
        t.chain_above(a, dcut).len() == t.depth_of(a) - dcut,
    decreases a,
{
    if t.depth_of(a) == dcut {
        assert forall|x: int| !(#[trigger] t.chain_above(a, dcut).contains(x)) by {
            if t.in_ancestors(a, x) {
                lemma_ancestor_depth(t, a, x);
            }
        }
        assert(t.chain_above(a, dcut) =~= Set::<int>::empty());
    } else {
        assert(t.wf_node(a));
        let p = t.nodes[a].parent.unwrap() as int;
        lemma_chain_above_card(t, p, dcut);
        assert(!t.chain_above(p, dcut).contains(a)) by {
            if t.in_ancestors(p, a) {
                lemma_ancestor_index(t, p, a);
            }
        }
        assert(t.chain_above(a, dcut) =~= t.chain_above(p, dcut).insert(a)) by {
            assert forall|x: int|
                #[trigger] t.chain_above(a, dcut).contains(x) implies t.chain_above(
                p,
                dcut,
            ).insert(a).contains(x) by {
                if x != a {
                    assert(t.in_ancestors(p, x));
                }
            }
            assert forall|x: int| #[trigger]
                t.chain_above(p, dcut).insert(a).contains(x) implies t.chain_above(
                a,
                dcut,
            ).contains(x) by {
                if x != a {
                    assert(t.in_ancestors(a, x));
                }
            }
        }
    }
}

/// The two chains joining `a` and `b` to their lowest common ancestor are
/// disjoint, so the path between the nodes has fewer edges than the tree
/// has nodes.
pub proof fn lemma_path_edge_bound(t: TreeV, a: int, b: int, l: int)
    requires
        t.wf(),
        t.valid_id(a),
        t.valid_id(b),
        t.is_lca(a, b, l),
    ensures
        t.depth_of(l) <= t.depth_of(a),
        t.depth_of(l) <= t.depth_of(b),
        (t.depth_of(a) - t.depth_of(l)) + (t.depth_of(b) - t.depth_of(l)) < t.nodes.len(),
{
    let dl = t.depth_of(l);
    lemma_ancestor_depth(t, a, l);
    lemma_ancestor_depth(t, b, l);
    let sa = t.chain_above(a, dl);
    let sb = t.chain_above(b, dl);
    lemma_chain_above_card(t, a, dl);
    lemma_chain_above_card(t, b, dl);
    assert forall|x: int| #[trigger] sa.contains(x) implies !sb.contains(x) by {
        if sb.contains(x) {
            assert(t.in_ancestors(l, x));
            lemma_ancestor_depth(t, l, x);
        }
    }
    assert(sa.disjoint(sb));
    lemma_set_disjoint_lens(sa, sb);
    let range = set_int_range(0, t.nodes.len() as int);
    lemma_int_range(0, t.nodes.len() as int);
    assert((sa + sb).insert(l).subset_of(range)) by {
        assert forall|x: int| #[trigger] (sa + sb).insert(l).contains(x) implies range.contains(
            x,
        ) by {
            if x != l {
                if sa.contains(x) {
                    lemma_ancestor_index(t, a, x);
                } else {
                    lemma_ancestor_index(t, b, x);
                }
            }
        }
    }
    assert(!(sa + sb).contains(l));
    lemma_len_subset((sa + sb).insert(l), range);
}

impl Tree {
    /// Topological distance (edge count) between `a` and `b`; `None`
    /// exactly when one of the ids is out of range.
    pub fn topological_distance(&self, a: NodeId, b: NodeId) -> (r: Option<usize>)
        requires
            self@.wf(),
        ensures
            r is Some <==> (self@.valid_id(a as int) && self@.valid_id(b as int)),
            r is Some ==> r.unwrap() == self@.spec_topological_distance(a as int, b as int),
    {
        let lca = match self.lca(a, b) {
            Some(l) => l,
            None => {
                return None;
            },
        };
        let da = self.depth(a);
        let db = self.depth(b);
        let dl = self.depth(lca);
        let n = self.nodes.len();
        proof {
            lemma_path_edge_bound(self@, a as int, b as int, lca as int);
            assert((da - dl) + (db - dl) < n);
        }
        Some((da - dl) + (db - dl))
    }

    /// Patristic distance (summed branch lengths, in nano-units) between
    /// `a` and `b`.  `None` when an id is out of range, or when the sum
    /// does not fit in 64 bits.
    pub fn patristic_distance(&self, a: NodeId, b: NodeId) -> (r: Option<u64>)
        requires
            self@.wf(),
        ensures
            r is Some <==> (self@.valid_id(a as int) && self@.valid_id(b as int)
                && self@.spec_patristic_distance(a as int, b as int) <= u64::MAX),
            r is Some ==> r.unwrap() == self@.spec_patristic_distance(a as int, b as int),
    {
        let lca = match self.lca(a, b) {
            Some(l) => l,
            None => {
                return None;
            },
        };
        let ghost total = self@.spec_patristic_distance(a as int, b as int);
        let mut acc: u64 = 0;
        let mut cur = a;
        while cur != lca
            invariant
                self@.wf(),
                self@.valid_id(cur as int),
                self@.valid_id(b as int),
                self@.in_ancestors(cur as int, lca as int),
                acc + self@.chain_sum(cur as int, lca as int) == self@.chain_sum(
                    a as int,
                    lca as int,
                ),
                total == self@.chain_sum(a as int, lca as int) + self@.chain_sum(
                    b as int,
                    lca as int,
                ),
                total == self@.spec_patristic_distance(a as int, b as int),
            decreases cur,
        {
            assert(self@.wf_node(cur as int));
            assert(self@.nodes[cur as int].parent is Some);
            let w = match self.nodes[cur].length_to_parent {
                Some(w) => w,
                None => 0,
            };
            let ghost p = self@.nodes[cur as int].parent.unwrap() as int;
            proof {
                assert(w == self@.edge_weight(cur as int));
                assert(self@.chain_sum(cur as int, lca as int) == w + self@.chain_sum(
                    p,
                    lca as int,
                ));
                lemma_chain_sum_nonneg(self@, p, lca as int);
                lemma_chain_sum_nonneg(self@, b as int, lca as int);
            }
            acc = match acc.checked_add(w) {
                Some(s) => s,
                None => {
                    return None;
                },
            };
            cur = self.nodes[cur].parent.unwrap();
        }
        let mut cur = b;
        while cur != lca
            invariant
                self@.wf(),
                self@.valid_id(cur as int),
                self@.in_ancestors(cur as int, lca as int),
                acc + self@.chain_sum(cur as int, lca as int) == total,
                total == self@.spec_patristic_distance(a as int, b as int),
            decreases cur,
        {
            assert(self@.wf_node(cur as int));
            assert(self@.nodes[cur as int].parent is Some);
            let w = match self.nodes[cur].length_to_parent {
                Some(w) => w,
                None => 0,
            };
            let ghost p = self@.nodes[cur as int].parent.unwrap() as int;
            proof {
                assert(w == self@.edge_weight(cur as int));
                assert(self@.chain_sum(cur as int, lca as int) == w + self@.chain_sum(
                    p,
                    lca as int,
                ));
                lemma_chain_sum_nonneg(self@, p, lca as int);
            }
            acc = match acc.checked_add(w) {
                Some(s) => s,
                None => {
                    return None;
                },
            };
            cur = self.nodes[cur].parent.unwrap();
        }
        Some(acc)
    }
}

/// The lowest common ancestor sits no deeper than either node, the
/// topological distance is never negative, and it is zero exactly for a
/// node paired with itself.
pub proof fn lemma_distance_properties(t: TreeV, a: int, b: int)
    requires
        t.wf(),
        t.valid_id(a),
        t.valid_id(b),
    ensures
        t.depth_of(t.lca_of(a, b)) <= t.depth_of(a),
        t.depth_of(t.lca_of(a, b)) <= t.depth_of(b),
        t.spec_topological_distance(a, b) >= 0,
        t.spec_topological_distance(a, b) == 0 <==> a == b,
{
    crate::structure::lemma_lca_exists(t, a, b);
    let l = t.lca_of(a, b);
    lemma_ancestor_depth(t, a, l);
    lemma_ancestor_depth(t, b, l);
    if t.spec_topological_distance(a, b) == 0 {
        lemma_ancestor_same_depth(t, a, l);
        lemma_ancestor_same_depth(t, b, l);
    }
    if a == b {
        assert(t.in_ancestors(a, a));
        assert(t.is_lca(a, b, a));
        crate::structure::lemma_lca_unique(t, a, b, a, l);
    }
}

/// Two ancestors of the same node are comparable: one lies on the parent
/// chain of the other.
pub proof fn lemma_ancestors_comparable(t: TreeV, x: int, u: int, v: int)
    requires
        t.in_ancestors(x, u),
        t.in_ancestors(x, v),
    ensures
        t.in_ancestors(u, v) || t.in_ancestors(v, u),
    decreases x,
{
    if x == u {
        // v is an ancestor of x == u
    } else if x == v {
        // u is an ancestor of x == v
    } else {
        let p = t.nodes[x].parent.unwrap() as int;
        lemma_ancestors_comparable(t, p, u, v);
    }
}

/// A strict ancestor of any node has children.
pub proof fn lemma_strict_ancestor_internal(t: TreeV, x: int, n: int)
    requires
        t.wf(),
        t.in_ancestors(x, n),
        x != n,
    ensures
        t.nodes[n].children.len() > 0,
    decreases x,
{
    let p = t.nodes[x].parent.unwrap() as int;
    if p == n {
        assert(t.wf_node(x));
        assert(t.nodes[n].children.contains(x as NodeId));
        let k = choose|k: int|
            0 <= k < t.nodes[n].children.len() && t.nodes[n].children[k] == x as NodeId;
        assert(t.nodes[n].children.len() > 0);
    } else {
        lemma_strict_ancestor_internal(t, p, n);
    }
}

/// The leaf descendants of a leaf are the leaf itself.
pub proof fn lemma_leafdesc_leaf(t: TreeV, n: int)
    requires
        t.wf(),
        t.valid_id(n),
        t.nodes[n].children.len() == 0,
    ensures
        t.leaf_descendants(n) =~= Set::<int>::empty().insert(n),
        t.subtree_leaf_count(n) == 1,
{
    assert forall|x: int| #[trigger] t.leaf_descendants(n).contains(x) implies x == n by {
        if x != n {
            lemma_strict_ancestor_internal(t, x, n);
        }
    }
    assert(t.in_ancestors(n, n));
    assert(t.leaf_descendants(n).contains(n));
    assert(t.leaf_descendants(n) =~= Set::<int>::empty().insert(n));
    assert(Set::<int>::empty().insert(n).len() == 1);
}

/// Every strict descendant of `n` descends through exactly one child of
/// `n`; this gives the existence half.
pub proof fn lemma_descends_through_child(t: TreeV, x: int, n: int)
    requires
        t.wf(),
        t.in_ancestors(x, n),
        x != n,
    ensures
        exists|k: int|
            0 <= k < t.nodes[n].children.len() && #[trigger] t.in_ancestors(
                x,
                t.nodes[n].children[k] as int,
            ),
    decreases x,
{
    let p = t.nodes[x].parent.unwrap() as int;
    if p == n {
        assert(0 <= x < t.nodes.len());
        assert(t.nodes[n].children.contains(x as NodeId));
        let k = choose|k: int|
            0 <= k < t.nodes[n].children.len() && t.nodes[n].children[k] == x as NodeId;
        assert(t.nodes[n].children[k] as int == x);
        assert(t.in_ancestors(x, x));
        assert(t.in_ancestors(x, t.nodes[n].children[k] as int));
    } else {
        lemma_descends_through_child(t, p, n);
        let k = choose|k: int|
            0 <= k < t.nodes[n].children.len() && #[trigger] t.in_ancestors(
                p,
                t.nodes[n].children[k] as int,
            );
        assert(t.in_ancestors(x, t.nodes[n].children[k] as int));
    }
}

impl TreeV {
    /// Union of the leaf-descendant sets of the first `k` children of `n`.
    pub open spec fn kids_leafdesc(self, n: int, k: int) -> Set<int>
        decreases k,
    {
        if k <= 0 {
            Set::empty()
        } else {
            self.kids_leafdesc(n, k - 1) + self.leaf_descendants(
                self.nodes[n].children[k - 1] as int,
            )
        }
    }
}

/// Membership in the partial union of child leaf sets.
pub proof fn lemma_kids_membership(t: TreeV, n: int, k: int, x: int)
    requires
        0 <= k <= t.nodes[n].children.len(),
    ensures
        t.kids_leafdesc(n, k).contains(x) <==> exists|j: int|
            0 <= j < k && #[trigger] t.leaf_descendants(t.nodes[n].children[j] as int).contains(x),
    decreases k,
{
    if k > 0 {
        lemma_kids_membership(t, n, k - 1, x);
    }
}

/// The leaf descendants of distinct children of one node are disjoint.
pub proof fn lemma_kids_disjoint(t: TreeV, n: int, j: int, k: int)
    requires
        t.wf(),
        t.valid_id(n),
        0 <= j < k < t.nodes[n].children.len(),
    ensures
        t.leaf_descendants(t.nodes[n].children[j] as int).disjoint(
            t.leaf_descendants(t.nodes[n].children[k] as int),
        ),
{
    let cj = t.nodes[n].children[j] as int;
    let ck = t.nodes[n].children[k] as int;
    assert(t.wf_node(n));
    assert(cj != ck);
    assert forall|x: int|
        #[trigger] t.leaf_descendants(cj).contains(x) implies !t.leaf_descendants(ck).contains(
        x,
    ) by {
        if t.leaf_descendants(ck).contains(x) {
            lemma_ancestors_comparable(t, x, cj, ck);
            if t.in_ancestors(cj, ck) {
                assert(t.in_ancestors(n, ck));
                lemma_ancestor_index(t, n, ck);
            } else {
                assert(t.in_ancestors(n, cj));
                lemma_ancestor_index(t, n, cj);
            }
        }
    }
}

/// For an internal node, the leaf descendants split exactly into the leaf
/// descendants of its children.
pub proof fn lemma_leafdesc_internal(t: TreeV, n: int)
    requires
        t.wf(),
        t.valid_id(n),
        t.nodes[n].children.len() > 0,
    ensures
        t.leaf_descendants(n) =~= t.kids_leafdesc(n, t.nodes[n].children.len() as int),
{
    let cl = t.nodes[n].children.len() as int;
    assert(t.wf_node(n));
    assert forall|x: int| #[trigger] t.leaf_descendants(n).contains(x) implies t.kids_leafdesc(
        n,
        cl,
    ).contains(x) by {
        assert(x != n);
        lemma_descends_through_child(t, x, n);
        let k = choose|k: int|
            0 <= k < t.nodes[n].children.len() && #[trigger] t.in_ancestors(
                x,
                t.nodes[n].children[k] as int,
            );
        assert(t.leaf_descendants(t.nodes[n].children[k] as int).contains(x));
        lemma_kids_membership(t, n, cl, x);
    }
    assert forall|x: int| #[trigger] t.kids_leafdesc(n, cl).contains(x) implies t.leaf_descendants(
        n,
    ).contains(x) by {
        lemma_kids_membership(t, n, cl, x);
        let j = choose|j: int|
            0 <= j < cl && #[trigger] t.leaf_descendants(t.nodes[n].children[j] as int).contains(
                x,
            );
        let c = t.nodes[n].children[j] as int;
        assert(t.in_ancestors(n, n));
        assert(t.in_ancestors(c, n));
        lemma_ancestor_trans(t, x, c, n);
    }
}

/// Leaf-descendant sets are finite subsets of the arena and their size is
/// bounded by the arena size.
pub proof fn lemma_leafdesc_finite(t: TreeV, n: int)
    ensures
        t.leaf_descendants(n).finite(),
        t.leaf_descendants(n).len() <= t.nodes.len(),
{
    let range = set_int_range(0, t.nodes.len() as int);
    lemma_int_range(0, t.nodes.len() as int);
    assert(t.leaf_descendants(n).subset_of(range));
    lemma_len_subset(t.leaf_descendants(n), range);
}

impl Tree {
    /// For every node, the number of leaves in the subtree below it: a
    /// single pass from the youngest node down to the root, summing the
    /// counts already computed for the children (1 for a leaf).
    pub fn compute_subtree_leaf_counts(&self) -> (r: Vec<usize>)
        requires
            self@.wf(),
        ensures
            r@.len() == self@.nodes.len(),
            forall|i: int| 0 <= i < r@.len() ==> #[trigger] r@[i] == self@.subtree_leaf_count(i),
    {
        let n = self.nodes.len();
        let mut counts: Vec<usize> = Vec::new();
        let mut j: usize = 0;
        while j < n
            invariant
                counts@.len() == j <= n,
            decreases n - j,
        {
            counts.push(0);
            j = j + 1;
        }
        let mut i: usize = n;
        while i > 0
            invariant
                self@.wf(),
                n == self@.nodes.len(),
                counts@.len() == n,
                i <= n,
                forall|x: int|
                    i <= x < n ==> #[trigger] counts@[x] == self@.subtree_leaf_count(x),
            decreases i,
        {
            i = i - 1;
            assert(self@.wf_node(i as int));
            if self.nodes[i].children.len() == 0 {
                proof {
                    lemma_leafdesc_leaf(self@, i as int);
                }
                counts.set(i, 1);
            } else {
                let mut sum: usize = 0;
                let mut k: usize = 0;
                let cl = self.nodes[i].children.len();
                proof {
                    lemma_int_range(0, n as int);
                }
                while k < cl
                    invariant
                        self@.wf(),
                        n == self@.nodes.len(),
                        counts@.len() == n,
                        i < n,
                        cl == self@.nodes[i as int].children.len(),
                        k <= cl,
                        forall|x: int|
                            i < x < n ==> #[trigger] counts@[x] == self@.subtree_leaf_count(x),
                        self@.kids_leafdesc(i as int, k as int).finite(),
                        sum == self@.kids_leafdesc(i as int, k as int).len(),
                        self@.kids_leafdesc(i as int, k as int).subset_of(
                            set_int_range(0, n as int),
                        ),
                    decreases cl - k,
                {
                    let c = self.nodes[i].children[k];
                    assert(self@.wf_node(i as int));
                    let ghost prev = self@.kids_leafdesc(i as int, k as int);
                    let ghost dc = self@.leaf_descendants(c as int);
                    proof {
                        lemma_leafdesc_finite(self@, c as int);
                        assert forall|x: int| #[trigger] prev.contains(x) implies !dc.contains(
                            x,
                        ) by {
                            lemma_kids_membership(self@, i as int, k as int, x);
                            let j0 = choose|j0: int|
                                0 <= j0 < k && #[trigger] self@.leaf_descendants(
                                    self@.nodes[i as int].children[j0] as int,
                                ).contains(x);
                            lemma_kids_disjoint(self@, i as int, j0, k as int);
                        }
                        assert(prev.disjoint(dc));
                        lemma_set_disjoint_lens(prev, dc);
                        assert(self@.kids_leafdesc(i as int, k as int + 1) == prev + dc);
                        lemma_int_range(0, n as int);
                        lemma_len_subset(prev + dc, set_int_range(0, n as int));
                        assert(dc.subset_of(set_int_range(0, n as int)));
                        assert((prev + dc).subset_of(set_int_range(0, n as int)));
                    }
                    sum = sum + counts[c];
                    k = k + 1;
                }
                proof {
                    lemma_leafdesc_internal(self@, i as int);
                    assert(self@.leaf_descendants(i as int) =~= self@.kids_leafdesc(
                        i as int,
                        cl as int,
                    ));
                }
                counts.set(i, sum);
            }
        }
        counts
    }
}

/// A chain sum is a sum of branch lengths and hence nonnegative.
pub proof fn lemma_chain_sum_nonneg(t: TreeV, x: int, r: int)
    ensures
        t.chain_sum(x, r) >= 0,
    decreases x,
{
    if 0 <= x < t.nodes.len() && x != r {
        match t.nodes[x].parent {
            Some(p) => {
                if p < x {
                    lemma_chain_sum_nonneg(t, p as int, r);
                }
            },
            None => {},
        }
    }
}

} // verus!
