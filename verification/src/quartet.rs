//! Quartet extraction.
//!
//! For every unordered set of four taxa occurring in a tree, the tree
//! induces one of three resolved pairings — `t0t1|t2t3`, `t0t2|t1t3`,
//! `t0t3|t1t2` — or none.  The pairing whose pair shares the strictly
//! deepest common ancestor wins; a tie, a star, or a duplicated taxon
//! leaves the quartet unresolved (the tree still counts for the key).  A
//! [`QuartetTable`] tallies, for each quartet key, how many input trees
//! support each variant, together with the summed patristic distances of
//! the supporting pairings (used later to break ties deterministically).

use vstd::prelude::*;

use crate::structure::NodeId;
use crate::structure::Tree;
use crate::structure::TreeV;

verus! {

/// The unrooted topology a tree induces on four taxa `t0 < t1 < t2 < t3`.
#[derive(Clone, Copy, Debug, PartialEq, Eq, Structural)]
pub enum Topology {
    /// `t0` pairs with `t1` (and `t2` with `t3`).
    PairFirst,
    /// `t0` pairs with `t2` (and `t1` with `t3`).
    PairSecond,
    /// `t0` pairs with `t3` (and `t1` with `t2`).
    PairThird,
    /// No strict majority pairing: a star or a tie.
    Unresolved,
}

/// Four taxon indices in strictly increasing order.
#[derive(Clone, Copy, Debug, PartialEq, Eq, Structural)]
pub struct QuartetKey {
    pub t0: usize,
    pub t1: usize,
    pub t2: usize,
    pub t3: usize,
}

impl QuartetKey {
    pub open spec fn wf(self, ntaxa: int) -> bool {
        self.t0 < self.t1 < self.t2 < self.t3 < ntaxa
    }
}

/// Weights (supporting-tree counts) and summed patristic distances for one
/// quartet key.  Counts and sums saturate at the 64-bit maximum.
#[derive(Clone, Copy, Debug, PartialEq, Eq, Structural)]
pub struct QuartetEntry {
    pub key: QuartetKey,
    pub w_first: u64,
    pub w_second: u64,
    pub w_third: u64,
    pub w_unresolved: u64,
    pub d_first: u64,
    pub d_second: u64,
    pub d_third: u64,
}

/// `a + b`, stuck at the 64-bit maximum.
pub open spec fn sat_add(a: u64, b: u64) -> u64 {
    if a + b > u64::MAX {
        u64::MAX
    } else {
        (a + b) as u64
    }
}

pub fn sat_add_exec(a: u64, b: u64) -> (r: u64)
    ensures
        r == sat_add(a, b),
{
    match a.checked_add(b) {
        Some(v) => v,
        None => u64::MAX,
    }
}

pub open spec fn nat_max(a: nat, b: nat) -> nat {
    if a >= b {
        a
    } else {
        b
    }
}

/// The classification rule on the six pairwise ancestor depths: a pairing
/// wins when the deeper of its two pair depths strictly exceeds the
/// deeper depth of both other pairings.
pub open spec fn spec_classify(
    d01: nat,
    d23: nat,
    d02: nat,
    d13: nat,
    d03: nat,
    d12: nat,
) -> Topology {
    let s1 = nat_max(d01, d23);
    let s2 = nat_max(d02, d13);
    let s3 = nat_max(d03, d12);
    if s1 > s2 && s1 > s3 {
        Topology::PairFirst
    } else if s2 > s1 && s2 > s3 {
        Topology::PairSecond
    } else if s3 > s1 && s3 > s2 {
        Topology::PairThird
    } else {
        Topology::Unresolved
    }
}

/// The depth of the lowest common ancestor of two nodes.
pub open spec fn pair_depth(t: TreeV, a: int, b: int) -> nat {
    t.depth_of(t.lca_of(a, b))
}

impl Tree {
    /// The topology this tree induces on the four leaves `l0..l3`
    /// (given in the order of their taxa).
    pub fn classify_quartet(&self, l0: NodeId, l1: NodeId, l2: NodeId, l3: NodeId) -> (r:
        Topology)
        requires
            self@.wf(),
            self@.valid_id(l0 as int),
            self@.valid_id(l1 as int),
            self@.valid_id(l2 as int),
            self@.valid_id(l3 as int),
        ensures
            r == spec_classify(
                pair_depth(self@, l0 as int, l1 as int),
                pair_depth(self@, l2 as int, l3 as int),
                pair_depth(self@, l0 as int, l2 as int),
                pair_depth(self@, l1 as int, l3 as int),
                pair_depth(self@, l0 as int, l3 as int),
                pair_depth(self@, l1 as int, l2 as int),
            ),
    {
        let d01 = self.depth(self.lca(l0, l1).unwrap());
        let d23 = self.depth(self.lca(l2, l3).unwrap());
        let d02 = self.depth(self.lca(l0, l2).unwrap());
        let d13 = self.depth(self.lca(l1, l3).unwrap());
        let d03 = self.depth(self.lca(l0, l3).unwrap());
        let d12 = self.depth(self.lca(l1, l2).unwrap());
        let s1 = if d01 >= d23 {
            d01
        } else {
            d23
        };
        let s2 = if d02 >= d13 {
            d02
        } else {
            d13
        };
        let s3 = if d03 >= d12 {
            d03
        } else {
            d12
        };
        if s1 > s2 && s1 > s3 {
            Topology::PairFirst
        } else if s2 > s1 && s2 > s3 {
            Topology::PairSecond
        } else if s3 > s1 && s3 > s2 {
            Topology::PairThird
        } else {
            Topology::Unresolved
        }
    }
}

pub open spec fn has_key(entries: Seq<QuartetEntry>, key: QuartetKey) -> bool {
    exists|i: int| 0 <= i < entries.len() && entries[i].key == key
}

/// Mapping from quartet keys to weight distributions over the four
/// topology variants.  Keys appear at most once, in first-insertion
/// order.
pub struct QuartetTable {
    pub entries: Vec<QuartetEntry>,
}

impl View for QuartetTable {
    type V = Seq<QuartetEntry>;

    open spec fn view(&self) -> Seq<QuartetEntry> {
        self.entries@
    }
}

impl QuartetTable {
    /// Keys are pairwise distinct and each is strictly increasing and
    /// within the taxon count.
    pub open spec fn wf(self, ntaxa: int) -> bool {
        &&& forall|i: int, j: int|
            0 <= i < j < self@.len() ==> (#[trigger] self@[i].key) != (#[trigger] self@[j].key)
        &&& forall|i: int| 0 <= i < self@.len() ==> (#[trigger] self@[i].key).wf(ntaxa)
    }

    pub fn new() -> (r: QuartetTable)
        ensures
            r@.len() == 0,
    {
        QuartetTable { entries: Vec::new() }
    }

    /// Add one observation: a tree supported `topo` for `key` with summed
    /// pair distance `dist`.  The weight of that variant for that key
    /// rises by one (saturating), its distance sum by `dist`
    /// (saturating); everything else is unchanged.  A fresh key is
    /// appended.
    pub fn add(&mut self, key: QuartetKey, topo: Topology, dist: u64)
        ensures
            final(self)@.len() == if has_key(old(self)@, key) {
                old(self)@.len()
            } else {
                old(self)@.len() + 1
            },
            // old entries with another key are untouched
            forall|i: int|
                0 <= i < old(self)@.len() && (#[trigger] old(self)@[i].key) != key
                    ==> final(self)@[i] == old(self)@[i],
            // the entry for `key` is updated (or created)
            forall|i: int|
                0 <= i < old(self)@.len() && (#[trigger] old(self)@[i].key) == key && (forall|
                    j: int,
                |
                    0 <= j < i ==> (#[trigger] old(self)@[j].key) != key) ==> final(self)@[i]
                    == spec_bump(old(self)@[i], topo, dist),
            !has_key(old(self)@, key) ==> final(self)@.last() == spec_bump(
                spec_fresh_entry(key),
                topo,
                dist,
            ),
            // a fresh key is appended at the end
            !has_key(old(self)@, key) ==> forall|i: int|
                0 <= i < old(self)@.len() ==> #[trigger] final(self)@[i] == old(self)@[i],
            // a sound table stays sound
            forall|nt: int|
                old(self).wf(nt) && key.wf(nt) ==> (#[trigger] final(self).wf(nt)),
    {
        let mut i: usize = 0;
        let n = self.entries.len();
        while i < n
            invariant
                self@ == old(self)@,
                n == self@.len(),
                i <= n,
                forall|j: int| 0 <= j < i ==> (#[trigger] self@[j].key) != key,
            decreases n - i,
        {
            let e = self.entries[i];
            if e.key.t0 == key.t0 && e.key.t1 == key.t1 && e.key.t2 == key.t2 && e.key.t3
                == key.t3 {
                let bumped = bump_exec(e, topo, dist);
                self.entries.set(i, bumped);
                proof {
                    assert(old(self)@[i as int].key == key);
                    assert(has_key(old(self)@, key));
                    assert(bumped.key == key);
                    assert forall|nt: int|
                        old(self).wf(nt) && key.wf(nt) implies #[trigger] self.wf(nt) by {
                        assert forall|a: int|
                            0 <= a < self@.len() implies (#[trigger] self@[a].key) == old(
                            self,
                        )@[a].key by {}
                    }
                }
                return ;
            }
            i = i + 1;
        }
        let fresh = QuartetEntry {
            key,
            w_first: 0,
            w_second: 0,
            w_third: 0,
            w_unresolved: 0,
            d_first: 0,
            d_second: 0,
            d_third: 0,
        };
        let bumped = bump_exec(fresh, topo, dist);
        self.entries.push(bumped);
        proof {
            assert(!has_key(old(self)@, key));
            assert(bumped.key == key);
            assert forall|nt: int|
                old(self).wf(nt) && key.wf(nt) implies #[trigger] self.wf(nt) by {
                assert forall|a: int, b: int|
                    0 <= a < b < self@.len() implies (#[trigger] self@[a].key)
                    != (#[trigger] self@[b].key) by {
                    if b == self@.len() - 1 {
                        assert(self@[a] == old(self)@[a]);
                        if self@[a].key == key {
                            assert(has_key(old(self)@, key));
                        }
                    } else {
                        assert(self@[a] == old(self)@[a]);
                        assert(self@[b] == old(self)@[b]);
                    }
                }
                assert forall|a: int|
                    0 <= a < self@.len() implies (#[trigger] self@[a].key).wf(nt) by {
                    if a < self@.len() - 1 {
                        assert(self@[a] == old(self)@[a]);
                    }
                }
            }
        }
    }
}

/// The entry a fresh key starts from: all weights and sums zero.
pub open spec fn spec_fresh_entry(key: QuartetKey) -> QuartetEntry {
    QuartetEntry {
        key,
        w_first: 0,
        w_second: 0,
        w_third: 0,
        w_unresolved: 0,
        d_first: 0,
        d_second: 0,
        d_third: 0,
    }
}

/// One observation folded into an entry.
pub open spec fn spec_bump(e: QuartetEntry, topo: Topology, dist: u64) -> QuartetEntry {
    match topo {
        Topology::PairFirst => QuartetEntry {
            w_first: sat_add(e.w_first, 1),
            d_first: sat_add(e.d_first, dist),
            ..e
        },
        Topology::PairSecond => QuartetEntry {
            w_second: sat_add(e.w_second, 1),
            d_second: sat_add(e.d_second, dist),
            ..e
        },
        Topology::PairThird => QuartetEntry {
            w_third: sat_add(e.w_third, 1),
            d_third: sat_add(e.d_third, dist),
            ..e
        },
        Topology::Unresolved => QuartetEntry { w_unresolved: sat_add(e.w_unresolved, 1), ..e },
    }
}

fn bump_exec(e: QuartetEntry, topo: Topology, dist: u64) -> (r: QuartetEntry)
    ensures
        r == spec_bump(e, topo, dist),
{
    match topo {
        Topology::PairFirst => QuartetEntry {
            w_first: sat_add_exec(e.w_first, 1),
            d_first: sat_add_exec(e.d_first, dist),
            ..e
        },
        Topology::PairSecond => QuartetEntry {
            w_second: sat_add_exec(e.w_second, 1),
            d_second: sat_add_exec(e.d_second, dist),
            ..e
        },
        Topology::PairThird => QuartetEntry {
            w_third: sat_add_exec(e.w_third, 1),
            d_third: sat_add_exec(e.d_third, dist),
            ..e
        },
        Topology::Unresolved => QuartetEntry {
            w_unresolved: sat_add_exec(e.w_unresolved, 1),
            ..e
        },
    }
}

} // verus!

verus! {

/// The specification images of a vector of trees.
pub open spec fn trees_view(ts: Seq<Tree>) -> Seq<TreeV> {
    Seq::new(ts.len(), |t: int| ts[t]@)
}

/// Append a label unless it is already present.
pub open spec fn dedup_push(acc: Seq<Seq<char>>, l: Seq<char>) -> Seq<Seq<char>> {
    if acc.contains(l) {
        acc
    } else {
        acc.push(l)
    }
}

/// The distinct leaf labels of the first `n` nodes of one tree, folded
/// onto an accumulator in first-occurrence order.
pub open spec fn taxa_fold_tree(t: TreeV, n: int, acc: Seq<Seq<char>>) -> Seq<Seq<char>>
    decreases n,
{
    if n <= 0 {
        acc
    } else {
        let prev = taxa_fold_tree(t, n - 1, acc);
        if t.nodes[n - 1].children.len() == 0 {
            match t.nodes[n - 1].label {
                Some(l) => dedup_push(prev, l),
                None => prev,
            }
        } else {
            prev
        }
    }
}

/// The distinct leaf labels of the first `k` trees, in first-occurrence
/// order.
pub open spec fn taxa_fold(ts: Seq<TreeV>, k: int) -> Seq<Seq<char>>
    decreases k,
{
    if k <= 0 {
        Seq::empty()
    } else {
        taxa_fold_tree(ts[k - 1], ts[k - 1].nodes.len() as int, taxa_fold(ts, k - 1))
    }
}

/// The canonical taxon list of a forest: every distinct leaf label, in
/// first-occurrence order.
pub open spec fn spec_taxa(ts: Seq<TreeV>) -> Seq<Seq<char>> {
    taxa_fold(ts, ts.len() as int)
}

/// `l` is the label of some leaf of some tree.
pub open spec fn is_taxon_of(trees: Seq<Tree>, l: Seq<char>) -> bool {
    exists|t: int, n: int|
        0 <= t < trees.len() && 0 <= n < trees[t]@.nodes.len()
            && (#[trigger] trees[t]@.nodes[n]).children.len() == 0 && trees[t]@.nodes[n].label
            == Some(l)
}

/// Whether some entry of `v` reads `l`.
fn contains_string(v: &Vec<String>, l: &String) -> (r: bool)
    ensures
        r == exists|k: int| 0 <= k < v@.len() && (#[trigger] v@[k]@) == l@,
{
    let mut k: usize = 0;
    while k < v.len()
        invariant
            k <= v@.len(),
            forall|j: int| 0 <= j < k ==> (#[trigger] v@[j]@) != l@,
        decreases v@.len() - k,
    {
        if v[k].eq(l) {
            return true;
        }
        k = k + 1;
    }
    false
}

/// The taxon set: every distinct leaf label across the input trees, in
/// first-occurrence order.
pub fn collect_taxa(trees: &Vec<Tree>) -> (r: Vec<String>)
    ensures
        labels_view(r@) == spec_taxa(trees_view(trees@)),
        forall|a: int, b: int| 0 <= a < b < r@.len() ==> (#[trigger] r@[a]@) != (#[trigger] r@[b]@),
        forall|k: int| 0 <= k < r@.len() ==> is_taxon_of(trees@, #[trigger] r@[k]@),
        forall|l: Seq<char>|
            #[trigger] is_taxon_of(trees@, l) ==> exists|k: int| 0 <= k < r@.len() && r@[k]@ == l,
{
    let mut result: Vec<String> = Vec::new();
    proof {
        assert(labels_view(result@) =~= Seq::<Seq<char>>::empty());
    }
    let mut t: usize = 0;
    while t < trees.len()
        invariant
            t <= trees@.len(),
            forall|a: int, b: int|
                0 <= a < b < result@.len() ==> (#[trigger] result@[a]@) != (
                #[trigger] result@[b]@),
            forall|k: int| 0 <= k < result@.len() ==> is_taxon_of(trees@, #[trigger] result@[k]@),
            forall|t2: int, n2: int|
                0 <= t2 < t && 0 <= n2 < trees@[t2]@.nodes.len() && (
                #[trigger] trees@[t2]@.nodes[n2]).children.len() == 0 && trees@[t2]@.nodes[n2].label
                    is Some ==> exists|k: int|
                    0 <= k < result@.len() && result@[k]@ == trees@[t2]@.nodes[n2].label.unwrap(),
            labels_view(result@) == taxa_fold(trees_view(trees@), t as int),
        decreases trees@.len() - t,
    {
        let tree = &trees[t];
        let mut n: usize = 0;
        while n < tree.nodes.len()
            invariant
                t < trees@.len(),
                tree == trees@[t as int],
                n <= tree.nodes@.len(),
                tree@.nodes.len() == tree.nodes@.len(),
                forall|a: int, b: int|
                    0 <= a < b < result@.len() ==> (#[trigger] result@[a]@) != (
                    #[trigger] result@[b]@),
                forall|k: int|
                    0 <= k < result@.len() ==> is_taxon_of(trees@, #[trigger] result@[k]@),
                forall|t2: int, n2: int|
                    0 <= t2 < t && 0 <= n2 < trees@[t2]@.nodes.len() && (
                    #[trigger] trees@[t2]@.nodes[n2]).children.len() == 0
                        && trees@[t2]@.nodes[n2].label is Some ==> exists|k: int|
                        0 <= k < result@.len() && result@[k]@
                            == trees@[t2]@.nodes[n2].label.unwrap(),
                forall|n2: int|
                    0 <= n2 < n && (#[trigger] tree@.nodes[n2]).children.len() == 0
                        && tree@.nodes[n2].label is Some ==> exists|k: int|
                        0 <= k < result@.len() && result@[k]@ == tree@.nodes[n2].label.unwrap(),
                labels_view(result@) == taxa_fold_tree(
                    tree@,
                    n as int,
                    taxa_fold(trees_view(trees@), t as int),
                ),
            decreases tree.nodes@.len() - n,
        {
            if tree.nodes[n].children.len() == 0 {
                match &tree.nodes[n].label {
                    Some(l) => {
                        proof {
                            assert(tree@.nodes[n as int].label == Some(l@));
                        }
                        let ghost oldres = result@;
                        if !contains_string(&result, l) {
                            let owned = l.as_str().to_owned();
                            result.push(owned);
                            proof {
                                let m = oldres.len() as int;
                                assert(result@[m]@ == l@);
                                assert(tree@.nodes[n as int].children.len() == 0);
                                assert(is_taxon_of(trees@, l@));
                                assert forall|a: int, b: int|
                                    0 <= a < b < result@.len() implies (#[trigger] result@[a]@)
                                    != (#[trigger] result@[b]@) by {
                                    if b == m {
                                        assert(result@[a]@ == oldres[a]@);
                                    } else {
                                        assert(result@[a]@ == oldres[a]@);
                                        assert(result@[b]@ == oldres[b]@);
                                    }
                                }
                                assert forall|t2: int, n2: int|
                                    0 <= t2 < t && 0 <= n2 < trees@[t2]@.nodes.len() && (
                                #[trigger] trees@[t2]@.nodes[n2]).children.len() == 0
                                    && trees@[t2]@.nodes[n2].label is Some implies exists|k: int|
                                    0 <= k < result@.len() && result@[k]@
                                        == trees@[t2]@.nodes[n2].label.unwrap() by {
                                    let k0 = choose|k0: int|
                                        0 <= k0 < m && oldres[k0]@ == trees@[t2]@.nodes[n2].label.unwrap();
                                    assert(result@[k0]@ == trees@[t2]@.nodes[n2].label.unwrap());
                                }
                                assert forall|n2: int|
                                    0 <= n2 < n + 1 && (#[trigger] tree@.nodes[n2]).children.len()
                                        == 0 && tree@.nodes[n2].label is Some implies exists|
                                    k: int,
                                |
                                    0 <= k < result@.len() && result@[k]@ == tree@.nodes[n2].label.unwrap() by {
                                    if n2 == n {
                                        assert(result@[m]@ == tree@.nodes[n2].label.unwrap());
                                    } else {
                                        let k0 = choose|k0: int|
                                            0 <= k0 < m && oldres[k0]@ == tree@.nodes[n2].label.unwrap();
                                        assert(result@[k0]@ == tree@.nodes[n2].label.unwrap());
                                    }
                                }
                                // the canonical fold takes the same step
                                let base = taxa_fold(trees_view(trees@), t as int);
                                let prev = taxa_fold_tree(tree@, n as int, base);
                                assert(!prev.contains(l@)) by {
                                    if prev.contains(l@) {
                                        let k0 = choose|k0: int|
                                            0 <= k0 < prev.len() && prev[k0] == l@;
                                        assert(oldres[k0]@ == l@);
                                    }
                                }
                                assert(labels_view(result@) =~= prev.push(l@));
                                assert(taxa_fold_tree(tree@, n as int + 1, base) == dedup_push(
                                    prev,
                                    l@,
                                ));
                            }
                        } else {
                            proof {
                                assert forall|n2: int|
                                    0 <= n2 < n + 1 && (#[trigger] tree@.nodes[n2]).children.len()
                                        == 0 && tree@.nodes[n2].label is Some implies exists|
                                    k: int,
                                |
                                    0 <= k < result@.len() && result@[k]@ == tree@.nodes[n2].label.unwrap() by {
                                    if n2 == n {
                                        let k0 = choose|k0: int|
                                            0 <= k0 < result@.len() && result@[k0]@ == l@;
                                        assert(result@[k0]@ == tree@.nodes[n2].label.unwrap());
                                    }
                                }
                                // already listed: the fold keeps the accumulator
                                let base = taxa_fold(trees_view(trees@), t as int);
                                let prev = taxa_fold_tree(tree@, n as int, base);
                                assert(prev.contains(l@)) by {
                                    let k0 = choose|k0: int|
                                        0 <= k0 < result@.len() && (#[trigger] result@[k0]@) == l@;
                                    assert(prev[k0] == l@);
                                }
                                assert(taxa_fold_tree(tree@, n as int + 1, base) == prev);
                            }
                        }
                    },
                    None => {},
                }
            }
            n = n + 1;
        }
        proof {
            assert(trees_view(trees@)[t as int] == tree@);
            assert(taxa_fold(trees_view(trees@), t as int + 1) == taxa_fold_tree(
                tree@,
                tree@.nodes.len() as int,
                taxa_fold(trees_view(trees@), t as int),
            ));
        }
        t = t + 1;
    }
    result
}

/// Number of leaves of `t` labelled `l` among the first `n` nodes.
pub open spec fn leaf_label_count(t: TreeV, l: Seq<char>, n: int) -> nat
    decreases n,
{
    if n <= 0 {
        0
    } else {
        leaf_label_count(t, l, n - 1) + if t.nodes[n - 1].children.len() == 0 && t.nodes[n
            - 1].label == Some(l) {
            1nat
        } else {
            0nat
        }
    }
}

/// Total support recorded for one key: the four weights summed.
pub open spec fn weight_sum(e: QuartetEntry) -> int {
    e.w_first + e.w_second + e.w_third + e.w_unresolved
}

/// The label sequences of a taxon list.
pub open spec fn labels_view(taxa: Seq<String>) -> Seq<Seq<char>> {
    Seq::new(taxa.len(), |i: int| taxa[i]@)
}

/// All four taxa of `k` occur in tree `t` (on at least one leaf each):
/// the tree counts for this key, even when a duplicated taxon leaves the
/// quartet unresolved.
pub open spec fn key_present(t: TreeV, lv: Seq<Seq<char>>, k: QuartetKey) -> bool {
    &&& leaf_label_count(t, lv[k.t0 as int], t.nodes.len() as int) >= 1
    &&& leaf_label_count(t, lv[k.t1 as int], t.nodes.len() as int) >= 1
    &&& leaf_label_count(t, lv[k.t2 as int], t.nodes.len() as int) >= 1
    &&& leaf_label_count(t, lv[k.t3 as int], t.nodes.len() as int) >= 1
}

/// A leaf of `t` labelled `l` (the unique one, when the label sits on
/// exactly one leaf).
pub open spec fn leaf_of(t: TreeV, l: Seq<char>) -> int {
    choose|x: int|
        0 <= x < t.nodes.len() && (#[trigger] t.nodes[x]).children.len() == 0 && t.nodes[x].label
            == Some(l)
}

/// A leaf matching the label below `n` forces a positive count.
pub proof fn lemma_count_ge_one(t: TreeV, l: Seq<char>, x: int, n: int)
    requires
        0 <= x < n <= t.nodes.len(),
        t.nodes[x].children.len() == 0,
        t.nodes[x].label == Some(l),
    ensures
        leaf_label_count(t, l, n) >= 1,
    decreases n,
{
    if x < n - 1 {
        lemma_count_ge_one(t, l, x, n - 1);
    }
}

/// Two distinct matching leaves force a count of at least two.
pub proof fn lemma_count_ge_two(t: TreeV, l: Seq<char>, x: int, y: int, n: int)
    requires
        0 <= x < y < n <= t.nodes.len(),
        t.nodes[x].children.len() == 0,
        t.nodes[x].label == Some(l),
        t.nodes[y].children.len() == 0,
        t.nodes[y].label == Some(l),
    ensures
        leaf_label_count(t, l, n) >= 2,
    decreases n,
{
    if y == n - 1 {
        lemma_count_ge_one(t, l, x, n - 1);
    } else {
        lemma_count_ge_two(t, l, x, y, n - 1);
    }
}

/// A positive count has a witness.
pub proof fn lemma_count_witness(t: TreeV, l: Seq<char>, n: int)
    requires
        0 <= n <= t.nodes.len(),
        leaf_label_count(t, l, n) >= 1,
    ensures
        exists|x: int|
            0 <= x < n && (#[trigger] t.nodes[x]).children.len() == 0 && t.nodes[x].label == Some(
                l,
            ),
    decreases n,
{
    if !(t.nodes[n - 1].children.len() == 0 && t.nodes[n - 1].label == Some(l)) {
        lemma_count_witness(t, l, n - 1);
    }
}

/// When a label sits on exactly one leaf, `leaf_of` is that leaf, and any
/// matching leaf is it.
pub proof fn lemma_leaf_of(t: TreeV, l: Seq<char>)
    requires
        leaf_label_count(t, l, t.nodes.len() as int) == 1,
    ensures
        0 <= leaf_of(t, l) < t.nodes.len(),
        t.nodes[leaf_of(t, l)].children.len() == 0,
        t.nodes[leaf_of(t, l)].label == Some(l),
        forall|x: int|
            0 <= x < t.nodes.len() && (#[trigger] t.nodes[x]).children.len() == 0
                && t.nodes[x].label == Some(l) ==> x == leaf_of(t, l),
{
    lemma_count_witness(t, l, t.nodes.len() as int);
    let w = leaf_of(t, l);
    assert forall|x: int|
        0 <= x < t.nodes.len() && (#[trigger] t.nodes[x]).children.len() == 0 && t.nodes[x].label
            == Some(l) implies x == w by {
        if x != w {
            if x < w {
                lemma_count_ge_two(t, l, x, w, t.nodes.len() as int);
            } else {
                lemma_count_ge_two(t, l, w, x, t.nodes.len() as int);
            }
        }
    }
}

/// The topology tree `t` induces on the four taxa of `k`: the
/// classification rule on the six pairwise ancestor depths of the four
/// unique leaves, or `Unresolved` when some taxon is missing or
/// duplicated.
pub open spec fn induced_topology(t: TreeV, lv: Seq<Seq<char>>, k: QuartetKey) -> Topology {
    if leaf_label_count(t, lv[k.t0 as int], t.nodes.len() as int) == 1 && leaf_label_count(
        t,
        lv[k.t1 as int],
        t.nodes.len() as int,
    ) == 1 && leaf_label_count(t, lv[k.t2 as int], t.nodes.len() as int) == 1 && leaf_label_count(
        t,
        lv[k.t3 as int],
        t.nodes.len() as int,
    ) == 1 {
        spec_classify(
            pair_depth(t, leaf_of(t, lv[k.t0 as int]), leaf_of(t, lv[k.t1 as int])),
            pair_depth(t, leaf_of(t, lv[k.t2 as int]), leaf_of(t, lv[k.t3 as int])),
            pair_depth(t, leaf_of(t, lv[k.t0 as int]), leaf_of(t, lv[k.t2 as int])),
            pair_depth(t, leaf_of(t, lv[k.t1 as int]), leaf_of(t, lv[k.t3 as int])),
            pair_depth(t, leaf_of(t, lv[k.t0 as int]), leaf_of(t, lv[k.t3 as int])),
            pair_depth(t, leaf_of(t, lv[k.t1 as int]), leaf_of(t, lv[k.t2 as int])),
        )
    } else {
        Topology::Unresolved
    }
}

/// In how many of the first `n` trees all four taxa of `k` occur and the
/// induced topology is `v`.
pub open spec fn variant_count(
    trees: Seq<Tree>,
    lv: Seq<Seq<char>>,
    k: QuartetKey,
    n: int,
    v: Topology,
) -> nat
    decreases n,
{
    if n <= 0 {
        0
    } else {
        variant_count(trees, lv, k, n - 1, v) + if key_present(trees[n - 1]@, lv, k)
            && induced_topology(trees[n - 1]@, lv, k) == v {
            1nat
        } else {
            0nat
        }
    }
}

pub proof fn lemma_variant_count_bound(
    trees: Seq<Tree>,
    lv: Seq<Seq<char>>,
    k: QuartetKey,
    n: int,
    v: Topology,
)
    requires
        0 <= n,
    ensures
        variant_count(trees, lv, k, n, v) <= n,
    decreases n,
{
    if n > 0 {
        lemma_variant_count_bound(trees, lv, k, n - 1, v);
    }
}

/// Every contributing tree supports exactly one variant, so the four
/// per-variant counts partition the presence count.
pub proof fn lemma_variant_partition(trees: Seq<Tree>, lv: Seq<Seq<char>>, k: QuartetKey, n: int)
    requires
        0 <= n,
    ensures
        present_count(trees, lv, k, n) == variant_count(trees, lv, k, n, Topology::PairFirst)
            + variant_count(trees, lv, k, n, Topology::PairSecond) + variant_count(
            trees,
            lv,
            k,
            n,
            Topology::PairThird,
        ) + variant_count(trees, lv, k, n, Topology::Unresolved),
    decreases n,
{
    if n > 0 {
        lemma_variant_partition(trees, lv, k, n - 1);
    }
}

/// In how many of the first `n` trees all four taxa of `k` co-occur.
pub open spec fn present_count(trees: Seq<Tree>, lv: Seq<Seq<char>>, k: QuartetKey, n: int) -> nat
    decreases n,
{
    if n <= 0 {
        0
    } else {
        present_count(trees, lv, k, n - 1) + if key_present(trees[n - 1]@, lv, k) {
            1nat
        } else {
            0nat
        }
    }
}

pub proof fn lemma_present_count_bound(trees: Seq<Tree>, lv: Seq<Seq<char>>, k: QuartetKey, n: int)
    requires
        0 <= n,
    ensures
        present_count(trees, lv, k, n) <= n,
    decreases n,
{
    if n > 0 {
        lemma_present_count_bound(trees, lv, k, n - 1);
    }
}

/// A key never seen has zero distance sums.
pub proof fn lemma_absent_zero_dist(trees: Seq<Tree>, lv: Seq<Seq<char>>, k: QuartetKey, n: int)
    requires
        0 <= n,
        present_count(trees, lv, k, n) == 0,
    ensures
        dist_sum(trees, lv, k, n, Topology::PairFirst) == 0,
        dist_sum(trees, lv, k, n, Topology::PairSecond) == 0,
        dist_sum(trees, lv, k, n, Topology::PairThird) == 0,
    decreases n,
{
    if n > 0 {
        lemma_absent_zero_dist(trees, lv, k, n - 1);
    }
}

/// The patristic weight one tree contributes for a key: the summed pair
/// distances of its induced pairing (zero when the quartet is unresolved
/// or some taxon is missing or duplicated).
pub open spec fn tree_pair_dist(t: TreeV, lv: Seq<Seq<char>>, k: QuartetKey) -> u64 {
    if leaf_label_count(t, lv[k.t0 as int], t.nodes.len() as int) == 1 && leaf_label_count(
        t,
        lv[k.t1 as int],
        t.nodes.len() as int,
    ) == 1 && leaf_label_count(t, lv[k.t2 as int], t.nodes.len() as int) == 1 && leaf_label_count(
        t,
        lv[k.t3 as int],
        t.nodes.len() as int,
    ) == 1 {
        spec_pair_distance(
            t,
            induced_topology(t, lv, k),
            leaf_of(t, lv[k.t0 as int]),
            leaf_of(t, lv[k.t1 as int]),
            leaf_of(t, lv[k.t2 as int]),
            leaf_of(t, lv[k.t3 as int]),
        )
    } else {
        0u64
    }
}

/// Saturating sum, over the first `n` trees inducing variant `v` for `k`,
/// of the patristic weights of the supporting pairings.
pub open spec fn dist_sum(
    trees: Seq<Tree>,
    lv: Seq<Seq<char>>,
    k: QuartetKey,
    n: int,
    v: Topology,
) -> u64
    decreases n,
{
    if n <= 0 {
        0u64
    } else {
        let prev = dist_sum(trees, lv, k, n - 1, v);
        if key_present(trees[n - 1]@, lv, k) && induced_topology(trees[n - 1]@, lv, k) == v {
            sat_add(prev, tree_pair_dist(trees[n - 1]@, lv, k))
        } else {
            prev
        }
    }
}

/// For each taxon, the unique leaf of this tree carrying that label:
/// `None` when the taxon is absent from the tree or appears on more than
/// one leaf.
pub fn taxon_leaves(tree: &Tree, taxa: &Vec<String>) -> (r: Vec<Option<NodeId>>)
    ensures
        r@.len() == taxa@.len(),
        forall|q: int|
            0 <= q < taxa@.len() ==> match #[trigger] r@[q] {
                Some(l) => leaf_label_count(tree@, taxa@[q]@, tree@.nodes.len() as int) == 1
                    && tree@.valid_id(l as int) && tree@.nodes[l as int].children.len() == 0
                    && tree@.nodes[l as int].label == Some(taxa@[q]@),
                None => leaf_label_count(tree@, taxa@[q]@, tree@.nodes.len() as int) != 1,
            },
{
    let mut result: Vec<Option<NodeId>> = Vec::new();
    let mut q: usize = 0;
    while q < taxa.len()
        invariant
            q <= taxa@.len(),
            result@.len() == q,
            forall|q2: int|
                0 <= q2 < q ==> match #[trigger] result@[q2] {
                    Some(l) => leaf_label_count(tree@, taxa@[q2]@, tree@.nodes.len() as int) == 1
                        && tree@.valid_id(l as int) && tree@.nodes[l as int].children.len() == 0
                        && tree@.nodes[l as int].label == Some(taxa@[q2]@),
                    None => leaf_label_count(tree@, taxa@[q2]@, tree@.nodes.len() as int) != 1,
                },
        decreases taxa@.len() - q,
    {
        let cand: &String = &taxa[q];
        let mut found: Option<NodeId> = None;
        let mut dup = false;
        let mut n: usize = 0;
        while n < tree.nodes.len()
            invariant
                q < taxa@.len(),
                cand@ == taxa@[q as int]@,
                n <= tree.nodes@.len(),
                tree@.nodes.len() == tree.nodes@.len(),
                dup ==> leaf_label_count(tree@, cand@, n as int) >= 2,
                !dup && found is None ==> leaf_label_count(tree@, cand@, n as int) == 0,
                !dup && found is Some ==> leaf_label_count(tree@, cand@, n as int) == 1
                    && tree@.valid_id(found.unwrap() as int)
                    && tree@.nodes[found.unwrap() as int].children.len() == 0
                    && tree@.nodes[found.unwrap() as int].label == Some(cand@),
            decreases tree.nodes@.len() - n,
        {
            if tree.nodes[n].children.len() == 0 {
                match &tree.nodes[n].label {
                    Some(l) => {
                        if l.eq(cand) {
                            proof {
                                assert(tree@.nodes[n as int].label == Some(cand@));
                            }
                            if found.is_some() {
                                dup = true;
                            } else {
                                found = Some(n);
                            }
                        }
                    },
                    None => {},
                }
            }
            n = n + 1;
        }
        if dup {
            result.push(None);
        } else {
            result.push(found);
        }
        q = q + 1;
    }
    result
}

/// For each taxon, whether this tree has at least one leaf carrying that
/// label.
pub fn taxon_occurs(tree: &Tree, taxa: &Vec<String>) -> (r: Vec<bool>)
    ensures
        r@.len() == taxa@.len(),
        forall|q: int|
            0 <= q < taxa@.len() ==> (#[trigger] r@[q] == (leaf_label_count(
                tree@,
                taxa@[q]@,
                tree@.nodes.len() as int,
            ) >= 1)),
{
    let mut result: Vec<bool> = Vec::new();
    let mut q: usize = 0;
    while q < taxa.len()
        invariant
            q <= taxa@.len(),
            result@.len() == q,
            forall|q2: int|
                0 <= q2 < q ==> (#[trigger] result@[q2] == (leaf_label_count(
                    tree@,
                    taxa@[q2]@,
                    tree@.nodes.len() as int,
                ) >= 1)),
        decreases taxa@.len() - q,
    {
        let cand: &String = &taxa[q];
        let mut found = false;
        let mut n: usize = 0;
        while n < tree.nodes.len()
            invariant
                q < taxa@.len(),
                cand@ == taxa@[q as int]@,
                n <= tree.nodes@.len(),
                tree@.nodes.len() == tree.nodes@.len(),
                found == (leaf_label_count(tree@, cand@, n as int) >= 1),
            decreases tree.nodes@.len() - n,
        {
            if tree.nodes[n].children.len() == 0 {
                match &tree.nodes[n].label {
                    Some(l) => {
                        if l.eq(cand) {
                            proof {
                                assert(tree@.nodes[n as int].label == Some(cand@));
                            }
                            found = true;
                        }
                    },
                    None => {},
                }
            }
            n = n + 1;
        }
        result.push(found);
        q = q + 1;
    }
    result
}

/// The processed quartet keys at a given point of the four nested scans:
/// the keys lexicographically below the current counters.
pub open spec fn quartet_cond(k: QuartetKey, q0: int, q1: int, q2: int, q3: int) -> bool {
    k.t0 < q0 || (k.t0 == q0 && (k.t1 < q1 || (k.t1 == q1 && (k.t2 < q2 || (k.t2 == q2 && k.t3
        < q3)))))
}

/// One table entry carries exactly the support seen so far, variant by
/// variant: the count over the earlier trees, plus one on the induced
/// variant when the current tree has already contributed this key.
pub open spec fn entry_counts_ok(
    e: QuartetEntry,
    trees: Seq<Tree>,
    lv: Seq<Seq<char>>,
    tree: TreeV,
    t: int,
    processed: bool,
) -> bool {
    &&& e.w_first == variant_count(trees, lv, e.key, t, Topology::PairFirst) + (if processed
        && induced_topology(tree, lv, e.key) == Topology::PairFirst {
        1int
    } else {
        0int
    })
    &&& e.w_second == variant_count(trees, lv, e.key, t, Topology::PairSecond) + (if processed
        && induced_topology(tree, lv, e.key) == Topology::PairSecond {
        1int
    } else {
        0int
    })
    &&& e.w_third == variant_count(trees, lv, e.key, t, Topology::PairThird) + (if processed
        && induced_topology(tree, lv, e.key) == Topology::PairThird {
        1int
    } else {
        0int
    })
    &&& e.w_unresolved == variant_count(trees, lv, e.key, t, Topology::Unresolved) + (if processed
        && induced_topology(tree, lv, e.key) == Topology::Unresolved {
        1int
    } else {
        0int
    })
    &&& e.d_first == (if processed && induced_topology(tree, lv, e.key) == Topology::PairFirst {
        sat_add(dist_sum(trees, lv, e.key, t, Topology::PairFirst), tree_pair_dist(tree, lv, e.key))
    } else {
        dist_sum(trees, lv, e.key, t, Topology::PairFirst)
    })
    &&& e.d_second == (if processed && induced_topology(tree, lv, e.key) == Topology::PairSecond {
        sat_add(
            dist_sum(trees, lv, e.key, t, Topology::PairSecond),
            tree_pair_dist(tree, lv, e.key),
        )
    } else {
        dist_sum(trees, lv, e.key, t, Topology::PairSecond)
    })
    &&& e.d_third == (if processed && induced_topology(tree, lv, e.key) == Topology::PairThird {
        sat_add(dist_sum(trees, lv, e.key, t, Topology::PairThird), tree_pair_dist(tree, lv, e.key))
    } else {
        dist_sum(trees, lv, e.key, t, Topology::PairThird)
    })
}

/// Every table entry carries exactly the support seen so far.
pub open spec fn table_counts_ok(
    entries: Seq<QuartetEntry>,
    trees: Seq<Tree>,
    lv: Seq<Seq<char>>,
    tree: TreeV,
    t: int,
    q0: int,
    q1: int,
    q2: int,
    q3: int,
) -> bool {
    forall|i: int|
        0 <= i < entries.len() ==> entry_counts_ok(
            #[trigger] entries[i],
            trees,
            lv,
            tree,
            t,
            quartet_cond(entries[i].key, q0, q1, q2, q3) && key_present(tree, lv, entries[i].key),
        )
}

/// Every key that has contributed support is in the table.
pub open spec fn table_complete(
    entries: Seq<QuartetEntry>,
    trees: Seq<Tree>,
    lv: Seq<Seq<char>>,
    tree: TreeV,
    t: int,
    ntaxa: int,
    q0: int,
    q1: int,
    q2: int,
    q3: int,
) -> bool {
    forall|k: QuartetKey|
        k.wf(ntaxa) && (#[trigger] present_count(trees, lv, k, t) > 0 || (quartet_cond(
            k,
            q0,
            q1,
            q2,
            q3,
        ) && key_present(tree, lv, k))) ==> has_key(entries, k)
}

/// The weighted quartet table over all input trees.  For every key of
/// the table: each variant's weight is exactly the number of input trees
/// in which all four taxa occur and the tree induces that variant (a
/// duplicated taxon makes the tree's vote `Unresolved`); the four weights
/// therefore sum to the number of trees in which the four taxa co-occur.
/// Conversely, every well-formed key whose four taxa co-occur in some
/// tree has an entry.
pub fn build_quartet_table(trees: &Vec<Tree>, taxa: &Vec<String>) -> (r: QuartetTable)
    requires
        forall|t: int| 0 <= t < trees@.len() ==> (#[trigger] trees@[t]@).wf(),
    ensures
        r.wf(taxa@.len() as int),
        forall|i: int|
            0 <= i < r@.len() ==> {
                &&& (#[trigger] r@[i]).w_first == variant_count(
                    trees@,
                    labels_view(taxa@),
                    r@[i].key,
                    trees@.len() as int,
                    Topology::PairFirst,
                )
                &&& r@[i].w_second == variant_count(
                    trees@,
                    labels_view(taxa@),
                    r@[i].key,
                    trees@.len() as int,
                    Topology::PairSecond,
                )
                &&& r@[i].w_third == variant_count(
                    trees@,
                    labels_view(taxa@),
                    r@[i].key,
                    trees@.len() as int,
                    Topology::PairThird,
                )
                &&& r@[i].w_unresolved == variant_count(
                    trees@,
                    labels_view(taxa@),
                    r@[i].key,
                    trees@.len() as int,
                    Topology::Unresolved,
                )
                &&& r@[i].d_first == dist_sum(
                    trees@,
                    labels_view(taxa@),
                    r@[i].key,
                    trees@.len() as int,
                    Topology::PairFirst,
                )
                &&& r@[i].d_second == dist_sum(
                    trees@,
                    labels_view(taxa@),
                    r@[i].key,
                    trees@.len() as int,
                    Topology::PairSecond,
                )
                &&& r@[i].d_third == dist_sum(
                    trees@,
                    labels_view(taxa@),
                    r@[i].key,
                    trees@.len() as int,
                    Topology::PairThird,
                )
            },
        forall|i: int|
            0 <= i < r@.len() ==> weight_sum(#[trigger] r@[i]) == present_count(
                trees@,
                labels_view(taxa@),
                r@[i].key,
                trees@.len() as int,
            ),
        forall|k: QuartetKey|
            k.wf(taxa@.len() as int) && #[trigger] present_count(
                trees@,
                labels_view(taxa@),
                k,
                trees@.len() as int,
            ) > 0 ==> has_key(r@, k),
{
    let ghost lv = labels_view(taxa@);
    let mut table = QuartetTable::new();
    let ntaxa = taxa.len();
    let n_trees = trees.len();
    let mut t: usize = 0;
    while t < n_trees
        invariant
            ntaxa == taxa@.len(),
            lv == labels_view(taxa@),
            n_trees == trees@.len(),
            t <= n_trees,
            forall|t2: int| 0 <= t2 < trees@.len() ==> (#[trigger] trees@[t2]@).wf(),
            table.wf(ntaxa as int),
            forall|i: int|
                0 <= i < table@.len() ==> {
                    &&& (#[trigger] table@[i]).w_first == variant_count(
                        trees@,
                        lv,
                        table@[i].key,
                        t as int,
                        Topology::PairFirst,
                    )
                    &&& table@[i].w_second == variant_count(
                        trees@,
                        lv,
                        table@[i].key,
                        t as int,
                        Topology::PairSecond,
                    )
                    &&& table@[i].w_third == variant_count(
                        trees@,
                        lv,
                        table@[i].key,
                        t as int,
                        Topology::PairThird,
                    )
                    &&& table@[i].w_unresolved == variant_count(
                        trees@,
                        lv,
                        table@[i].key,
                        t as int,
                        Topology::Unresolved,
                    )
                    &&& table@[i].d_first == dist_sum(
                        trees@,
                        lv,
                        table@[i].key,
                        t as int,
                        Topology::PairFirst,
                    )
                    &&& table@[i].d_second == dist_sum(
                        trees@,
                        lv,
                        table@[i].key,
                        t as int,
                        Topology::PairSecond,
                    )
                    &&& table@[i].d_third == dist_sum(
                        trees@,
                        lv,
                        table@[i].key,
                        t as int,
                        Topology::PairThird,
                    )
                },
            forall|k: QuartetKey|
                k.wf(ntaxa as int) && #[trigger] present_count(trees@, lv, k, t as int) > 0
                    ==> has_key(table@, k),
        decreases n_trees - t,
    {
        let tree = &trees[t];
        let map = taxon_leaves(tree, taxa);
        let occ = taxon_occurs(tree, taxa);
        proof {
            assert forall|q: int|
                0 <= q < ntaxa implies ((#[trigger] map@[q]) is Some <==> leaf_label_count(
                tree@,
                lv[q],
                tree@.nodes.len() as int,
            ) == 1) by {
                assert(lv[q] == taxa@[q]@);
            }
            assert forall|q: int|
                0 <= q < ntaxa && (#[trigger] map@[q]) is Some implies tree@.valid_id(
                map@[q].unwrap() as int,
            ) && tree@.nodes[map@[q].unwrap() as int].children.len() == 0
                && tree@.nodes[map@[q].unwrap() as int].label == Some(lv[q]) by {
                assert(lv[q] == taxa@[q]@);
            }
            assert forall|q: int|
                0 <= q < ntaxa implies ((#[trigger] occ@[q]) == (leaf_label_count(
                tree@,
                lv[q],
                tree@.nodes.len() as int,
            ) >= 1)) by {
                assert(lv[q] == taxa@[q]@);
            }
            // nothing is processed yet for this tree
            assert(table_counts_ok(table@, trees@, lv, tree@, t as int, 0, 1, 2, 3)) by {
                assert forall|i: int|
                    0 <= i < table@.len() implies !quartet_cond(
                    (#[trigger] table@[i]).key,
                    0,
                    1,
                    2,
                    3,
                ) by {
                    assert(table@[i].key.wf(ntaxa as int));
                }
            }
            assert(table_complete(table@, trees@, lv, tree@, t as int, ntaxa as int, 0, 1, 2, 3))
                by {
                assert forall|k: QuartetKey| k.wf(ntaxa as int) implies !quartet_cond(
                    k,
                    0,
                    1,
                    2,
                    3,
                ) by {}
            }
        }
        let mut q0: usize = 0;
        while q0 < ntaxa
            invariant
                ntaxa == taxa@.len(),
                lv == labels_view(taxa@),
                n_trees == trees@.len(),
                t < n_trees,
                tree == trees@[t as int],
                tree@.wf(),
                map@.len() == ntaxa,
                occ@.len() == ntaxa,
                forall|q: int|
                    0 <= q < ntaxa ==> ((#[trigger] map@[q]) is Some ==> tree@.valid_id(
                        map@[q].unwrap() as int,
                    ) && tree@.nodes[map@[q].unwrap() as int].children.len() == 0
                        && tree@.nodes[map@[q].unwrap() as int].label == Some(lv[q])),
                forall|q: int|
                    0 <= q < ntaxa ==> ((#[trigger] map@[q]) is Some <==> leaf_label_count(
                        tree@,
                        lv[q],
                        tree@.nodes.len() as int,
                    ) == 1),
                forall|q: int|
                    0 <= q < ntaxa ==> ((#[trigger] occ@[q]) == (leaf_label_count(
                        tree@,
                        lv[q],
                        tree@.nodes.len() as int,
                    ) >= 1)),
                q0 <= ntaxa,
                table.wf(ntaxa as int),
                table_counts_ok(
                    table@,
                    trees@,
                    lv,
                    tree@,
                    t as int,
                    q0 as int,
                    q0 as int + 1,
                    q0 as int + 2,
                    q0 as int + 3,
                ),
                table_complete(
                    table@,
                    trees@,
                    lv,
                    tree@,
                    t as int,
                    ntaxa as int,
                    q0 as int,
                    q0 as int + 1,
                    q0 as int + 2,
                    q0 as int + 3,
                ),
            decreases ntaxa - q0,
        {
            let mut q1: usize = q0 + 1;
            while q1 < ntaxa
                invariant
                    ntaxa == taxa@.len(),
                    lv == labels_view(taxa@),
                    n_trees == trees@.len(),
                    t < n_trees,
                    tree == trees@[t as int],
                    tree@.wf(),
                    map@.len() == ntaxa,
                    occ@.len() == ntaxa,
                    forall|q: int|
                        0 <= q < ntaxa ==> ((#[trigger] map@[q]) is Some ==> tree@.valid_id(
                            map@[q].unwrap() as int,
                        ) && tree@.nodes[map@[q].unwrap() as int].children.len() == 0
                            && tree@.nodes[map@[q].unwrap() as int].label == Some(lv[q])),
                    forall|q: int|
                        0 <= q < ntaxa ==> ((#[trigger] map@[q]) is Some <==> leaf_label_count(
                            tree@,
                            lv[q],
                            tree@.nodes.len() as int,
                        ) == 1),
                    forall|q: int|
                        0 <= q < ntaxa ==> ((#[trigger] occ@[q]) == (leaf_label_count(
                            tree@,
                            lv[q],
                            tree@.nodes.len() as int,
                        ) >= 1)),
                    q0 < q1 <= ntaxa,
                    table.wf(ntaxa as int),
                    table_counts_ok(
                        table@,
                        trees@,
                        lv,
                        tree@,
                        t as int,
                        q0 as int,
                        q1 as int,
                        q1 as int + 1,
                        q1 as int + 2,
                    ),
                    table_complete(
                        table@,
                        trees@,
                        lv,
                        tree@,
                        t as int,
                        ntaxa as int,
                        q0 as int,
                        q1 as int,
                        q1 as int + 1,
                        q1 as int + 2,
                    ),
                decreases ntaxa - q1,
            {
                let mut q2: usize = q1 + 1;
                while q2 < ntaxa
                    invariant
                        ntaxa == taxa@.len(),
                        lv == labels_view(taxa@),
                        n_trees == trees@.len(),
                        t < n_trees,
                        tree == trees@[t as int],
                        tree@.wf(),
                        map@.len() == ntaxa,
                        occ@.len() == ntaxa,
                        forall|q: int|
                            0 <= q < ntaxa ==> ((#[trigger] map@[q]) is Some ==> tree@.valid_id(
                                map@[q].unwrap() as int,
                            ) && tree@.nodes[map@[q].unwrap() as int].children.len() == 0
                                && tree@.nodes[map@[q].unwrap() as int].label == Some(lv[q])),
                        forall|q: int|
                            0 <= q < ntaxa ==> ((#[trigger] map@[q]) is Some <==> leaf_label_count(
                                tree@,
                                lv[q],
                                tree@.nodes.len() as int,
                            ) == 1),
                        forall|q: int|
                            0 <= q < ntaxa ==> ((#[trigger] occ@[q]) == (leaf_label_count(
                                tree@,
                                lv[q],
                                tree@.nodes.len() as int,
                            ) >= 1)),
                        q0 < q1 < q2 <= ntaxa,
                        table.wf(ntaxa as int),
                        table_counts_ok(
                            table@,
                            trees@,
                            lv,
                            tree@,
                            t as int,
                            q0 as int,
                            q1 as int,
                            q2 as int,
                            q2 as int + 1,
                        ),
                        table_complete(
                            table@,
                            trees@,
                            lv,
                            tree@,
                            t as int,
                            ntaxa as int,
                            q0 as int,
                            q1 as int,
                            q2 as int,
                            q2 as int + 1,
                        ),
                    decreases ntaxa - q2,
                {
                    let mut q3: usize = q2 + 1;
                    while q3 < ntaxa
                        invariant
                            ntaxa == taxa@.len(),
                            lv == labels_view(taxa@),
                            n_trees == trees@.len(),
                            t < n_trees,
                            tree == trees@[t as int],
                            tree@.wf(),
                            map@.len() == ntaxa,
                            occ@.len() == ntaxa,
                            forall|q: int|
                                0 <= q < ntaxa ==> ((#[trigger] map@[q]) is Some
                                    ==> tree@.valid_id(map@[q].unwrap() as int) && tree@.nodes[
                                    map@[q].unwrap() as int].children.len() == 0 && tree@.nodes[
                                    map@[q].unwrap() as int].label == Some(lv[q])),
                            forall|q: int|
                                0 <= q < ntaxa ==> ((#[trigger] map@[q]) is Some
                                    <==> leaf_label_count(tree@, lv[q], tree@.nodes.len() as int)
                                    == 1),
                            forall|q: int|
                                0 <= q < ntaxa ==> ((#[trigger] occ@[q]) == (leaf_label_count(
                                    tree@,
                                    lv[q],
                                    tree@.nodes.len() as int,
                                ) >= 1)),
                            q0 < q1 < q2 < q3 <= ntaxa,
                            table.wf(ntaxa as int),
                            table_counts_ok(
                                table@,
                                trees@,
                                lv,
                                tree@,
                                t as int,
                                q0 as int,
                                q1 as int,
                                q2 as int,
                                q3 as int,
                            ),
                            table_complete(
                                table@,
                                trees@,
                                lv,
                                tree@,
                                t as int,
                                ntaxa as int,
                                q0 as int,
                                q1 as int,
                                q2 as int,
                                q3 as int,
                            ),
                        decreases ntaxa - q3,
                    {
                        let key = QuartetKey { t0: q0, t1: q1, t2: q2, t3: q3 };
                        let ghost pre_table = table@;
                        if occ[q0] && occ[q1] && occ[q2] && occ[q3] {
                            proof {
                                assert(key_present(tree@, lv, key));
                            }
                            let (topo, dist) = match (map[q0], map[q1], map[q2], map[q3]) {
                                (Some(l0), Some(l1), Some(l2), Some(l3)) => {
                                    proof {
                                        lemma_leaf_of(tree@, lv[q0 as int]);
                                        lemma_leaf_of(tree@, lv[q1 as int]);
                                        lemma_leaf_of(tree@, lv[q2 as int]);
                                        lemma_leaf_of(tree@, lv[q3 as int]);
                                        assert(leaf_of(tree@, lv[q0 as int]) == l0 as int);
                                        assert(leaf_of(tree@, lv[q1 as int]) == l1 as int);
                                        assert(leaf_of(tree@, lv[q2 as int]) == l2 as int);
                                        assert(leaf_of(tree@, lv[q3 as int]) == l3 as int);
                                    }
                                    let topo = tree.classify_quartet(l0, l1, l2, l3);
                                    proof {
                                        assert(topo == induced_topology(tree@, lv, key));
                                    }
                                    let dist = pair_distance(tree, topo, l0, l1, l2, l3);
                                    proof {
                                        assert(dist == tree_pair_dist(tree@, lv, key));
                                    }
                                    (topo, dist)
                                },
                                _ => {
                                    proof {
                                        assert(induced_topology(tree@, lv, key)
                                            == Topology::Unresolved) by {
                                            if map@[q0 as int] is None {
                                            } else if map@[q1 as int] is None {
                                            } else if map@[q2 as int] is None {
                                            } else {
                                                assert(map@[q3 as int] is None);
                                            }
                                        }
                                    }
                                    proof {
                                        assert(tree_pair_dist(tree@, lv, key) == 0u64);
                                    }
                                    (Topology::Unresolved, 0u64)
                                },
                            };
                            table.add(key, topo, dist);
                            proof {
                                lemma_table_step(
                                    pre_table,
                                    table@,
                                    key,
                                    topo,
                                    dist,
                                    trees@,
                                    lv,
                                    tree@,
                                    t as int,
                                    ntaxa as int,
                                    q0 as int,
                                    q1 as int,
                                    q2 as int,
                                    q3 as int,
                                );
                            }
                        } else {
                            proof {
                                assert(!key_present(tree@, lv, key)) by {
                                    if !occ@[q0 as int] {
                                    } else if !occ@[q1 as int] {
                                    } else if !occ@[q2 as int] {
                                    } else {
                                        assert(!occ@[q3 as int]);
                                    }
                                }
                                lemma_unchanged_bridge(
                                    table@,
                                    trees@,
                                    lv,
                                    tree@,
                                    t as int,
                                    ntaxa as int,
                                    q0 as int,
                                    q1 as int,
                                    q2 as int,
                                    q3 as int,
                                    key,
                                );
                            }
                        }
                        q3 = q3 + 1;
                    }
                    proof {
                        lemma_scan_bridge(
                            table@,
                            trees@,
                            lv,
                            tree@,
                            t as int,
                            ntaxa as int,
                            q0 as int,
                            q1 as int,
                            q2 as int,
                            q3 as int,
                            q0 as int,
                            q1 as int,
                            q2 as int + 1,
                            q2 as int + 2,
                        );
                    }
                    q2 = q2 + 1;
                }
                proof {
                    lemma_scan_bridge(
                        table@,
                        trees@,
                        lv,
                        tree@,
                        t as int,
                        ntaxa as int,
                        q0 as int,
                        q1 as int,
                        q2 as int,
                        q2 as int + 1,
                        q0 as int,
                        q1 as int + 1,
                        q1 as int + 2,
                        q1 as int + 3,
                    );
                }
                q1 = q1 + 1;
            }
            proof {
                lemma_scan_bridge(
                    table@,
                    trees@,
                    lv,
                    tree@,
                    t as int,
                    ntaxa as int,
                    q0 as int,
                    q1 as int,
                    q1 as int + 1,
                    q1 as int + 2,
                    q0 as int + 1,
                    q0 as int + 2,
                    q0 as int + 3,
                    q0 as int + 4,
                );
            }
            q0 = q0 + 1;
        }
        proof {
            assert forall|i: int|
                0 <= i < table@.len() implies {
                &&& (#[trigger] table@[i]).w_first == variant_count(
                    trees@,
                    lv,
                    table@[i].key,
                    t as int + 1,
                    Topology::PairFirst,
                )
                &&& table@[i].w_second == variant_count(
                    trees@,
                    lv,
                    table@[i].key,
                    t as int + 1,
                    Topology::PairSecond,
                )
                &&& table@[i].w_third == variant_count(
                    trees@,
                    lv,
                    table@[i].key,
                    t as int + 1,
                    Topology::PairThird,
                )
                &&& table@[i].w_unresolved == variant_count(
                    trees@,
                    lv,
                    table@[i].key,
                    t as int + 1,
                    Topology::Unresolved,
                )
                &&& table@[i].d_first == dist_sum(
                    trees@,
                    lv,
                    table@[i].key,
                    t as int + 1,
                    Topology::PairFirst,
                )
                &&& table@[i].d_second == dist_sum(
                    trees@,
                    lv,
                    table@[i].key,
                    t as int + 1,
                    Topology::PairSecond,
                )
                &&& table@[i].d_third == dist_sum(
                    trees@,
                    lv,
                    table@[i].key,
                    t as int + 1,
                    Topology::PairThird,
                )
            } by {
                assert(table@[i].key.wf(ntaxa as int));
                assert(quartet_cond(table@[i].key, ntaxa as int, ntaxa as int + 1, ntaxa as int
                    + 2, ntaxa as int + 3));
                assert(entry_counts_ok(
                    table@[i],
                    trees@,
                    lv,
                    tree@,
                    t as int,
                    key_present(tree@, lv, table@[i].key),
                ));
                assert(trees@[t as int]@ == tree@);
            }
            assert forall|k: QuartetKey|
                k.wf(ntaxa as int) && #[trigger] present_count(trees@, lv, k, t as int + 1)
                    > 0 implies has_key(table@, k) by {
                if present_count(trees@, lv, k, t as int) == 0 {
                    assert(key_present(trees@[t as int]@, lv, k));
                    assert(quartet_cond(k, ntaxa as int, ntaxa as int + 1, ntaxa as int + 2,
                        ntaxa as int + 3));
                }
            }
        }
        t = t + 1;
    }
    proof {
        assert forall|i: int|
            0 <= i < table@.len() implies weight_sum(#[trigger] table@[i]) == present_count(
            trees@,
            lv,
            table@[i].key,
            n_trees as int,
        ) by {
            lemma_variant_partition(trees@, lv, table@[i].key, n_trees as int);
        }
    }
    table
}

/// When the key at the scan position contributes nothing, the invariants
/// carry over to the next position unchanged.
proof fn lemma_unchanged_bridge(
    entries: Seq<QuartetEntry>,
    trees: Seq<Tree>,
    lv: Seq<Seq<char>>,
    tree: TreeV,
    t: int,
    ntaxa: int,
    q0: int,
    q1: int,
    q2: int,
    q3: int,
    key: QuartetKey,
)
    requires
        key == (QuartetKey { t0: q0 as usize, t1: q1 as usize, t2: q2 as usize, t3: q3 as usize }),
        0 <= q0 < q1 < q2 < q3 < ntaxa,
        ntaxa <= usize::MAX,
        !key_present(tree, lv, key),
        forall|i: int| 0 <= i < entries.len() ==> (#[trigger] entries[i].key).wf(ntaxa),
        table_counts_ok(entries, trees, lv, tree, t, q0, q1, q2, q3),
        table_complete(entries, trees, lv, tree, t, ntaxa, q0, q1, q2, q3),
    ensures
        table_counts_ok(entries, trees, lv, tree, t, q0, q1, q2, q3 + 1),
        table_complete(entries, trees, lv, tree, t, ntaxa, q0, q1, q2, q3 + 1),
{
    assert forall|i: int|
        0 <= i < entries.len() implies entry_counts_ok(
        #[trigger] entries[i],
        trees,
        lv,
        tree,
        t,
        quartet_cond(entries[i].key, q0, q1, q2, q3 + 1) && key_present(tree, lv, entries[i].key),
    ) by {
        assert(entries[i].key.wf(ntaxa));
        assert(entry_counts_ok(
            entries[i],
            trees,
            lv,
            tree,
            t,
            quartet_cond(entries[i].key, q0, q1, q2, q3) && key_present(tree, lv, entries[i].key),
        ));
        if entries[i].key == key {
        }
    }
    assert forall|k: QuartetKey|
        k.wf(ntaxa) && (#[trigger] present_count(trees, lv, k, t) > 0 || (quartet_cond(
            k,
            q0,
            q1,
            q2,
            q3 + 1,
        ) && key_present(tree, lv, k))) implies has_key(entries, k) by {
        if present_count(trees, lv, k, t) == 0 {
            assert(quartet_cond(k, q0, q1, q2, q3 + 1) && key_present(tree, lv, k));
            assert(quartet_cond(k, q0, q1, q2, q3) && key_present(tree, lv, k));
        }
    }
}

/// An exhausted inner scan reads the same as the stepped outer scan.
proof fn lemma_scan_bridge(
    entries: Seq<QuartetEntry>,
    trees: Seq<Tree>,
    lv: Seq<Seq<char>>,
    tree: TreeV,
    t: int,
    ntaxa: int,
    a0: int,
    a1: int,
    a2: int,
    a3: int,
    b0: int,
    b1: int,
    b2: int,
    b3: int,
)
    requires
        forall|k: QuartetKey|
            k.wf(ntaxa) ==> (quartet_cond(k, a0, a1, a2, a3) <==> #[trigger] quartet_cond(
                k,
                b0,
                b1,
                b2,
                b3,
            )),
        forall|i: int| 0 <= i < entries.len() ==> (#[trigger] entries[i].key).wf(ntaxa),
        table_counts_ok(entries, trees, lv, tree, t, a0, a1, a2, a3),
        table_complete(entries, trees, lv, tree, t, ntaxa, a0, a1, a2, a3),
    ensures
        table_counts_ok(entries, trees, lv, tree, t, b0, b1, b2, b3),
        table_complete(entries, trees, lv, tree, t, ntaxa, b0, b1, b2, b3),
{
    assert forall|i: int|
        0 <= i < entries.len() implies entry_counts_ok(
        #[trigger] entries[i],
        trees,
        lv,
        tree,
        t,
        quartet_cond(entries[i].key, b0, b1, b2, b3) && key_present(tree, lv, entries[i].key),
    ) by {
        assert(entries[i].key.wf(ntaxa));
        assert(entry_counts_ok(
            entries[i],
            trees,
            lv,
            tree,
            t,
            quartet_cond(entries[i].key, a0, a1, a2, a3) && key_present(tree, lv, entries[i].key),
        ));
        assert(quartet_cond(entries[i].key, a0, a1, a2, a3) <==> quartet_cond(
            entries[i].key,
            b0,
            b1,
            b2,
            b3,
        ));
    }
    assert forall|k: QuartetKey|
        k.wf(ntaxa) && (#[trigger] present_count(trees, lv, k, t) > 0 || (quartet_cond(
            k,
            b0,
            b1,
            b2,
            b3,
        ) && key_present(tree, lv, k))) implies has_key(entries, k) by {
        assert(quartet_cond(k, a0, a1, a2, a3) <==> quartet_cond(k, b0, b1, b2, b3));
    }
}

/// One observation folded into the table: the observed key's weight for
/// the induced variant rises by one exactly as its processed-flag flips,
/// and every other entry is untouched.
#[verifier::rlimit(80)]
proof fn lemma_table_step(
    pre: Seq<QuartetEntry>,
    post: Seq<QuartetEntry>,
    key: QuartetKey,
    topo: Topology,
    dist: u64,
    trees: Seq<Tree>,
    lv: Seq<Seq<char>>,
    tree: TreeV,
    t: int,
    ntaxa: int,
    q0: int,
    q1: int,
    q2: int,
    q3: int,
)
    requires
        0 <= t < trees.len(),
        trees.len() <= usize::MAX,
        trees[t]@ == tree,
        key == (QuartetKey { t0: q0 as usize, t1: q1 as usize, t2: q2 as usize, t3: q3 as usize }),
        0 <= q0 < q1 < q2 < q3 < ntaxa,
        ntaxa <= usize::MAX,
        ntaxa == lv.len(),
        key_present(tree, lv, key),
        topo == induced_topology(tree, lv, key),
        dist == tree_pair_dist(tree, lv, key),
        // the shape of `QuartetTable::add`
        post.len() == if has_key(pre, key) {
            pre.len() as int
        } else {
            pre.len() as int + 1
        },
        forall|i: int|
            0 <= i < pre.len() && (#[trigger] pre[i].key) != key ==> post[i] == pre[i],
        forall|i: int|
            0 <= i < pre.len() && (#[trigger] pre[i].key) == key && (forall|j: int|
                0 <= j < i ==> (#[trigger] pre[j].key) != key) ==> post[i] == spec_bump(
                pre[i],
                topo,
                dist,
            ),
        !has_key(pre, key) ==> post.last() == spec_bump(spec_fresh_entry(key), topo, dist),
        !has_key(pre, key) ==> forall|i: int| 0 <= i < pre.len() ==> #[trigger] post[i] == pre[i],
        // the invariant before the observation
        forall|i: int, j: int|
            0 <= i < j < pre.len() ==> (#[trigger] pre[i].key) != (#[trigger] pre[j].key),
        forall|i: int| 0 <= i < pre.len() ==> (#[trigger] pre[i].key).wf(ntaxa),
        table_counts_ok(pre, trees, lv, tree, t, q0, q1, q2, q3),
        table_complete(pre, trees, lv, tree, t, ntaxa, q0, q1, q2, q3),
    ensures
        table_counts_ok(post, trees, lv, tree, t, q0, q1, q2, q3 + 1),
        table_complete(post, trees, lv, tree, t, ntaxa, q0, q1, q2, q3 + 1),
{
    lemma_variant_count_bound(trees, lv, key, t, Topology::PairFirst);
    lemma_variant_count_bound(trees, lv, key, t, Topology::PairSecond);
    lemma_variant_count_bound(trees, lv, key, t, Topology::PairThird);
    lemma_variant_count_bound(trees, lv, key, t, Topology::Unresolved);
    assert(!quartet_cond(key, q0, q1, q2, q3));
    assert(quartet_cond(key, q0, q1, q2, q3 + 1));
    let i0: int = if has_key(pre, key) {
        choose|i0: int| 0 <= i0 < pre.len() && (#[trigger] pre[i0]).key == key
    } else {
        pre.len() as int
    };
    if has_key(pre, key) {
        assert forall|j: int| 0 <= j < i0 implies (#[trigger] pre[j].key) != key by {}
        assert(post[i0] == spec_bump(pre[i0], topo, dist));
        assert(entry_counts_ok(pre[i0], trees, lv, tree, t, false));
        assert(t < trees.len() <= usize::MAX <= u64::MAX);
    } else {
        assert(post[i0] == spec_bump(spec_fresh_entry(key), topo, dist));
        assert(present_count(trees, lv, key, t) == 0) by {
            if present_count(trees, lv, key, t) > 0 {
                assert(has_key(pre, key));
            }
        }
        lemma_variant_partition(trees, lv, key, t);
        lemma_absent_zero_dist(trees, lv, key, t);
    }
    assert(post[i0].key == key);
    assert(entry_counts_ok(post[i0], trees, lv, tree, t, true));
    assert(table_counts_ok(post, trees, lv, tree, t, q0, q1, q2, q3 + 1)) by {
        assert forall|i: int|
            0 <= i < post.len() implies entry_counts_ok(
            #[trigger] post[i],
            trees,
            lv,
            tree,
            t,
            quartet_cond(post[i].key, q0, q1, q2, q3 + 1) && key_present(tree, lv, post[i].key),
        ) by {
            if i == i0 {
            } else {
                if i < pre.len() {
                    assert(pre[i].key != key);
                    assert(post[i] == pre[i]);
                    assert(pre[i].key.wf(ntaxa));
                    assert(quartet_cond(pre[i].key, q0, q1, q2, q3 + 1) <==> quartet_cond(
                        pre[i].key,
                        q0,
                        q1,
                        q2,
                        q3,
                    ));
                    assert(entry_counts_ok(
                        pre[i],
                        trees,
                        lv,
                        tree,
                        t,
                        quartet_cond(pre[i].key, q0, q1, q2, q3) && key_present(
                            tree,
                            lv,
                            pre[i].key,
                        ),
                    ));
                }
            }
        }
    }
    assert(table_complete(post, trees, lv, tree, t, ntaxa, q0, q1, q2, q3 + 1)) by {
        assert forall|k: QuartetKey|
            k.wf(ntaxa) && (#[trigger] present_count(trees, lv, k, t) > 0 || (quartet_cond(
                k,
                q0,
                q1,
                q2,
                q3 + 1,
            ) && key_present(tree, lv, k))) implies has_key(post, k) by {
            if k == key {
                assert(post[i0].key == key);
                assert(has_key(post, k));
            } else {
                if present_count(trees, lv, k, t) > 0 {
                    assert(has_key(pre, k));
                } else {
                    assert(quartet_cond(k, q0, q1, q2, q3 + 1) && key_present(tree, lv, k));
                    assert(k.t0 != key.t0 || k.t1 != key.t1 || k.t2 != key.t2 || k.t3 != key.t3);
                    assert(quartet_cond(k, q0, q1, q2, q3));
                    assert(has_key(pre, k));
                }
                let i1 = choose|i1: int| 0 <= i1 < pre.len() && (#[trigger] pre[i1]).key == k;
                if pre[i1].key == key {
                    assert(false);
                }
                assert(post[i1] == pre[i1]);
                assert(has_key(post, k));
            }
        }
    }
}

/// A patristic distance clipped into 64 bits.
pub open spec fn sat_patristic(t: TreeV, a: int, b: int) -> u64 {
    if t.spec_patristic_distance(a, b) > u64::MAX {
        u64::MAX
    } else if t.spec_patristic_distance(a, b) < 0 {
        0u64
    } else {
        t.spec_patristic_distance(a, b) as u64
    }
}

/// The summed patristic distance of the two pairs of a pairing (zero for
/// an unresolved quartet), saturating.
pub open spec fn spec_pair_distance(
    t: TreeV,
    topo: Topology,
    l0: int,
    l1: int,
    l2: int,
    l3: int,
) -> u64 {
    match topo {
        Topology::PairFirst => sat_add(sat_patristic(t, l0, l1), sat_patristic(t, l2, l3)),
        Topology::PairSecond => sat_add(sat_patristic(t, l0, l2), sat_patristic(t, l1, l3)),
        Topology::PairThird => sat_add(sat_patristic(t, l0, l3), sat_patristic(t, l1, l2)),
        Topology::Unresolved => 0u64,
    }
}

/// The summed patristic distance of the two pairs of the winning pairing
/// (zero for an unresolved quartet); a sum that cannot be represented
/// saturates.
fn pair_distance(tree: &Tree, topo: Topology, l0: NodeId, l1: NodeId, l2: NodeId, l3: NodeId) -> (r:
    u64)
    requires
        tree@.wf(),
        tree@.valid_id(l0 as int),
        tree@.valid_id(l1 as int),
        tree@.valid_id(l2 as int),
        tree@.valid_id(l3 as int),
    ensures
        r == spec_pair_distance(tree@, topo, l0 as int, l1 as int, l2 as int, l3 as int),
{
    let (a, b, c, d) = match topo {
        Topology::PairFirst => (l0, l1, l2, l3),
        Topology::PairSecond => (l0, l2, l1, l3),
        Topology::PairThird => (l0, l3, l1, l2),
        Topology::Unresolved => {
            return 0;
        },
    };
    let p1 = match tree.patristic_distance(a, b) {
        Some(v) => v,
        None => u64::MAX,
    };
    let p2 = match tree.patristic_distance(c, d) {
        Some(v) => v,
        None => u64::MAX,
    };
    sat_add_exec(p1, p2)
}

} // verus!
