//! The inference pipeline: parse all trees, extract quartets, resolve
//! them into a network, root it, and export it.
//!
//! The input may hold one or more semicolon-terminated Newick trees,
//! concatenated, with whitespace in between.  The first malformed tree
//! aborts the whole call with its parse error; no partial result is
//! produced.

use vstd::prelude::*;

use crate::export::export_network;
use crate::export::spec_export;
use crate::network::Network;
use crate::network::NetworkV;
use crate::network::resolve_network;
use crate::network::tree_net_v;
use crate::network::tree_to_network;
use crate::parser::PStateV;
use crate::parser::ParseError;
use crate::parser::is_ws;
use crate::parser::parse_nwk_at;
use crate::parser::spec_run;
use crate::quartet::build_quartet_table;
use crate::quartet::collect_taxa;
use crate::quartet::labels_view;
use crate::quartet::spec_taxa;
use crate::quartet::trees_view;
use crate::rooting::root_network;
use crate::structure::Tree;
use crate::structure::TreeV;

verus! {

/// Why the pipeline failed.
#[derive(Debug, PartialEq, Eq, Structural)]
pub enum InferError {
    /// A tree in the input is malformed.
    Parse(ParseError),
    /// The taxon set is too large for the network arena to fit in the
    /// address space.
    CapacityExceeded,
}

fn is_ws_char(c: char) -> (r: bool)
    ensures
        r == is_ws(c),
{
    c == ' ' || c == '\t' || c == '\n' || c == '\r'
}

/// Nothing but whitespace from `i` on.
pub open spec fn ws_only(s: Seq<char>, i: int) -> bool {
    forall|j: int| i <= j < s.len() ==> is_ws(#[trigger] s[j])
}

/// The trees denoted by the whole input: one parse after another until
/// only whitespace is left, failing on the first malformed tree.
pub open spec fn spec_forest(s: Seq<char>, i: int) -> Result<Seq<TreeV>, ParseError>
    decreases s.len() - i,
{
    if !(0 <= i < s.len()) || ws_only(s, i) {
        Ok(Seq::empty())
    } else {
        match spec_run(s, i, PStateV::init()) {
            Ok((t, j)) => {
                let j2 = if i < j <= s.len() {
                    j
                } else {
                    i + 1
                };
                match spec_forest(s, j2) {
                    Ok(ts) => Ok(seq![t] + ts),
                    Err(e) => Err(e),
                }
            },
            Err(e) => Err(e),
        }
    }
}

/// A parsed forest prefix glued onto the meaning of the rest.
pub open spec fn forest_concat(pre: Seq<TreeV>, r: Result<Seq<TreeV>, ParseError>) -> Result<
    Seq<TreeV>,
    ParseError,
> {
    match r {
        Ok(ts) => Ok(pre + ts),
        Err(e) => Err(e),
    }
}

/// Parses every tree in the input; exactly what [`spec_forest`] denotes.
/// Each returned tree is well formed.
pub fn parse_forest(input: &str) -> (r: Result<Vec<Tree>, ParseError>)
    ensures
        match r {
            Ok(ts) => (spec_forest(input@, 0) matches Ok(vs) && ts@.len() == vs.len() && (forall|
                k: int,
            | 0 <= k < vs.len() ==> (#[trigger] ts@[k]@) == vs[k] && ts@[k]@.wf())),
            Err(e) => spec_forest(input@, 0) == Err::<Seq<TreeV>, ParseError>(e),
        },
{
    let n = input.unicode_len();
    let mut trees: Vec<Tree> = Vec::new();
    let mut i: usize = 0;
    while i < n
        invariant
            n == input@.len(),
            i <= n,
            forall|k: int| 0 <= k < trees@.len() ==> (#[trigger] trees@[k]@).wf(),
            forest_concat(
                Seq::new(trees@.len(), |k: int| trees@[k]@),
                spec_forest(input@, i as int),
            ) == spec_forest(input@, 0),
        decreases n - i,
    {
        let ghost pre = Seq::new(trees@.len(), |k: int| trees@[k]@);
        // look ahead: is anything but whitespace left?
        let mut k = i;
        while k < n && is_ws_char(input.get_char(k))
            invariant
                n == input@.len(),
                i <= k <= n,
                forall|x: int| i <= x < k ==> is_ws(#[trigger] input@[x]),
            decreases n - k,
        {
            k = k + 1;
        }
        if k == n {
            proof {
                assert(ws_only(input@, i as int));
                assert(spec_forest(input@, i as int) == Ok::<Seq<TreeV>, ParseError>(Seq::empty()));
                assert(pre + Seq::<TreeV>::empty() =~= pre);
            }
            return Ok(trees);
        }
        proof {
            assert(!is_ws(input@[k as int]));
            assert(!ws_only(input@, i as int));
        }
        {
            match parse_nwk_at(input, i) {
                Ok((t, j)) => {
                    proof {
                        let sr = spec_run(input@, i as int, PStateV::init());
                        assert(sr == Ok::<(TreeV, int), ParseError>((t@, j as int)));
                        assert(spec_forest(input@, i as int) == forest_concat(
                            seq![t@],
                            spec_forest(input@, j as int),
                        ));
                    }
                    trees.push(t);
                    proof {
                        let now = Seq::new(trees@.len(), |k: int| trees@[k]@);
                        assert(now =~= pre.push(t@));
                        match spec_forest(input@, j as int) {
                            Ok(ts) => {
                                assert(pre + (seq![t@] + ts) =~= (pre.push(t@)) + ts);
                            },
                            Err(e) => {},
                        }
                    }
                    i = j;
                },
                Err(e) => {
                    proof {
                        assert(spec_forest(input@, i as int) == Err::<Seq<TreeV>, ParseError>(e));
                    }
                    return Err(e);
                },
            }
        }
    }
    proof {
        assert(spec_forest(input@, i as int) == Ok::<Seq<TreeV>, ParseError>(Seq::empty()));
        let pre = Seq::new(trees@.len(), |k: int| trees@[k]@);
        assert(pre + Seq::<TreeV>::empty() =~= pre);
    }
    Ok(trees)
}

/// Infers a single network from one or more Newick trees.
///
/// A single input tree is already a network: it passes through as the
/// trivial single-tree network, branch lengths and all.  Several trees go
/// through quartet extraction and resolution; the result then carries
/// exactly the input's distinct leaf labels, one leaf per taxon, and
/// nothing else is labelled.  The call fails exactly when some input tree
/// is malformed (with that tree's parse error), or — a machine limit —
/// when several trees carry so many distinct taxa that the network arena
/// cannot fit in the address space.
pub fn infer_network(input: &str) -> (r: Result<Network, InferError>)
    ensures
        match r {
            Ok(net) => {
                &&& spec_forest(input@, 0) is Ok
                &&& net@.wf()
                &&& (spec_forest(input@, 0).unwrap().len() == 1 ==> net@ == tree_net_v(
                    spec_forest(input@, 0).unwrap()[0],
                ))
                &&& (spec_forest(input@, 0).unwrap().len() != 1 ==> {
                    let txa = spec_taxa(spec_forest(input@, 0).unwrap());
                    &&& txa.len() < usize::MAX - 1
                    &&& net@.nodes.len() >= 1 + txa.len()
                    &&& forall|j: int|
                        0 <= j < txa.len() ==> (#[trigger] net@.nodes[net@.nodes.len() - txa.len()
                            + j]).label == Some(txa[j]) && net@.nodes[net@.nodes.len() - txa.len()
                            + j].children.len() == 0
                    &&& forall|i: int|
                        0 <= i < net@.nodes.len() - txa.len() ==> (
                        #[trigger] net@.nodes[i]).label is None
                })
            },
            Err(e) => match e {
                InferError::Parse(pe) => spec_forest(input@, 0) == Err::<Seq<TreeV>, ParseError>(
                    pe,
                ),
                InferError::CapacityExceeded => spec_forest(input@, 0) is Ok && spec_forest(
                    input@,
                    0,
                ).unwrap().len() != 1 && spec_taxa(spec_forest(input@, 0).unwrap()).len()
                    >= usize::MAX - 1,
            },
        },
{
    let trees = match parse_forest(input) {
        Ok(ts) => ts,
        Err(e) => {
            return Err(InferError::Parse(e));
        },
    };
    let ghost vs = spec_forest(input@, 0).unwrap();
    proof {
        assert(trees_view(trees@) =~= vs);
    }
    if trees.len() == 1 {
        // one tree is already the network it denotes
        let net = tree_to_network(&trees[0]);
        let rooted = root_network(net);
        proof {
            assert(trees@[0]@ == vs[0]);
            assert(rooted@ =~= tree_net_v(vs[0]));
        }
        return Ok(rooted);
    }
    let taxa = collect_taxa(&trees);
    proof {
        assert(labels_view(taxa@) == spec_taxa(vs));
        assert(labels_view(taxa@).len() == taxa@.len());
    }
    if taxa.len() >= usize::MAX - 1 {
        return Err(InferError::CapacityExceeded);
    }
    let table = build_quartet_table(&trees, &taxa);
    let (net, _conflicts) = resolve_network(&table, &taxa);
    let rooted = root_network(net);
    proof {
        let txa = spec_taxa(vs);
        assert(txa.len() == taxa@.len());
        assert forall|j: int|
            0 <= j < txa.len() implies (#[trigger] rooted@.nodes[rooted@.nodes.len() - txa.len()
            + j]).label == Some(txa[j]) && rooted@.nodes[rooted@.nodes.len() - txa.len()
            + j].children.len() == 0 by {
            assert(net@.nodes[net@.nodes.len() - taxa@.len() + j].label == Some(taxa@[j]@));
            assert(txa[j] == labels_view(taxa@)[j]);
        }
    }
    Ok(rooted)
}

/// Infers a network and renders it to its canonical extended-Newick text:
/// for a single input tree, exactly the canonical text of that tree; for
/// several, the canonical text of a well-formed network whose leaf labels
/// are exactly the input's distinct taxa, one leaf each.
pub fn infer(input: &str) -> (r: Result<String, InferError>)
    ensures
        match r {
            Ok(out) => {
                &&& spec_forest(input@, 0) is Ok
                &&& (spec_forest(input@, 0).unwrap().len() == 1 ==> out@ == spec_export(
                    tree_net_v(spec_forest(input@, 0).unwrap()[0]),
                ))
                &&& (spec_forest(input@, 0).unwrap().len() != 1 ==> (exists|net: NetworkV|
                    {
                        let txa = spec_taxa(spec_forest(input@, 0).unwrap());
                        &&& net.wf()
                        &&& net.nodes.len() >= 1 + txa.len()
                        &&& forall|j: int|
                            0 <= j < txa.len() ==> (#[trigger] net.nodes[net.nodes.len()
                                - txa.len() + j]).label == Some(txa[j]) && net.nodes[net.nodes.len()
                                - txa.len() + j].children.len() == 0
                        &&& forall|i: int|
                            0 <= i < net.nodes.len() - txa.len() ==> (
                            #[trigger] net.nodes[i]).label is None
                        &&& out@ == #[trigger] spec_export(net)
                    }))
            },
            Err(e) => match e {
                InferError::Parse(pe) => spec_forest(input@, 0) == Err::<Seq<TreeV>, ParseError>(
                    pe,
                ),
                InferError::CapacityExceeded => spec_forest(input@, 0) is Ok && spec_forest(
                    input@,
                    0,
                ).unwrap().len() != 1 && spec_taxa(spec_forest(input@, 0).unwrap()).len()
                    >= usize::MAX - 1,
            },
        },
{
    match infer_network(input) {
        Ok(net) => {
            let out = export_network(&net);
            proof {
                assert(net@.wf() && out@ == spec_export(net@));
            }
            Ok(out)
        },
        Err(e) => Err(e),
    }
}

} // verus!
