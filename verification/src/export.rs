//! Network serialization.
//!
//! A rooted network renders to an extended-Newick string: tree-like parts
//! look like ordinary Newick, and each reticulation node carries a tag
//! `#H<k>` (`k` counting reticulation nodes in arena order).  The full
//! node — children, label, tag — is written at the node's first visit;
//! every later visit writes the tag alone.  A branch length on a node's
//! single parent edge renders as `:` followed by the nano-unit value in
//! decimal (whole units, then nine fractional digits when the fractional
//! part is not zero).
//!
//! As with the parser, the renderer is written twice: [`spec_export`] is
//! the specification, and the executable code returns exactly what it
//! denotes.

use vstd::prelude::*;

use crate::decimal::NANO;
use crate::network::Network;
use crate::network::NetworkV;
use crate::network::retic_count_upto;

verus! {

pub open spec fn digit_char(d: int) -> char {
    if d == 0 {
        '0'
    } else if d == 1 {
        '1'
    } else if d == 2 {
        '2'
    } else if d == 3 {
        '3'
    } else if d == 4 {
        '4'
    } else if d == 5 {
        '5'
    } else if d == 6 {
        '6'
    } else if d == 7 {
        '7'
    } else if d == 8 {
        '8'
    } else {
        '9'
    }
}

/// Decimal digits of `v`, most significant first.
pub open spec fn dec_digits(v: nat) -> Seq<char>
    decreases v,
{
    if v < 10 {
        seq![digit_char(v as int)]
    } else {
        dec_digits(v / 10).push(digit_char((v % 10) as int))
    }
}

/// Exactly `k` decimal digits of `v`, with leading zeros.
pub open spec fn dec_digits_pad(v: nat, k: nat) -> Seq<char>
    decreases k,
{
    if k == 0 {
        Seq::empty()
    } else {
        dec_digits_pad(v / 10, (k - 1) as nat).push(digit_char((v % 10) as int))
    }
}

/// Textual form of a nano-unit branch length.
pub open spec fn nanos_text(w: u64) -> Seq<char> {
    if w % NANO == 0 {
        dec_digits((w / NANO) as nat)
    } else {
        dec_digits((w / NANO) as nat) + seq!['.'] + dec_digits_pad((w % NANO) as nat, 9)
    }
}

fn digit_str(d: u64) -> (r: &'static str)
    requires
        d < 10,
    ensures
        r@ =~= seq![digit_char(d as int)],
{
    proof {
        reveal_strlit("0");
        reveal_strlit("1");
        reveal_strlit("2");
        reveal_strlit("3");
        reveal_strlit("4");
        reveal_strlit("5");
        reveal_strlit("6");
        reveal_strlit("7");
        reveal_strlit("8");
        reveal_strlit("9");
    }
    if d == 0 {
        "0"
    } else if d == 1 {
        "1"
    } else if d == 2 {
        "2"
    } else if d == 3 {
        "3"
    } else if d == 4 {
        "4"
    } else if d == 5 {
        "5"
    } else if d == 6 {
        "6"
    } else if d == 7 {
        "7"
    } else if d == 8 {
        "8"
    } else {
        "9"
    }
}

/// The decimal digits of `v` as a string.  (The recursion is bounded by
/// the twenty decimal digits of a 64-bit value, not by any input.)
pub fn u64_to_string(v: u64) -> (r: String)
    ensures
        r@ == dec_digits(v as nat),
    decreases v,
{
    if v < 10 {
        digit_str(v).to_owned()
    } else {
        let mut s = u64_to_string(v / 10);
        s.append(digit_str(v % 10));
        proof {
            assert(s@ =~= dec_digits((v / 10) as nat).push(digit_char((v % 10) as int)));
        }
        s
    }
}

/// Exactly `k` decimal digits of `v`, with leading zeros.
fn u64_to_string_pad(v: u64, k: u64) -> (r: String)
    ensures
        r@ == dec_digits_pad(v as nat, k as nat),
    decreases k,
{
    if k == 0 {
        String::new()
    } else {
        let mut s = u64_to_string_pad(v / 10, k - 1);
        s.append(digit_str(v % 10));
        proof {
            assert(s@ =~= dec_digits_pad((v / 10) as nat, (k - 1) as nat).push(
                digit_char((v % 10) as int),
            ));
        }
        s
    }
}

/// A nano-unit branch length as decimal text.
pub fn nanos_to_string(w: u64) -> (r: String)
    ensures
        r@ == nanos_text(w),
{
    if w % NANO == 0 {
        u64_to_string(w / NANO)
    } else {
        let mut s = u64_to_string(w / NANO);
        proof {
            reveal_strlit(".");
        }
        s.append(".");
        let frac = u64_to_string_pad(w % NANO, 9);
        s.append(frac.as_str());
        proof {
            assert(s@ =~= nanos_text(w));
        }
        s
    }
}

/// The tag of a reticulation node: a hash, an aitch, and its rank among
/// the reticulation nodes in arena order.
pub open spec fn tag_text(net: NetworkV, n: int) -> Seq<char> {
    seq!['#', 'H'] + dec_digits(retic_count_upto(net.nodes, n))
}

/// Rendered text of the subnetwork at `n`, together with the updated
/// visited flags: children in parentheses (unless a leaf), then the
/// label, the reticulation tag, and the branch length; a reticulation
/// node already visited renders as its tag alone.
pub open spec fn spec_render(net: NetworkV, n: int, vis: Seq<bool>) -> (Seq<char>, Seq<bool>)
    decreases net.nodes.len() - n, 1int, 0int,
{
    if !(0 <= n < net.nodes.len()) {
        (Seq::empty(), vis)
    } else {
        let retic = net.nodes[n].parents.len() >= 2;
        if retic && 0 <= n < vis.len() && vis[n] {
            (tag_text(net, n), vis)
        } else {
            let vis1 = if retic {
                vis.update(n, true)
            } else {
                vis
            };
            let body = if net.nodes[n].children.len() == 0 {
                (Seq::<char>::empty(), vis1)
            } else {
                let inner = spec_render_kids(net, n, 0, vis1);
                (seq!['('] + inner.0 + seq![')'], inner.1)
            };
            let lbl = match net.nodes[n].label {
                Some(l) => l,
                None => Seq::empty(),
            };
            let tag = if retic {
                tag_text(net, n)
            } else {
                Seq::empty()
            };
            let len_text = if net.nodes[n].parents.len() == 1 && net.nodes[n].parents[0].1
                is Some {
                seq![':'] + nanos_text(net.nodes[n].parents[0].1.unwrap())
            } else {
                Seq::empty()
            };
            (body.0 + lbl + tag + len_text, body.1)
        }
    }
}

/// Rendered text of the children `k..` of `n`, comma-separated.
pub open spec fn spec_render_kids(net: NetworkV, n: int, k: int, vis: Seq<bool>) -> (
    Seq<char>,
    Seq<bool>,
)
    decreases net.nodes.len() - n, 0int, net.nodes[n].children.len() - k,
{
    if 0 <= n < net.nodes.len() && 0 <= k < net.nodes[n].children.len() {
        let c = net.nodes[n].children[k] as int;
        if n < c < net.nodes.len() {
            let first = spec_render(net, c, vis);
            if k + 1 < net.nodes[n].children.len() {
                let rest = spec_render_kids(net, n, k + 1, first.1);
                (first.0 + seq![','] + rest.0, rest.1)
            } else {
                first
            }
        } else {
            (Seq::empty(), vis)
        }
    } else {
        (Seq::empty(), vis)
    }
}

/// The canonical text of a rooted network.
pub open spec fn spec_export(net: NetworkV) -> Seq<char> {
    spec_render(net, net.root as int, Seq::new(net.nodes.len(), |i: int| false)).0 + seq![';']
}

/// Rank of node `n` among the reticulation nodes.
fn retic_rank(net: &Network, n: usize) -> (r: u64)
    requires
        n <= net@.nodes.len(),
        net@.nodes.len() <= u64::MAX,
    ensures
        r == retic_count_upto(net@.nodes, n as int),
{
    let mut count: u64 = 0;
    let mut j: usize = 0;
    while j < n
        invariant
            n <= net@.nodes.len() <= u64::MAX,
            j <= n,
            count == retic_count_upto(net@.nodes, j as int),
            count <= j,
        decreases n - j,
    {
        if net.nodes[j].parents.len() >= 2 {
            count = count + 1;
        }
        j = j + 1;
    }
    count
}

fn render_node(net: &Network, n: usize, vis: &mut Vec<bool>, out: &mut String)
    requires
        net@.wf(),
        n < net@.nodes.len(),
        old(vis)@.len() == net@.nodes.len(),
    ensures
        final(vis)@.len() == net@.nodes.len(),
        (final(out)@, final(vis)@) == {
            let r = spec_render(net@, n as int, old(vis)@);
            (old(out)@ + r.0, r.1)
        },
    decreases net@.nodes.len() - n,
{
    let ghost net_v = net@;
    let retic = net.nodes[n].parents.len() >= 2;
    if retic && vis[n] {
        proof {
            reveal_strlit("#H");
        }
        out.append("#H");
        let rank = retic_rank(net, n);
        let txt = u64_to_string(rank);
        out.append(txt.as_str());
        proof {
            assert(final(out)@ =~= old(out)@ + tag_text(net_v, n as int));
        }
        return ;
    }
    if retic {
        vis.set(n, true);
    }
    let ghost vis1 = vis@;
    let cl = net.nodes[n].children.len();
    if cl > 0 {
        proof {
            reveal_strlit("(");
            reveal_strlit(")");
            reveal_strlit(",");
        }
        out.append("(");
        let ghost out_open = out@;
        let mut k: usize = 0;
        while k < cl
            invariant
                net@.wf(),
                net_v == net@,
                n < net@.nodes.len(),
                cl == net@.nodes[n as int].children.len(),
                k < cl || k == cl,
                vis@.len() == net@.nodes.len(),
                ({
                    let full = spec_render_kids(net_v, n as int, 0, vis1);
                    if k < cl {
                        let rest = spec_render_kids(net_v, n as int, k as int, vis@);
                        out@ + rest.0 == out_open + full.0 && rest.1 == full.1
                    } else {
                        out@ == out_open + full.0 && vis@ == full.1
                    }
                }),
            decreases cl - k,
        {
            let c = net.nodes[n].children[k];
            proof {
                assert(n < c < net@.nodes.len());
            }
            let ghost out_before = out@;
            let ghost vis_before = vis@;
            render_node(net, c, vis, out);
            proof {
                let first = spec_render(net_v, c as int, vis_before);
                assert(out@ == out_before + first.0);
            }
            if k + 1 < cl {
                proof {
                    reveal_strlit(",");
                }
                out.append(",");
                proof {
                    reveal_strlit(",");
                    let first = spec_render(net_v, c as int, vis_before);
                    let rest = spec_render_kids(net_v, n as int, k as int + 1, vis@);
                    assert(spec_render_kids(net_v, n as int, k as int, vis_before) == (
                        first.0 + seq![','] + rest.0,
                        rest.1,
                    ));
                    assert(out@ + rest.0 =~= out_before + (first.0 + seq![','] + rest.0));
                }
            } else {
                proof {
                    assert(spec_render_kids(net_v, n as int, k as int, vis_before)
                        == spec_render(net_v, c as int, vis_before));
                }
            }
            k = k + 1;
        }
        out.append(")");
        proof {
            let full = spec_render_kids(net_v, n as int, 0, vis1);
            assert(out@ =~= old(out)@ + (seq!['('] + full.0 + seq![')']));
        }
    }
    match &net.nodes[n].label {
        Some(l) => {
            let owned = l.as_str().to_owned();
            out.append(owned.as_str());
        },
        None => {},
    }
    if retic {
        proof {
            reveal_strlit("#H");
        }
        out.append("#H");
        let rank = retic_rank(net, n);
        let txt = u64_to_string(rank);
        out.append(txt.as_str());
    }
    let single = net.nodes[n].parents.len() == 1;
    if single {
        match net.nodes[n].parents[0].1 {
            Some(w) => {
                proof {
                    reveal_strlit(":");
                }
                out.append(":");
                let txt = nanos_to_string(w);
                out.append(txt.as_str());
            },
            None => {},
        }
    }
    proof {
        let r = spec_render(net_v, n as int, old(vis)@);
        assert(final(out)@ =~= old(out)@ + r.0);
        assert(final(vis)@ == r.1);
    }
}

/// The canonical extended-Newick text of a rooted network; exactly
/// [`spec_export`] of its specification image.
pub fn export_network(net: &Network) -> (r: String)
    requires
        net@.wf(),
    ensures
        r@ == spec_export(net@),
{
    let n = net.nodes.len();
    let mut vis: Vec<bool> = Vec::new();
    let mut i: usize = 0;
    while i < n
        invariant
            i <= n,
            vis@.len() == i,
            forall|x: int| 0 <= x < i ==> !(#[trigger] vis@[x]),
        decreases n - i,
    {
        vis.push(false);
        i = i + 1;
    }
    proof {
        assert(vis@ =~= Seq::new(net@.nodes.len(), |x: int| false));
    }
    let mut out = String::new();
    render_node(net, net.root, &mut vis, &mut out);
    proof {
        reveal_strlit(";");
    }
    out.append(";");
    proof {
        assert(out@ =~= spec_export(net@));
    }
    out
}

} // verus!
