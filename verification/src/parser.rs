//! Newick parser.
//!
//! A single forward scan over the input characters drives a stack machine:
//! `(` opens an internal node and pushes it as the current parent, `)`
//! closes the node on top of the stack and may be followed directly by a
//! label and a `:`-prefixed branch length for the closed node, `,`
//! separates siblings, `;` ends the tree, and any other run of characters
//! (delimiters `( ) , ; :` excluded) is a leaf label, again with an
//! optional branch length.  Whitespace (space, tab, carriage return, line
//! feed) between tokens is ignored.
//!
//! The machine is written twice: once as the specification function
//! [`spec_parse`] over the character sequence, and once as executable code
//! whose contract says it returns exactly what the specification function
//! denotes.

use vstd::prelude::*;

use crate::decimal::decimal_nanos;
use crate::decimal::valid_decimal;
use crate::structure::Node;
use crate::structure::NodeId;
use crate::structure::NodeV;
use crate::structure::Tree;
use crate::structure::TreeV;

verus! {

/// Why a Newick string was rejected.
#[derive(Debug, PartialEq, Eq, Structural)]
pub enum ParseError {
    /// The input ended (or a `;` came) before any node was opened.
    UnexpectedEnd,
    /// A label in a position where no node can take it, with its first
    /// character.
    UnexpectedToken(char),
    /// A `)` without a matching `(`, or an unclosed `(` at the end.
    UnbalancedParentheses,
    /// The text after a `:` is not a decimal literal that fits.
    InvalidBranchLength,
}

/// Parser state: the node arena grown so far, the stack of open internal
/// nodes, and the root once the first node has been opened.
#[verifier::ext_equal]
pub ghost struct PStateV {
    pub nodes: Seq<NodeV>,
    pub stack: Seq<NodeId>,
    pub root: Option<NodeId>,
}

pub open spec fn is_ws(c: char) -> bool {
    c == ' ' || c == '\t' || c == '\n' || c == '\r'
}

/// The characters that end a label (and may not occur inside one).
pub open spec fn is_label_delim(c: char) -> bool {
    c == '(' || c == ')' || c == ',' || c == ';' || c == ':'
}

/// The characters that end a branch-length run.
pub open spec fn is_num_delim(c: char) -> bool {
    c == ')' || c == ',' || c == ';'
}

/// A character that starts a label token.
pub open spec fn is_label_start(c: char) -> bool {
    !is_label_delim(c) && !is_ws(c)
}

/// Number of characters from `i` to the first label delimiter.
pub open spec fn label_run_len(s: Seq<char>, i: int) -> nat
    decreases s.len() - i,
{
    if 0 <= i < s.len() && !is_label_delim(s[i]) {
        1 + label_run_len(s, i + 1)
    } else {
        0
    }
}

/// Number of characters from `i` to the first branch-length delimiter.
pub open spec fn num_run_len(s: Seq<char>, i: int) -> nat
    decreases s.len() - i,
{
    if 0 <= i < s.len() && !is_num_delim(s[i]) {
        1 + num_run_len(s, i + 1)
    } else {
        0
    }
}

pub open spec fn label_end(s: Seq<char>, i: int) -> int {
    i + label_run_len(s, i)
}

pub open spec fn num_end(s: Seq<char>, i: int) -> int {
    i + num_run_len(s, i)
}

impl PStateV {
    pub open spec fn init() -> PStateV {
        PStateV { nodes: Seq::empty(), stack: Seq::empty(), root: None }
    }

    /// Append a node; when the stack is nonempty the new node becomes a
    /// child of the node on top.
    pub open spec fn push_node(self, label: Option<Seq<char>>, length: Option<u64>) -> PStateV {
        let id = self.nodes.len() as NodeId;
        let parent = if self.stack.len() > 0 {
            Some(self.stack.last())
        } else {
            None
        };
        let nodes1 = self.nodes.push(
            NodeV { parent, children: Seq::empty(), label, length_to_parent: length },
        );
        let nodes2 = if self.stack.len() > 0 {
            let p = self.stack.last() as int;
            nodes1.update(
                p,
                NodeV {
                    parent: nodes1[p].parent,
                    children: nodes1[p].children.push(id),
                    label: nodes1[p].label,
                    length_to_parent: nodes1[p].length_to_parent,
                },
            )
        } else {
            nodes1
        };
        PStateV { nodes: nodes2, stack: self.stack, root: self.root }
    }

    pub open spec fn set_label(self, n: int, label: Seq<char>) -> PStateV {
        PStateV {
            nodes: self.nodes.update(
                n,
                NodeV {
                    parent: self.nodes[n].parent,
                    children: self.nodes[n].children,
                    label: Some(label),
                    length_to_parent: self.nodes[n].length_to_parent,
                },
            ),
            stack: self.stack,
            root: self.root,
        }
    }

    pub open spec fn set_length(self, n: int, w: u64) -> PStateV {
        PStateV {
            nodes: self.nodes.update(
                n,
                NodeV {
                    parent: self.nodes[n].parent,
                    children: self.nodes[n].children,
                    label: self.nodes[n].label,
                    length_to_parent: Some(w),
                },
            ),
            stack: self.stack,
            root: self.root,
        }
    }

    /// The finished tree, once the stack is empty and a root exists.
    pub open spec fn to_tree(self, r: NodeId) -> TreeV {
        TreeV { nodes: self.nodes, root: r }
    }
}

/// Keep a scan position inside the input for the termination measure.
pub open spec fn clamp(s: Seq<char>, i: int) -> int {
    if i > s.len() {
        s.len() as int
    } else {
        i
    }
}

/// What the machine does at the end of the input or at a `;`.
pub open spec fn finish(
    s: Seq<char>,
    i: int,
    st: PStateV,
) -> Result<(TreeV, int), ParseError> {
    if st.stack.len() > 0 {
        Err(ParseError::UnbalancedParentheses)
    } else {
        match st.root {
            Some(r) => Ok((st.to_tree(r), i)),
            None => Err(ParseError::UnexpectedEnd),
        }
    }
}

/// One token of the machine, then the rest of the input.
pub open spec fn spec_run(s: Seq<char>, i: int, st: PStateV) -> Result<
    (TreeV, int),
    ParseError,
>
    decreases s.len() - i,
{
    if !(0 <= i < s.len()) {
        finish(s, i, st)
    } else {
        let c = s[i];
        if c == '(' {
            if st.stack.len() == 0 && st.root is Some {
                Err(ParseError::UnexpectedToken('('))
            } else {
                let id = st.nodes.len() as NodeId;
                let st1 = st.push_node(None, None);
                let st2 = PStateV {
                    nodes: st1.nodes,
                    stack: st1.stack.push(id),
                    root: if st1.root is None {
                        Some(id)
                    } else {
                        st1.root
                    },
                };
                spec_run(s, i + 1, st2)
            }
        } else if c == ')' {
            if st.stack.len() == 0 {
                Err(ParseError::UnbalancedParentheses)
            } else {
                let n = st.stack.last() as int;
                let st1 = PStateV { nodes: st.nodes, stack: st.stack.drop_last(), root: st.root };
                let has_label = i + 1 < s.len() && is_label_start(s[i + 1]);
                let j = if has_label {
                    label_end(s, i + 1)
                } else {
                    i + 1
                };
                let st2 = if has_label {
                    st1.set_label(n, s.subrange(i + 1, clamp(s, j)))
                } else {
                    st1
                };
                if j < s.len() && s[j] == ':' {
                    let e = num_end(s, j + 1);
                    let txt = s.subrange(j + 1, clamp(s, e));
                    if valid_decimal(txt) && decimal_nanos(txt) <= u64::MAX {
                        spec_run(s, clamp(s, e), st2.set_length(n, decimal_nanos(txt) as u64))
                    } else {
                        Err(ParseError::InvalidBranchLength)
                    }
                } else {
                    spec_run(s, clamp(s, j), st2)
                }
            }
        } else if c == ',' {
            spec_run(s, i + 1, st)
        } else if c == ';' {
            finish(s, i + 1, st)
        } else if is_ws(c) {
            spec_run(s, i + 1, st)
        } else if c == ':' {
            Err(ParseError::UnexpectedToken(':'))
        } else {
            // a label: a new leaf under the current parent
            if st.stack.len() == 0 {
                Err(ParseError::UnexpectedToken(c))
            } else {
                let e = label_end(s, i);
                let label = s.subrange(i, clamp(s, e));
                if e < s.len() && s[e] == ':' {
                    let e2 = num_end(s, e + 1);
                    let txt = s.subrange(e + 1, clamp(s, e2));
                    if valid_decimal(txt) && decimal_nanos(txt) <= u64::MAX {
                        spec_run(
                            s,
                            clamp(s, e2),
                            st.push_node(Some(label), Some(decimal_nanos(txt) as u64)),
                        )
                    } else {
                        Err(ParseError::InvalidBranchLength)
                    }
                } else {
                    spec_run(s, clamp(s, e), st.push_node(Some(label), None))
                }
            }
        }
    }
}

/// The whole input, from the first character, with an empty machine.
pub open spec fn spec_parse(s: Seq<char>) -> Result<(TreeV, int), ParseError> {
    spec_run(s, 0, PStateV::init())
}

/// Structural soundness of a parser arena: parents come before their
/// children and the parent/child lists mirror each other.
pub open spec fn nodes_inv(nodes: Seq<NodeV>) -> bool {
    &&& forall|i: int|
        0 <= i < nodes.len() ==> match #[trigger] nodes[i].parent {
            Some(p) => p < i,
            None => i == 0,
        }
    &&& forall|i: int, k: int|
        0 <= i < nodes.len() && 0 <= k < nodes[i].children.len() ==> i
            < #[trigger] nodes[i].children[k] < nodes.len() && nodes[nodes[i].children[k] as int].parent
            == Some(i as NodeId)
    &&& forall|i: int, k1: int, k2: int|
        0 <= i < nodes.len() && 0 <= k1 < k2 < nodes[i].children.len()
            ==> #[trigger] nodes[i].children[k1] < #[trigger] nodes[i].children[k2]
    &&& forall|i: int|
        0 <= i < nodes.len() ==> match #[trigger] nodes[i].parent {
            Some(p) => nodes[p as int].children.contains(i as NodeId),
            None => true,
        }
}

/// Invariant of the running parser: a sound arena, a valid stack, and a
/// root that is node 0 as soon as any node exists.
pub open spec fn st_inv(st: PStateV) -> bool {
    &&& nodes_inv(st.nodes)
    &&& (st.root is None ==> st.nodes.len() == 0 && st.stack.len() == 0)
    &&& (st.root is Some ==> st.root == Some(0usize) && st.nodes.len() > 0)
    &&& forall|k: int| 0 <= k < st.stack.len() ==> (#[trigger] st.stack[k] as int) < st.nodes.len()
}

/// A finished parse state is a well-formed tree.
pub proof fn lemma_finish_wf(st: PStateV, r: NodeId)
    requires
        st_inv(st),
        st.stack.len() == 0,
        st.root == Some(r),
        st.nodes.len() <= usize::MAX,
    ensures
        st.to_tree(r).wf(),
{
    let t = st.to_tree(r);
    assert forall|i: int| 0 <= i < t.nodes.len() implies #[trigger] t.wf_node(i) by {
        match t.nodes[i].parent {
            Some(p) => {
                assert(p < i);
                assert(i != 0);
            },
            None => {},
        }
    }
}

/// The running parser, an exclusive-reference context threaded through the
/// scan (the arena, the stack of open nodes, and the root).
pub struct ParseCtx {
    pub nodes: Vec<Node>,
    pub stack: Vec<NodeId>,
    pub root: Option<NodeId>,
}

impl View for ParseCtx {
    type V = PStateV;

    open spec fn view(&self) -> PStateV {
        PStateV {
            nodes: Seq::new(self.nodes@.len(), |i: int| self.nodes@[i]@),
            stack: self.stack@,
            root: self.root,
        }
    }
}

impl ParseCtx {
    /// Append a leaf (or interior) node under the node on top of the stack.
    fn push_node_exec(&mut self, label: Option<String>, length: Option<u64>) -> (id: NodeId)
        requires
            st_inv(old(self)@),
            old(self)@.stack.len() > 0,
            old(self)@.nodes.len() < usize::MAX,
        ensures
            id == old(self)@.nodes.len(),
            final(self)@ == old(self)@.push_node(
                match label {
                    Some(l) => Some(l@),
                    None => None,
                },
                length,
            ),
            st_inv(final(self)@),
    {
        let ghost st0 = self@;
        let ghost lblv: Option<Seq<char>> = match label {
            Some(ref l) => Some(l@),
            None => None,
        };
        let id = self.nodes.len();
        let p = self.stack[self.stack.len() - 1];
        self.nodes.push(Node { parent: Some(p), children: Vec::new(), label, length_to_parent: length });
        let nd = &mut self.nodes[p];
        nd.children.push(id);
        proof {
            let st1 = st0.push_node(lblv, length);
            assert(self@.nodes =~= st1.nodes);
            assert(self@ =~= st1);
            lemma_push_node_inv(st0, lblv, length);
        }
        id
    }

    /// Open an internal node: push it to the arena and onto the stack; the
    /// first node opened becomes the root.
    fn open_node_exec(&mut self) -> (id: NodeId)
        requires
            st_inv(old(self)@),
            !(old(self)@.stack.len() == 0 && old(self)@.root is Some),
            old(self)@.nodes.len() < usize::MAX,
        ensures
            id == old(self)@.nodes.len(),
            final(self)@ == (PStateV {
                nodes: old(self)@.push_node(None, None).nodes,
                stack: old(self)@.stack.push(id),
                root: if old(self)@.root is None {
                    Some(id)
                } else {
                    old(self)@.root
                },
            }),
            st_inv(final(self)@),
            final(self)@.root is Some,
            final(self)@.stack.len() > 0,
    {
        let ghost st0 = self@;
        let id = self.nodes.len();
        let parent: Option<NodeId> = if self.stack.len() > 0 {
            Some(self.stack[self.stack.len() - 1])
        } else {
            None
        };
        self.nodes.push(
            Node { parent, children: Vec::new(), label: None, length_to_parent: None },
        );
        if self.stack.len() > 0 {
            let p = self.stack[self.stack.len() - 1];
            let nd = &mut self.nodes[p];
            nd.children.push(id);
        }
        self.stack.push(id);
        if self.root.is_none() {
            self.root = Some(id);
        }
        proof {
            let st1 = st0.push_node(None, None);
            let st2 = PStateV {
                nodes: st1.nodes,
                stack: st0.stack.push(id as NodeId),
                root: if st0.root is None {
                    Some(id as NodeId)
                } else {
                    st0.root
                },
            };
            assert(self@.nodes =~= st2.nodes);
            assert(self@ =~= st2);
            if st0.stack.len() > 0 {
                lemma_push_node_inv(st0, None, None);
            } else {
                // first node: it is node 0, parentless, and becomes root
                assert(st0.nodes.len() == 0);
                assert forall|i: int|
                    0 <= i < st2.nodes.len() implies match #[trigger] st2.nodes[i].parent {
                    Some(p) => p < i,
                    None => i == 0,
                } by {}
            }
            assert(st_inv(self@));
        }
        id
    }

    /// Set the label of an existing node.
    fn set_label_exec(&mut self, n: NodeId, label: String)
        requires
            st_inv(old(self)@),
            n < old(self)@.nodes.len(),
        ensures
            final(self)@ == old(self)@.set_label(n as int, label@),
            st_inv(final(self)@),
    {
        let ghost st0 = self@;
        let nd = &mut self.nodes[n];
        nd.label = Some(label);
        proof {
            assert(self@.nodes =~= st0.set_label(n as int, label@).nodes);
            assert(self@ =~= st0.set_label(n as int, label@));
            lemma_relabel_inv(st0, self@);
        }
    }

    /// Set the branch length of an existing node.
    fn set_length_exec(&mut self, n: NodeId, w: u64)
        requires
            st_inv(old(self)@),
            n < old(self)@.nodes.len(),
        ensures
            final(self)@ == old(self)@.set_length(n as int, w),
            st_inv(final(self)@),
    {
        let ghost st0 = self@;
        let nd = &mut self.nodes[n];
        nd.length_to_parent = Some(w);
        proof {
            assert(self@.nodes =~= st0.set_length(n as int, w).nodes);
            assert(self@ =~= st0.set_length(n as int, w));
            lemma_relabel_inv(st0, self@);
        }
    }
}

/// Appending a node under the top of the stack keeps the arena sound.
proof fn lemma_push_node_inv(st: PStateV, label: Option<Seq<char>>, length: Option<u64>)
    requires
        st_inv(st),
        st.stack.len() > 0,
        st.nodes.len() < usize::MAX,
    ensures
        st_inv(st.push_node(label, length)),
{
    let st1 = st.push_node(label, length);
    let id = st.nodes.len() as int;
    let p = st.stack.last() as int;
    assert(0 <= p < st.nodes.len());
    assert(st1.nodes.len() == id + 1);
    assert(st1.nodes[id].parent == Some(st.stack.last()));
    assert(st1.nodes[p].children =~= st.nodes[p].children.push(id as NodeId));
    assert forall|i: int| 0 <= i < st1.nodes.len() implies match #[trigger] st1.nodes[i].parent {
        Some(q) => q < i,
        None => i == 0,
    } by {
        if i < id {
            assert(st1.nodes[i].parent == st.nodes[i].parent);
        }
    }
    assert forall|i: int, k: int|
        0 <= i < st1.nodes.len() && 0 <= k < st1.nodes[i].children.len() implies i
        < #[trigger] st1.nodes[i].children[k] < st1.nodes.len() && st1.nodes[st1.nodes[i].children[k] as int].parent
        == Some(i as NodeId) by {
        if i == p {
            if k < st.nodes[p].children.len() {
                assert(st1.nodes[i].children[k] == st.nodes[p].children[k]);
                assert((st.nodes[p].children[k] as int) < id);
            } else {
                assert(st1.nodes[i].children[k] == id as NodeId);
            }
        } else if i != id {
            assert(st1.nodes[i].children == st.nodes[i].children);
            assert((st.nodes[i].children[k] as int) < id);
        }
    }
    assert forall|i: int, k1: int, k2: int|
        0 <= i < st1.nodes.len() && 0 <= k1 < k2 < st1.nodes[i].children.len()
        implies #[trigger] st1.nodes[i].children[k1] < #[trigger] st1.nodes[i].children[k2] by {
        if i == p {
            if k2 < st.nodes[p].children.len() {
                assert(st1.nodes[i].children[k1] == st.nodes[p].children[k1]);
                assert(st1.nodes[i].children[k2] == st.nodes[p].children[k2]);
            } else {
                assert(st1.nodes[i].children[k2] == id as NodeId);
                assert((st.nodes[p].children[k1] as int) < id);
            }
        } else if i != id {
            assert(st1.nodes[i].children == st.nodes[i].children);
        }
    }
    assert forall|i: int|
        0 <= i < st1.nodes.len() implies match #[trigger] st1.nodes[i].parent {
        Some(q) => st1.nodes[q as int].children.contains(i as NodeId),
        None => true,
    } by {
        if i == id {
            assert(st1.nodes[p].children.last() == id as NodeId);
            assert(st1.nodes[p].children.contains(id as NodeId));
        } else {
            match st.nodes[i].parent {
                Some(q) => {
                    assert(st.nodes[q as int].children.contains(i as NodeId));
                    if q as int == p {
                        let k = choose|k: int|
                            0 <= k < st.nodes[p].children.len() && st.nodes[p].children[k]
                                == i as NodeId;
                        assert(st1.nodes[p].children[k] == i as NodeId);
                        assert(st1.nodes[p].children.contains(i as NodeId));
                    } else {
                        assert(st1.nodes[q as int].children == st.nodes[q as int].children);
                    }
                },
                None => {},
            }
        }
    }
}

fn is_ws_exec(c: char) -> (r: bool)
    ensures
        r == is_ws(c),
{
    c == ' ' || c == '\t' || c == '\n' || c == '\r'
}

fn is_label_delim_exec(c: char) -> (r: bool)
    ensures
        r == is_label_delim(c),
{
    c == '(' || c == ')' || c == ',' || c == ';' || c == ':'
}

fn is_num_delim_exec(c: char) -> (r: bool)
    ensures
        r == is_num_delim(c),
{
    c == ')' || c == ',' || c == ';'
}

/// Scan to the first label delimiter at or after `i`.
fn scan_label(s: &str, i: usize, n: usize) -> (e: usize)
    requires
        n == s@.len(),
        i <= n,
    ensures
        i <= e <= n,
        e == label_end(s@, i as int),
{
    let mut e = i;
    while e < n && !is_label_delim_exec(s.get_char(e))
        invariant
            n == s@.len(),
            i <= e <= n,
            label_end(s@, i as int) == label_end(s@, e as int),
        decreases n - e,
    {
        e = e + 1;
    }
    e
}

/// Scan to the first branch-length delimiter at or after `i`.
fn scan_num(s: &str, i: usize, n: usize) -> (e: usize)
    requires
        n == s@.len(),
        i <= n,
    ensures
        i <= e <= n,
        e == num_end(s@, i as int),
{
    let mut e = i;
    while e < n && !is_num_delim_exec(s.get_char(e))
        invariant
            n == s@.len(),
            i <= e <= n,
            num_end(s@, i as int) == num_end(s@, e as int),
        decreases n - e,
    {
        e = e + 1;
    }
    e
}

/// Parses one Newick tree starting at character position `from`, returning
/// the tree and the position just past its terminating `;` (or the end of
/// the input).  The result is exactly what the specification machine
/// [`spec_run`] denotes, and a returned tree is well formed.
pub fn parse_nwk_at(s: &str, from: usize) -> (r: Result<(Tree, usize), ParseError>)
    requires
        from <= s@.len(),
    ensures
        match r {
            Ok((t, j)) => spec_run(s@, from as int, PStateV::init()) == Ok::<
                (TreeV, int),
                ParseError,
            >((t@, j as int)) && t@.wf() && from < j <= s@.len(),
            Err(e) => spec_run(s@, from as int, PStateV::init()) == Err::<
                (TreeV, int),
                ParseError,
            >(e),
        },
{
    let n = s.unicode_len();
    let mut ctx = ParseCtx { nodes: Vec::new(), stack: Vec::new(), root: None };
    let mut i = from;
    proof {
        assert(ctx@ =~= PStateV::init());
    }
    while i < n
        invariant
            n == s@.len(),
            from <= i <= n,
            st_inv(ctx@),
            ctx@.nodes.len() <= i - from,
            ctx@.root is Some ==> from < i,
            spec_run(s@, from as int, PStateV::init()) == spec_run(s@, i as int, ctx@),
        decreases n - i,
    {
        let ghost st0 = ctx@;
        let ghost i0 = i as int;
        let c = s.get_char(i);
        if c == '(' {
            if ctx.stack.len() == 0 && ctx.root.is_some() {
                return Err(ParseError::UnexpectedToken('('));
            }
            let _id = ctx.open_node_exec();
            i = i + 1;
        } else if c == ')' {
            if ctx.stack.len() == 0 {
                return Err(ParseError::UnbalancedParentheses);
            }
            let nid = ctx.stack[ctx.stack.len() - 1];
            let _ = ctx.stack.pop();
            proof {
                assert(ctx@ =~= (PStateV {
                    nodes: st0.nodes,
                    stack: st0.stack.drop_last(),
                    root: st0.root,
                }));
            }
            let ghost st1 = ctx@;
            let mut j = i + 1;
            let ghost has_label = i0 + 1 < s@.len() && is_label_start(s@[i0 + 1]);
            if j < n && !is_label_delim_exec(s.get_char(j)) && !is_ws_exec(s.get_char(j)) {
                let e = scan_label(s, j, n);
                let lab = s.substring_char(j, e).to_owned();
                ctx.set_label_exec(nid, lab);
                j = e;
                proof {
                    assert(has_label);
                    assert(clamp(s@, label_end(s@, i0 + 1)) == label_end(s@, i0 + 1));
                    assert(ctx@ == st1.set_label(nid as int, s@.subrange(
                        i0 + 1,
                        label_end(s@, i0 + 1),
                    )));
                }
            } else {
                proof {
                    assert(!has_label);
                }
            }
            let ghost st2 = ctx@;
            if j < n && s.get_char(j) == ':' {
                let e2 = scan_num(s, j + 1, n);
                match crate::decimal::parse_nanos(s, j + 1, e2) {
                    Some(w) => {
                        ctx.set_length_exec(nid, w);
                        proof {
                            assert(clamp(s@, num_end(s@, j as int + 1)) == num_end(
                                s@,
                                j as int + 1,
                            ));
                        }
                        i = e2;
                    },
                    None => {
                        return Err(ParseError::InvalidBranchLength);
                    },
                }
            } else {
                i = j;
            }
        } else if c == ',' {
            i = i + 1;
        } else if c == ';' {
            if ctx.stack.len() > 0 {
                return Err(ParseError::UnbalancedParentheses);
            }
            match ctx.root {
                Some(r) => {
                    let t = Tree { nodes: ctx.nodes, root: r };
                    proof {
                        assert(t@ =~= ctx@.to_tree(r));
                        lemma_finish_wf(ctx@, r);
                    }
                    return Ok((t, i + 1));
                },
                None => {
                    return Err(ParseError::UnexpectedEnd);
                },
            }
        } else if is_ws_exec(c) {
            i = i + 1;
        } else if c == ':' {
            return Err(ParseError::UnexpectedToken(':'));
        } else {
            if ctx.stack.len() == 0 {
                return Err(ParseError::UnexpectedToken(c));
            }
            let e = scan_label(s, i, n);
            proof {
                assert(!is_label_delim(s@[i0]));
                assert(label_run_len(s@, i0) >= 1);
                assert(clamp(s@, label_end(s@, i0)) == label_end(s@, i0));
            }
            let lab = s.substring_char(i, e).to_owned();
            if e < n && s.get_char(e) == ':' {
                let e2 = scan_num(s, e + 1, n);
                match crate::decimal::parse_nanos(s, e + 1, e2) {
                    Some(w) => {
                        let _ = ctx.push_node_exec(Some(lab), Some(w));
                        proof {
                            assert(clamp(s@, num_end(s@, e as int + 1)) == num_end(
                                s@,
                                e as int + 1,
                            ));
                        }
                        i = e2;
                    },
                    None => {
                        return Err(ParseError::InvalidBranchLength);
                    },
                }
            } else {
                let _ = ctx.push_node_exec(Some(lab), None);
                i = e;
            }
        }
    }
    if ctx.stack.len() > 0 {
        return Err(ParseError::UnbalancedParentheses);
    }
    match ctx.root {
        Some(r) => {
            let t = Tree { nodes: ctx.nodes, root: r };
            proof {
                assert(t@ =~= ctx@.to_tree(r));
                lemma_finish_wf(ctx@, r);
            }
            Ok((t, n))
        },
        None => Err(ParseError::UnexpectedEnd),
    }
}

/// Parses one Newick string into a [`Tree`].  The result is exactly what
/// the specification machine [`spec_parse`] denotes; a returned tree is
/// well formed.
pub fn parse_nwk(input: &str) -> (r: Result<Tree, ParseError>)
    ensures
        match r {
            Ok(t) => (spec_parse(input@) matches Ok(p) && p.0 == t@) && t@.wf(),
            Err(e) => spec_parse(input@) == Err::<(TreeV, int), ParseError>(e),
        },
{
    match parse_nwk_at(input, 0) {
        Ok((t, _)) => Ok(t),
        Err(e) => Err(e),
    }
}

/// Changing only labels or branch lengths keeps the arena sound.
proof fn lemma_relabel_inv(st: PStateV, st1: PStateV)
    requires
        st_inv(st),
        st1.nodes.len() == st.nodes.len(),
        st1.stack == st.stack,
        st1.root == st.root,
        forall|i: int|
            0 <= i < st.nodes.len() ==> #[trigger] st1.nodes[i].parent == st.nodes[i].parent
                && st1.nodes[i].children == st.nodes[i].children,
    ensures
        st_inv(st1),
{
    assert forall|i: int| 0 <= i < st1.nodes.len() implies match #[trigger] st1.nodes[i].parent {
        Some(q) => q < i,
        None => i == 0,
    } by {
        assert(st1.nodes[i].parent == st.nodes[i].parent);
    }
    assert forall|i: int, k: int|
        0 <= i < st1.nodes.len() && 0 <= k < st1.nodes[i].children.len() implies i
        < #[trigger] st1.nodes[i].children[k] < st1.nodes.len()
        && st1.nodes[st1.nodes[i].children[k] as int].parent == Some(i as NodeId) by {
        assert(st1.nodes[i].parent == st.nodes[i].parent);
        assert(st1.nodes[i].children == st.nodes[i].children);
        let c = st.nodes[i].children[k] as int;
        assert(st1.nodes[c].parent == st.nodes[c].parent);
    }
    assert forall|i: int, k1: int, k2: int|
        0 <= i < st1.nodes.len() && 0 <= k1 < k2 < st1.nodes[i].children.len()
        implies #[trigger] st1.nodes[i].children[k1] < #[trigger] st1.nodes[i].children[k2] by {
        assert(st1.nodes[i].parent == st.nodes[i].parent);
        assert(st1.nodes[i].children == st.nodes[i].children);
    }
    assert forall|i: int|
        0 <= i < st1.nodes.len() implies match #[trigger] st1.nodes[i].parent {
        Some(q) => st1.nodes[q as int].children.contains(i as NodeId),
        None => true,
    } by {
        assert(st1.nodes[i].parent == st.nodes[i].parent);
        match st.nodes[i].parent {
            Some(q) => {
                assert((q as int) < st.nodes.len());
                assert(st.nodes[q as int].children.contains(i as NodeId));
                assert(st1.nodes[q as int].parent == st.nodes[q as int].parent);
                assert(st1.nodes[q as int].children == st.nodes[q as int].children);
            },
            None => {},
        }
    }
}

} // verus!
