//! Rendering of the annotated graph in the textual visualization
//! format: one labelled box per node (dashed for synthetic nodes), one
//! line per edge, and one cluster per cycle found by the analysis.

use vstd::prelude::*;
use crate::chars::{chars_of, push_char, string_from_chars};
use crate::fmt_num::{push_dec, spec_dec};
use crate::graph::Graph;
use crate::metrics::{Local, Max};

verus! {

/// One character of label text as it must be written: a quote is
/// preceded by a backslash.
pub open spec fn escape_char(c: char) -> Seq<char> {
    if c == '"' {
        seq!['\\', '"']
    } else {
        seq![c]
    }
}

/// A whole label, escaped character by character.
pub open spec fn escape_text(s: Seq<char>) -> Seq<char>
    decreases s,
{
    if s.len() == 0 {
        Seq::empty()
    } else {
        escape_text(s.drop_last()) + escape_char(s.last())
    }
}

/// Escapes label text while writing it out: a double quote gets a
/// backslash before it, everything else passes through.
pub struct Escaper {
    out: Vec<char>,
}

impl Escaper {
    /// What has been written, escaped.
    pub closed spec fn view(&self) -> Seq<char> {
        self.out@
    }

    /// A fresh escaper with an empty buffer.
    pub fn new() -> (r: Escaper)
        ensures
            r@ == Seq::<char>::empty(),
    {
        Escaper { out: Vec::new() }
    }

    /// Writes one character, escaped.
    pub fn write_char(&mut self, c: char)
        ensures
            final(self)@ == old(self)@ + escape_char(c),
    {
        if c == '"' {
            self.out.push('\\');
            self.out.push('"');
        } else {
            self.out.push(c);
        }
        proof {
            assert(self.out@ =~= old(self)@ + escape_char(c));
        }
    }

    /// Writes a string, escaped character by character.
    pub fn write_str(&mut self, s: &str)
        ensures
            final(self)@ == old(self)@ + escape_text(s@),
    {
        let v = chars_of(s);
        let n = v.len();
        let mut i: usize = 0;
        while i < n
            invariant
                i <= n,
                n == v@.len(),
                self@ == old(self)@ + escape_text(v@.take(i as int)),
            decreases n - i,
        {
            proof {
                assert(v@.take(i + 1).drop_last() =~= v@.take(i as int));
                assert(v@.take(i + 1).last() == v@[i as int]);
            }
            self.write_char(v[i]);
            proof {
                assert(self@ =~= old(self)@ + escape_text(v@.take(i + 1)));
            }
            i = i + 1;
        }
        proof {
            assert(v@.take(n as int) =~= v@);
        }
    }

    /// Hands the escaped text out.
    pub fn into_string(self) -> (r: String)
        ensures
            r@ == self@,
    {
        string_from_chars(self.out.as_slice())
    }
}

/// The label text of a computed bound: `= n` when exact, `>= n` for a
/// lower bound.
pub open spec fn max_label(m: Max) -> Seq<char> {
    match m {
        Max::Exact(n) => seq!['=', ' '] + spec_dec(n as nat),
        Max::LowerBound(n) => seq!['>', '=', ' '] + spec_dec(n as nat),
    }
}

/// The label text of a local frame: the byte count, or `?` when
/// unknown.
pub open spec fn local_label(l: Local) -> Seq<char> {
    match l {
        Local::Exact(n) => spec_dec(n as nat),
        Local::Unknown => seq!['?'],
    }
}

/// Appends the bound label.
pub fn push_max_label(m: Max, out: &mut Vec<char>)
    ensures
        final(out)@ == old(out)@ + max_label(m),
{
    match m {
        Max::Exact(n) => {
            out.push('=');
            out.push(' ');
            push_dec(n, out);
            proof {
                assert(out@ =~= old(out)@ + max_label(m));
            }
        }
        Max::LowerBound(n) => {
            out.push('>');
            out.push('=');
            out.push(' ');
            push_dec(n, out);
            proof {
                assert(out@ =~= old(out)@ + max_label(m));
            }
        }
    }
}

/// Appends the frame label.
pub fn push_local_label(l: Local, out: &mut Vec<char>)
    ensures
        final(out)@ == old(out)@ + local_label(l),
{
    match l {
        Local::Exact(n) => {
            push_dec(n, out);
        }
        Local::Unknown => {
            out.push('?');
            proof {
                assert(out@ =~= old(out)@ + local_label(l));
            }
        }
    }
}

/// Appends the characters of a string slice.
pub fn push_str_chars(s: &str, out: &mut Vec<char>)
    ensures
        final(out)@ == old(out)@ + s@,
{
    let v = chars_of(s);
    let n = v.len();
    let mut i: usize = 0;
    while i < n
        invariant
            i <= n,
            n == v@.len(),
            out@ == old(out)@ + v@.take(i as int),
        decreases n - i,
    {
        proof {
            assert((old(out)@ + v@.take(i as int)).push(v@[i as int]) =~= old(out)@ + v@.take(
                i + 1,
            ));
        }
        out.push(v[i]);
        i = i + 1;
    }
    proof {
        assert(v@.take(n as int) =~= v@);
    }
}

/// The rendered line of one node: its index, a label holding the
/// escaped demangled-or-kept name, the bound when computed, and the
/// frame; synthetic nodes are drawn dashed.
pub open spec fn node_line(i: nat, name: Seq<char>, m: Option<Max>, l: Local, dashed: bool)
    -> Seq<char> {
    seq![' ', ' ', ' ', ' '] + spec_dec(i) + " [label=\""@ + escape_text(name) + (match m {
        Some(m) => "\\nmax "@ + max_label(m),
        None => Seq::<char>::empty(),
    }) + "\\nlocal = "@ + local_label(l) + seq!['"'] + (if dashed {
        " style=dashed"@
    } else {
        Seq::<char>::empty()
    }) + seq![']', '\n']
}

/// Appends the rendered line of one node.
pub fn push_node_line(i: usize, name: &str, m: Option<Max>, l: Local, dashed: bool, out: &mut Vec<
    char,
>)
    ensures
        final(out)@ == old(out)@ + node_line(i as nat, name@, m, l, dashed),
{
    proof {
        reveal_strlit(" [label=\"");
        reveal_strlit("\\nmax ");
        reveal_strlit("\\nlocal = ");
        reveal_strlit(" style=dashed");
    }
    out.push(' ');
    out.push(' ');
    out.push(' ');
    out.push(' ');
    push_dec(i as u64, out);
    push_str_chars(" [label=\"", out);
    // escape the display name into the label
    let ghost before_name = out@;
    let v = chars_of(name);
    let n = v.len();
    let mut k: usize = 0;
    while k < n
        invariant
            k <= n,
            n == v@.len(),
            out@ == before_name + escape_text(v@.take(k as int)),
        decreases n - k,
    {
        proof {
            assert(v@.take(k + 1).drop_last() =~= v@.take(k as int));
            assert(v@.take(k + 1).last() == v@[k as int]);
        }
        if v[k] == '"' {
            out.push('\\');
            out.push('"');
        } else {
            out.push(v[k]);
        }
        proof {
            assert(out@ =~= before_name + escape_text(v@.take(k + 1)));
        }
        k = k + 1;
    }
    proof {
        assert(v@.take(n as int) =~= v@);
    }
    match m {
        Some(m) => {
            push_str_chars("\\nmax ", out);
            push_max_label(m, out);
        }
        None => {}
    }
    push_str_chars("\\nlocal = ", out);
    push_local_label(l, out);
    out.push('"');
    if dashed {
        push_str_chars(" style=dashed", out);
    }
    out.push(']');
    out.push('\n');
    proof {
        assert(out@ =~= old(out)@ + node_line(i as nat, name@, m, l, dashed));
    }
}

/// The rendered line of one edge.
pub open spec fn edge_line(a: nat, b: nat) -> Seq<char> {
    seq![' ', ' ', ' ', ' '] + spec_dec(a) + " -> "@ + spec_dec(b) + seq!['\n']
}

/// Appends the rendered line of one edge.
pub fn push_edge_line(a: usize, b: usize, out: &mut Vec<char>)
    ensures
        final(out)@ == old(out)@ + edge_line(a as nat, b as nat),
{
    proof {
        reveal_strlit(" -> ");
    }
    out.push(' ');
    out.push(' ');
    out.push(' ');
    out.push(' ');
    push_dec(a as u64, out);
    push_str_chars(" -> ", out);
    push_dec(b as u64, out);
    out.push('\n');
    proof {
        assert(out@ =~= old(out)@ + edge_line(a as nat, b as nat));
    }
}

/// The node lines of a graph, in node order.
pub open spec fn node_lines(nodes: Seq<crate::node::Node>, upto: int) -> Seq<char>
    decreases upto,
{
    if upto <= 0 {
        Seq::empty()
    } else {
        node_lines(nodes, upto - 1) + node_line(
            (upto - 1) as nat,
            nodes[upto - 1].name@,
            nodes[upto - 1].max,
            nodes[upto - 1].local,
            nodes[upto - 1].dashed,
        )
    }
}

/// The edge lines of a graph, in edge order.
pub open spec fn edge_lines(edges: Seq<(usize, usize)>, upto: int) -> Seq<char>
    decreases upto,
{
    if upto <= 0 {
        Seq::empty()
    } else {
        edge_lines(edges, upto - 1) + edge_line(
            edges[upto - 1].0 as nat,
            edges[upto - 1].1 as nat,
        )
    }
}

/// One cluster for a cycle: its member indices under a dashed border.
pub open spec fn cluster_members(c: Seq<usize>, upto: int) -> Seq<char>
    decreases upto,
{
    if upto <= 0 {
        Seq::empty()
    } else {
        cluster_members(c, upto - 1) + seq![' ', ' ', ' ', ' ', ' ', ' ', ' ', ' '] + spec_dec(
            c[upto - 1] as nat,
        ) + seq!['\n']
    }
}

/// The rendered block of one cycle cluster.
pub open spec fn cluster_block(k: nat, c: Seq<usize>) -> Seq<char> {
    "\n    subgraph cluster_"@ + spec_dec(k)
        + " {\n        style=dashed\n        fontname=monospace\n        label=\"SCC"@
        + spec_dec(k) + "\"\n"@ + cluster_members(c, c.len() as int) + "    }\n"@
}

/// The cluster blocks of all cycles, in order.
pub open spec fn cluster_blocks(cycles: Seq<Vec<usize>>, upto: int) -> Seq<char>
    decreases upto,
{
    if upto <= 0 {
        Seq::empty()
    } else {
        cluster_blocks(cycles, upto - 1) + cluster_block(
            (upto - 1) as nat,
            cycles[upto - 1]@,
        )
    }
}

/// The whole rendered graph.
pub open spec fn dot_text(g: Graph, cycles: Seq<Vec<usize>>) -> Seq<char> {
    "digraph {\n    node [fontname=monospace shape=box]\n"@ + node_lines(
        g.nodes@,
        g.nodes@.len() as int,
    ) + edge_lines(g.edges@, g.edges@.len() as int) + cluster_blocks(
        cycles,
        cycles.len() as int,
    ) + "}\n"@
}

/// Renders the annotated graph: a header, one labelled line per node,
/// one line per edge, and one dashed cluster per cycle.
pub fn dot(g: &Graph, cycles: &Vec<Vec<usize>>) -> (r: String)
    ensures
        r@ == dot_text(*g, cycles@),
{
    proof {
        reveal_strlit("digraph {\n    node [fontname=monospace shape=box]\n");
        reveal_strlit("\n    subgraph cluster_");
        reveal_strlit(" {\n        style=dashed\n        fontname=monospace\n        label=\"SCC");
        reveal_strlit("\"\n");
        reveal_strlit("    }\n");
        reveal_strlit("}\n");
    }
    let mut out: Vec<char> = Vec::new();
    push_str_chars("digraph {\n    node [fontname=monospace shape=box]\n", &mut out);
    let ghost after_header = out@;
    let n = g.nodes.len();
    let mut i: usize = 0;
    while i < n
        invariant
            i <= n,
            n == g.nodes@.len(),
            out@ == after_header + node_lines(g.nodes@, i as int),
        decreases n - i,
    {
        push_node_line(
            i,
            g.nodes[i].name.as_str(),
            g.nodes[i].max,
            g.nodes[i].local,
            g.nodes[i].dashed,
            &mut out,
        );
        proof {
            assert(out@ =~= after_header + node_lines(g.nodes@, i + 1));
        }
        i = i + 1;
    }
    let ghost after_nodes = out@;
    let ne = g.edges.len();
    let mut e: usize = 0;
    while e < ne
        invariant
            e <= ne,
            ne == g.edges@.len(),
            out@ == after_nodes + edge_lines(g.edges@, e as int),
        decreases ne - e,
    {
        let (a, b) = g.edges[e];
        push_edge_line(a, b, &mut out);
        proof {
            assert(out@ =~= after_nodes + edge_lines(g.edges@, e + 1));
        }
        e = e + 1;
    }
    let ghost after_edges = out@;
    let nc = cycles.len();
    let mut k: usize = 0;
    while k < nc
        invariant
            k <= nc,
            nc == cycles@.len(),
            out@ == after_edges + cluster_blocks(cycles@, k as int),
        decreases nc - k,
    {
        push_str_chars("\n    subgraph cluster_", &mut out);
        push_dec(k as u64, &mut out);
        push_str_chars(
            " {\n        style=dashed\n        fontname=monospace\n        label=\"SCC",
            &mut out,
        );
        push_dec(k as u64, &mut out);
        push_str_chars("\"\n", &mut out);
        let ghost before_members = out@;
        let cm = cycles[k].len();
        let mut j: usize = 0;
        while j < cm
            invariant
                j <= cm,
                0 <= (k as int) < cycles@.len(),
                cm == cycles@[k as int]@.len(),
                out@ == before_members + cluster_members(cycles@[k as int]@, j as int),
            decreases cm - j,
        {
            push_str_chars("        ", &mut out);
            push_dec(cycles[k][j] as u64, &mut out);
            out.push('\n');
            proof {
                reveal_strlit("        ");
                assert("        "@ =~= seq![' ', ' ', ' ', ' ', ' ', ' ', ' ', ' ']);
                assert(out@ =~= before_members + cluster_members(cycles@[k as int]@, j + 1));
            }
            j = j + 1;
        }
        push_str_chars("    }\n", &mut out);
        proof {
            assert(out@ =~= after_edges + cluster_blocks(cycles@, k + 1));
        }
        k = k + 1;
    }
    push_str_chars("}\n", &mut out);
    proof {
        assert(out@ =~= dot_text(*g, cycles@));
    }
    string_from_chars(out.as_slice())
}

} // verus!
