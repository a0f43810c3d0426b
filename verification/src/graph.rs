//! The call graph: an arena of nodes addressed by index, and a list of
//! directed edges.  Nodes and edges are only ever added; filtering
//! builds a fresh graph.

use vstd::prelude::*;
use crate::node::Node;

verus! {

/// A directed graph over an arena of nodes.
pub struct Graph {
    pub nodes: Vec<Node>,
    pub edges: Vec<(usize, usize)>,
}

/// Every edge endpoint names a node.
pub open spec fn edges_wf(nodes_len: int, edges: Seq<(usize, usize)>) -> bool {
    forall|e: int| 0 <= e < edges.len() ==> (#[trigger] edges[e]).0 < nodes_len
        && edges[e].1 < nodes_len
}

/// There is an edge from `u` to `v`.
pub open spec fn spec_has_edge(edges: Seq<(usize, usize)>, u: usize, v: usize) -> bool {
    exists|e: int| 0 <= e < edges.len() && #[trigger] edges[e] == (u, v)
}

/// The targets of the edges leaving `u`, in edge order.
pub open spec fn succs_of(edges: Seq<(usize, usize)>, u: usize) -> Seq<usize>
    decreases edges,
{
    if edges.len() == 0 {
        Seq::empty()
    } else {
        let init = succs_of(edges.drop_last(), u);
        if edges.last().0 == u {
            init.push(edges.last().1)
        } else {
            init
        }
    }
}

/// The successor list holds exactly the edge targets from `u`.
pub proof fn lemma_succs_of_complete(edges: Seq<(usize, usize)>, u: usize)
    ensures
        forall|v: usize| succs_of(edges, u).contains(v) <==> spec_has_edge(edges, u, v),
        forall|k: int| 0 <= k < succs_of(edges, u).len() ==> spec_has_edge(
            edges,
            u,
            #[trigger] succs_of(edges, u)[k],
        ),
    decreases edges,
{
    if edges.len() > 0 {
        lemma_succs_of_complete(edges.drop_last(), u);
        let head = edges.drop_last();
        assert forall|v: usize| succs_of(edges, u).contains(v) implies spec_has_edge(
            edges,
            u,
            v,
        ) by {
            if succs_of(head, u).contains(v) {
                let e = choose|e: int| 0 <= e < head.len() && #[trigger] head[e] == (u, v);
                assert(edges[e] == (u, v));
            } else {
                assert(edges[edges.len() - 1] == (u, v));
            }
        }
        assert forall|v: usize| spec_has_edge(edges, u, v) implies succs_of(edges, u).contains(
            v,
        ) by {
            let e = choose|e: int| 0 <= e < edges.len() && #[trigger] edges[e] == (u, v);
            if e < edges.len() - 1 {
                assert(head[e] == (u, v));
                assert(spec_has_edge(head, u, v));
                assert(succs_of(head, u).contains(v));
                let k = choose|k: int| 0 <= k < succs_of(head, u).len() && succs_of(head, u)[k]
                    == v;
                assert(succs_of(edges, u)[k] == v);
            } else {
                assert(succs_of(edges, u).last() == v);
            }
        }
        assert forall|k: int| 0 <= k < succs_of(edges, u).len() implies spec_has_edge(
            edges,
            u,
            #[trigger] succs_of(edges, u)[k],
        ) by {
            assert(succs_of(edges, u).contains(succs_of(edges, u)[k]));
        }
    }
}

impl Graph {
    /// All edges stay inside the arena.
    pub open spec fn wf(self) -> bool {
        edges_wf(self.nodes@.len() as int, self.edges@)
    }

    /// The empty graph.
    pub fn new() -> (r: Graph)
        ensures
            r.nodes@.len() == 0,
            r.edges@.len() == 0,
            r.wf(),
    {
        Graph { nodes: Vec::new(), edges: Vec::new() }
    }

    /// Number of nodes.
    pub fn node_count(&self) -> (r: usize)
        ensures
            r == self.nodes@.len(),
    {
        self.nodes.len()
    }

    /// Appends a node and hands back its index.
    pub fn add_node(&mut self, node: Node) -> (idx: usize)
        requires
            old(self).wf(),
        ensures
            final(self).nodes@ == old(self).nodes@.push(node),
            final(self).edges@ == old(self).edges@,
            idx == old(self).nodes@.len(),
            final(self).wf(),
    {
        let idx = self.nodes.len();
        self.nodes.push(node);
        idx
    }

    /// Appends a directed edge between two existing nodes.
    pub fn add_edge(&mut self, from: usize, to: usize)
        requires
            old(self).wf(),
            from < old(self).nodes@.len(),
            to < old(self).nodes@.len(),
        ensures
            final(self).nodes@ == old(self).nodes@,
            final(self).edges@ == old(self).edges@.push((from, to)),
            final(self).wf(),
    {
        self.edges.push((from, to));
    }

    /// Is there an edge from `u` to `v`?
    pub fn has_edge(&self, u: usize, v: usize) -> (r: bool)
        ensures
            r == spec_has_edge(self.edges@, u, v),
    {
        let n = self.edges.len();
        let mut e: usize = 0;
        while e < n
            invariant
                e <= n,
                n == self.edges@.len(),
                forall|k: int| 0 <= k < e ==> self.edges@[k] != (u, v),
            decreases n - e,
        {
            let (a, b) = self.edges[e];
            if a == u && b == v {
                return true;
            }
            e = e + 1;
        }
        false
    }

    /// The targets of the edges leaving `u`, in edge order.
    pub fn successors(&self, u: usize) -> (r: Vec<usize>)
        ensures
            r@ == succs_of(self.edges@, u),
    {
        let n = self.edges.len();
        let mut r: Vec<usize> = Vec::new();
        let mut e: usize = 0;
        while e < n
            invariant
                e <= n,
                n == self.edges@.len(),
                r@ == succs_of(self.edges@.take(e as int), u),
            decreases n - e,
        {
            proof {
                assert(self.edges@.take(e + 1).drop_last() =~= self.edges@.take(e as int));
            }
            let (a, b) = self.edges[e];
            if a == u {
                r.push(b);
            }
            e = e + 1;
        }
        proof {
            assert(self.edges@.take(n as int) =~= self.edges@);
        }
        r
    }
}

/// `p` is a path through the edges: consecutive entries are joined.
pub open spec fn path_ok(edges: Seq<(usize, usize)>, p: Seq<usize>) -> bool {
    p.len() > 0 && forall|k: int|
        0 <= k < p.len() - 1 ==> spec_has_edge(edges, #[trigger] p[k], p[k + 1])
}

/// `v` can be reached from `s` along the edges.
pub open spec fn spec_reachable(edges: Seq<(usize, usize)>, s: usize, v: usize) -> bool {
    exists|p: Seq<usize>| #[trigger] path_ok(edges, p) && p[0] == s && p.last() == v
}

/// Every node reaches itself.
pub proof fn lemma_reach_refl(edges: Seq<(usize, usize)>, s: usize)
    ensures
        spec_reachable(edges, s, s),
{
    let p: Seq<usize> = seq![s];
    assert(path_ok(edges, p));
    assert(p[0] == s && p.last() == s);
}

/// Reachability extends along an edge.
pub proof fn lemma_reach_step(edges: Seq<(usize, usize)>, s: usize, u: usize, v: usize)
    requires
        spec_reachable(edges, s, u),
        spec_has_edge(edges, u, v),
    ensures
        spec_reachable(edges, s, v),
{
    let p = choose|p: Seq<usize>| #[trigger] path_ok(edges, p) && p[0] == s && p.last() == u;
    let p2 = p.push(v);
    assert(path_ok(edges, p2)) by {
        assert forall|k: int|
            0 <= k < p2.len() - 1 implies spec_has_edge(edges, #[trigger] p2[k], p2[k + 1]) by {
            if k < p.len() - 1 {
                assert(p2[k] == p[k] && p2[k + 1] == p[k + 1]);
            } else {
                assert(p2[k] == p.last() && p2[k + 1] == v);
            }
        }
    }
    assert(p2[0] == s && p2.last() == v);
}

/// A set of nodes that holds the start of a path and is closed under
/// the edges holds the path's end.
proof fn lemma_path_covers(edges: Seq<(usize, usize)>, members: Seq<usize>, p: Seq<usize>)
    requires
        path_ok(edges, p),
        members.contains(p[0]),
        forall|u: usize, w: usize|
            #![trigger members.contains(u), spec_has_edge(edges, u, w)]
            members.contains(u) && spec_has_edge(edges, u, w) ==> members.contains(w),
    ensures
        members.contains(p.last()),
    decreases p.len(),
{
    if p.len() > 1 {
        let q = p.drop_last();
        assert(path_ok(edges, q)) by {
            assert forall|k: int|
                0 <= k < q.len() - 1 implies spec_has_edge(edges, #[trigger] q[k], q[k + 1]) by {
                assert(q[k] == p[k] && q[k + 1] == p[k + 1]);
            }
        }
        assert(q[0] == p[0]);
        lemma_path_covers(edges, members, q);
        assert(spec_has_edge(edges, p[p.len() - 2], p[p.len() - 1]));
        assert(members.contains(p[p.len() - 2]));
    }
}

/// A set of nodes that holds `start` and is closed under the edges
/// holds everything reachable from `start`.
pub proof fn lemma_closed_covers(
    edges: Seq<(usize, usize)>,
    members: Seq<usize>,
    start: usize,
    v: usize,
)
    requires
        members.contains(start),
        forall|u: usize, w: usize|
            #![trigger members.contains(u), spec_has_edge(edges, u, w)]
            members.contains(u) && spec_has_edge(edges, u, w) ==> members.contains(w),
        spec_reachable(edges, start, v),
    ensures
        members.contains(v),
{
    let p = choose|p: Seq<usize>| #[trigger] path_ok(edges, p) && p[0] == start && p.last() == v;
    lemma_path_covers(edges, members, p);
}

/// `val` is the image of some old edge between kept nodes seen so far.
pub open spec fn edge_has_source(
    gedges: Seq<(usize, usize)>,
    newidx: Seq<usize>,
    map: Seq<usize>,
    upto: int,
    val: (usize, usize),
) -> bool {
    exists|e2: int|
        0 <= e2 < upto && map.contains(#[trigger] gedges[e2].0) && map.contains(gedges[e2].1)
            && val == (newidx[gedges[e2].0 as int], newidx[gedges[e2].1 as int])
}

/// `val` occurs among the new edges.
pub open spec fn edge_present(g2edges: Seq<(usize, usize)>, val: (usize, usize)) -> bool {
    exists|x: int| 0 <= x < g2edges.len() && #[trigger] g2edges[x] == val
}

/// Every new edge is the image of an old edge between kept nodes seen
/// so far.
pub open spec fn edges_imaged(
    gedges: Seq<(usize, usize)>,
    g2edges: Seq<(usize, usize)>,
    newidx: Seq<usize>,
    map: Seq<usize>,
    upto: int,
) -> bool {
    forall|x: int|
        0 <= x < g2edges.len() ==> edge_has_source(
            gedges,
            newidx,
            map,
            upto,
            #[trigger] g2edges[x],
        )
}

/// Every old edge between kept nodes seen so far has its image among
/// the new edges.
pub open spec fn edges_covered(
    gedges: Seq<(usize, usize)>,
    g2edges: Seq<(usize, usize)>,
    newidx: Seq<usize>,
    map: Seq<usize>,
    upto: int,
) -> bool {
    forall|e2: int|
        0 <= e2 < upto && map.contains(#[trigger] gedges[e2].0) ==> edge_present(
            g2edges,
            (newidx[gedges[e2].0 as int], newidx[gedges[e2].1 as int]),
        )
}

/// Distinct indices below `n` cannot number more than `n`.
proof fn lemma_distinct_bounded(s: Seq<usize>, n: nat)
    requires
        forall|i: int| 0 <= i < s.len() ==> (#[trigger] s[i]) < n,
        forall|i: int, j: int| 0 <= i < s.len() && 0 <= j < s.len() && i != j ==> s[i] != s[j],
    ensures
        s.len() <= n,
{
    let si = Seq::new(s.len(), |i: int| s[i] as int);
    assert(si.no_duplicates()) by {
        assert forall|i: int, j: int|
            0 <= i < si.len() && 0 <= j < si.len() && i != j implies si[i] != si[j] by {
            assert(s[i] != s[j]);
        }
    }
    si.unique_seq_to_set();
    let range = vstd::set_lib::set_int_range(0, n as int);
    vstd::set_lib::lemma_int_range(0, n as int);
    assert(si.to_set().subset_of(range)) by {
        assert forall|e: int| si.to_set().contains(e) implies range.contains(e) by {
            let i = choose|i: int| 0 <= i < si.len() && si[i] == e;
            assert(s[i] < n);
        }
    }
    vstd::set_lib::lemma_len_subset(si.to_set(), range);
}

/// The subgraph reachable from `start`: a fresh graph over exactly the
/// reachable nodes, and the map from each new index to the old one.
/// The kept nodes are reachable, form an edge-closed set holding the
/// start, and carry the old payloads; edges survive exactly between
/// kept nodes.
#[verifier::rlimit(100)]
#[verifier::spinoff_prover]
pub fn filter_reachable(g: &Graph, start: usize) -> (r: (Graph, Vec<usize>))
    requires
        g.wf(),
        start < g.nodes@.len(),
    ensures
        ({
            let (g2, map) = r;
            &&& g2.wf()
            &&& map@.len() == g2.nodes@.len()
            &&& map@.contains(start)
            &&& (forall|i: int| 0 <= i < map@.len() ==> (#[trigger] map@[i]) < g.nodes@.len())
            &&& (forall|i: int, j: int|
                0 <= i < map@.len() && 0 <= j < map@.len() && i != j ==> map@[i] != map@[j])
            &&& (forall|i: int|
                0 <= i < map@.len() ==> {
                    let pre = g.nodes@[map@[i] as int];
                    let post = (#[trigger] g2.nodes@[i]);
                    post.name@ == pre.name@ && post.local == pre.local && post.max == pre.max
                        && post.dashed == pre.dashed
                })
            &&& (forall|i: int| 0 <= i < map@.len() ==> spec_reachable(
                g.edges@,
                start,
                #[trigger] map@[i],
            ))
            &&& (forall|u: usize, w: usize|
                #![trigger map@.contains(u), spec_has_edge(g.edges@, u, w)]
                map@.contains(u) && spec_has_edge(g.edges@, u, w) ==> map@.contains(w))
            &&& (forall|i: usize, j: usize|
                #![trigger spec_has_edge(g2.edges@, i, j)]
                i < map@.len() && j < map@.len() ==> (spec_has_edge(g2.edges@, i, j)
                    == spec_has_edge(g.edges@, map@[i as int], map@[j as int])))
        }),
{
    let n = g.node_count();
    let mut visited: Vec<bool> = Vec::new();
    let mut newidx: Vec<usize> = Vec::new();
    let mut i: usize = 0;
    while i < n
        invariant
            i <= n,
            visited@.len() == i,
            newidx@.len() == i,
            forall|j: int| 0 <= j < i ==> !(#[trigger] visited@[j]),
        decreases n - i,
    {
        visited.push(false);
        newidx.push(0);
        i = i + 1;
    }
    let mut map: Vec<usize> = Vec::new();
    let mut stack: Vec<usize> = Vec::new();
    visited[start] = true;
    newidx[start] = 0;
    map.push(start);
    stack.push(start);
    proof {
        lemma_reach_refl(g.edges@, start);
        assert(map@[0] == start);
        assert(map@.contains(start));
        assert(stack@[0] == start);
        assert(stack@.contains(start));
        assert forall|v: usize| v < n implies (visited@[v as int] <==> map@.contains(v)) by {
            if map@.contains(v) {
                let x = choose|x: int| 0 <= x < map@.len() && map@[x] == v;
                assert(x == 0);
            }
            if v == start {
                assert(map@[0] == v);
            }
        }
        assert forall|x: int| 0 <= x < map@.len() implies spec_reachable(
            g.edges@,
            start,
            #[trigger] map@[x],
        ) by {
            assert(map@[x] == start);
        }
    }
    loop
        invariant_except_break
            g.wf(),
            n == g.nodes@.len(),
            visited@.len() == n,
            newidx@.len() == n,
            map@.contains(start),
            map@.len() <= n,
            forall|x: int| 0 <= x < map@.len() ==> (#[trigger] map@[x]) < n,
            forall|x: int, y: int|
                0 <= x < map@.len() && 0 <= y < map@.len() && x != y ==> map@[x] != map@[y],
            forall|v: usize| v < n ==> (visited@[v as int] <==> map@.contains(v)),
            forall|x: int| 0 <= x < map@.len() ==> newidx@[(#[trigger] map@[x]) as int] == x,
            forall|x: int| 0 <= x < map@.len() ==> spec_reachable(
                g.edges@,
                start,
                #[trigger] map@[x],
            ),
            forall|e: int| 0 <= e < stack@.len() ==> (#[trigger] stack@[e]) < n
                && visited@[stack@[e] as int],
            forall|e: int, f: int|
                0 <= e < stack@.len() && 0 <= f < stack@.len() && e != f ==> stack@[e]
                    != stack@[f],
            forall|u: usize, w: usize|
                #![trigger visited@[u as int], spec_has_edge(g.edges@, u, w)]
                u < n && visited@[u as int] && !stack@.contains(u) && spec_has_edge(
                    g.edges@,
                    u,
                    w,
                ) ==> visited@[w as int],
        ensures
            g.wf(),
            n == g.nodes@.len(),
            visited@.len() == n,
            newidx@.len() == n,
            map@.contains(start),
            forall|x: int| 0 <= x < map@.len() ==> (#[trigger] map@[x]) < n,
            forall|x: int, y: int|
                0 <= x < map@.len() && 0 <= y < map@.len() && x != y ==> map@[x] != map@[y],
            forall|v: usize| v < n ==> (visited@[v as int] <==> map@.contains(v)),
            forall|x: int| 0 <= x < map@.len() ==> newidx@[(#[trigger] map@[x]) as int] == x,
            forall|x: int| 0 <= x < map@.len() ==> spec_reachable(
                g.edges@,
                start,
                #[trigger] map@[x],
            ),
            forall|u: usize, w: usize|
                #![trigger visited@[u as int], spec_has_edge(g.edges@, u, w)]
                u < n && visited@[u as int] && spec_has_edge(g.edges@, u, w) ==> visited@[
                    w as int
                ],
        decreases n - map@.len(), stack@.len(),
    {
        if stack.len() == 0 {
            break ;
        }
        let ghost pre_map = map@;
        let ghost pre_stack = stack@;
        let u = match stack.pop() {
            Some(u) => u,
            None => {
                proof {
                    assert(false);
                }
                0
            }
        };
        proof {
            assert(stack@ == pre_stack.drop_last() && u == pre_stack.last());
            if stack@.contains(u) {
                let e = choose|e: int| 0 <= e < stack@.len() && stack@[e] == u;
                assert(pre_stack[e] == u && pre_stack[pre_stack.len() - 1] == u);
                assert(false);
            }
            assert forall|u2: usize, w: usize|
                #![trigger visited@[u2 as int], spec_has_edge(g.edges@, u2, w)]
                u2 < n && u2 != u && visited@[u2 as int] && !stack@.contains(u2)
                    && spec_has_edge(g.edges@, u2, w) implies visited@[w as int] by {
                if pre_stack.contains(u2) {
                    let e = choose|e: int| 0 <= e < pre_stack.len() && pre_stack[e] == u2;
                    assert(e < pre_stack.len() - 1 ==> stack@[e] == u2);
                    assert(e == pre_stack.len() - 1 ==> u2 == u);
                    assert(false);
                }
            }
        }
        let succs = g.successors(u);
        let ghost svs = succs_of(g.edges@, u);
        proof {
            lemma_succs_of_complete(g.edges@, u);
            assert(map@.contains(u));
        }
        let ns = succs.len();
        let mut si: usize = 0;
        while si < ns
            invariant
                si <= ns,
                ns == svs.len(),
                succs@ == svs,
                svs == succs_of(g.edges@, u),
                g.wf(),
                n == g.nodes@.len(),
                u < n,
                map@.contains(u),
                visited@.len() == n,
                newidx@.len() == n,
                map@.contains(start),
                map@.len() <= n,
                pre_map.len() <= map@.len(),
                map@.take(pre_map.len() as int) == pre_map,
                stack@.len() + pre_map.len() + 1 == pre_stack.len() + map@.len(),
                forall|x: int| 0 <= x < map@.len() ==> (#[trigger] map@[x]) < n,
                forall|x: int, y: int|
                    0 <= x < map@.len() && 0 <= y < map@.len() && x != y ==> map@[x] != map@[y],
                forall|v: usize| v < n ==> (visited@[v as int] <==> map@.contains(v)),
                forall|x: int| 0 <= x < map@.len() ==> newidx@[(#[trigger] map@[x]) as int]
                    == x,
                forall|x: int| 0 <= x < map@.len() ==> spec_reachable(
                    g.edges@,
                    start,
                    #[trigger] map@[x],
                ),
                forall|e: int| 0 <= e < stack@.len() ==> (#[trigger] stack@[e]) < n
                    && visited@[stack@[e] as int],
                forall|e: int, f: int|
                    0 <= e < stack@.len() && 0 <= f < stack@.len() && e != f ==> stack@[e]
                        != stack@[f],
                !stack@.contains(u),
                forall|u2: usize, w: usize|
                    #![trigger visited@[u2 as int], spec_has_edge(g.edges@, u2, w)]
                    u2 < n && u2 != u && visited@[u2 as int] && !stack@.contains(u2)
                        && spec_has_edge(g.edges@, u2, w) ==> visited@[w as int],
                forall|k: int| 0 <= k < si ==> visited@[(#[trigger] svs[k]) as int],
            decreases ns - si,
        {
            let v = succs[si];
            proof {
                lemma_succs_of_complete(g.edges@, u);
                assert(svs.contains(svs[si as int]));
                assert(spec_has_edge(g.edges@, u, v));
            }
            if !visited[v] {
                let ghost vis0 = visited@;
                let ghost stk0 = stack@;
                let ghost old_map = map@;
                visited[v] = true;
                newidx[v] = map.len();
                map.push(v);
                stack.push(v);
                proof {
                    lemma_reach_step(g.edges@, start, u, v);
                    assert(!vis0[v as int]);
                    assert(!old_map.contains(v));
                    lemma_distinct_bounded(map@, n as nat);
                    assert(map@.take(pre_map.len() as int) =~= old_map.take(
                        pre_map.len() as int,
                    ));
                    assert forall|v2: usize| v2 < n implies (visited@[v2 as int]
                        <==> map@.contains(v2)) by {
                        if v2 == v {
                            assert(map@[map@.len() - 1] == v);
                        } else {
                            if old_map.contains(v2) {
                                let x = choose|x: int|
                                    0 <= x < old_map.len() && old_map[x] == v2;
                                assert(map@[x] == v2);
                            }
                            if map@.contains(v2) {
                                let x = choose|x: int| 0 <= x < map@.len() && map@[x] == v2;
                                assert(x < old_map.len());
                                assert(old_map[x] == v2);
                            }
                        }
                    }
                    assert forall|x: int|
                        0 <= x < map@.len() implies newidx@[(#[trigger] map@[x]) as int]
                        == x by {
                        if x < old_map.len() {
                            assert(map@[x] == old_map[x]);
                            assert(vis0[old_map[x] as int]) by {
                                assert(old_map.contains(old_map[x]));
                            }
                            assert(old_map[x] != v);
                        } else {
                            assert(map@[x] == v);
                        }
                    }
                    assert forall|e: int, f: int|
                        0 <= e < stack@.len() && 0 <= f < stack@.len() && e != f implies stack@[
                        e] != stack@[f] by {
                        if f == stk0.len() as int {
                            assert(stack@[f] == v);
                            assert(vis0[stk0[e] as int]);
                        } else if e == stk0.len() as int {
                            assert(stack@[e] == v);
                            assert(vis0[stk0[f] as int]);
                        } else {
                            assert(stack@[e] == stk0[e] && stack@[f] == stk0[f]);
                        }
                    }
                    assert(!stack@.contains(u)) by {
                        if stack@.contains(u) {
                            let e = choose|e: int| 0 <= e < stack@.len() && stack@[e] == u;
                            if e < stk0.len() {
                                assert(stk0[e] == u);
                                assert(stk0.contains(u));
                            } else {
                                assert(u == v);
                                assert(vis0[u as int]);
                            }
                        }
                    }
                    assert forall|u2: usize, w: usize|
                        #![trigger visited@[u2 as int], spec_has_edge(g.edges@, u2, w)]
                        u2 < n && u2 != u && visited@[u2 as int] && !stack@.contains(u2)
                            && spec_has_edge(g.edges@, u2, w) implies visited@[w as int] by {
                        if u2 == v {
                            assert(stack@[stack@.len() - 1] == v);
                            assert(stack@.contains(u2));
                        } else {
                            assert(vis0[u2 as int]);
                            assert(!stk0.contains(u2)) by {
                                if stk0.contains(u2) {
                                    let e = choose|e: int|
                                        0 <= e < stk0.len() && stk0[e] == u2;
                                    assert(stack@[e] == u2);
                                    assert(stack@.contains(u2));
                                }
                            }
                            assert(vis0[w as int]);
                        }
                    }
                    assert forall|k: int| 0 <= k < si + 1 implies visited@[(
                    #[trigger] svs[k]) as int] by {
                        if k < si {
                            assert(vis0[svs[k] as int]);
                        } else {
                            assert(svs[k] == v);
                        }
                    }
                }
            }
            proof {
                assert(visited@[(svs[si as int]) as int]);
            }
            si = si + 1;
        }
        proof {
            // u's successors are now all visited
            assert forall|u2: usize, w: usize|
                #![trigger visited@[u2 as int], spec_has_edge(g.edges@, u2, w)]
                u2 < n && visited@[u2 as int] && !stack@.contains(u2) && spec_has_edge(
                    g.edges@,
                    u2,
                    w,
                ) implies visited@[w as int] by {
                if u2 == u {
                    assert(svs.contains(w));
                    let k = choose|k: int| 0 <= k < svs.len() && svs[k] == w;
                    assert(visited@[svs[k] as int]);
                }
            }
            if map@.len() == pre_map.len() {
                assert(map@.take(pre_map.len() as int) =~= map@);
                assert(map@ == pre_map);
                assert(stack@.len() < pre_stack.len());
            } else {
                assert(map@.len() > pre_map.len());
            }
        }
    }
    // assemble the kept subgraph
    let mut g2 = Graph::new();
    let nm = map.len();
    let mut i: usize = 0;
    while i < nm
        invariant
            i <= nm,
            nm == map@.len(),
            g.wf(),
            g2.wf(),
            g2.nodes@.len() == i,
            g2.edges@.len() == 0,
            forall|x: int| 0 <= x < map@.len() ==> (#[trigger] map@[x]) < g.nodes@.len(),
            forall|x: int|
                0 <= x < i ==> {
                    let pre = g.nodes@[map@[x] as int];
                    let post = (#[trigger] g2.nodes@[x]);
                    post.name@ == pre.name@ && post.local == pre.local && post.max == pre.max
                        && post.dashed == pre.dashed
                },
        decreases nm - i,
    {
        g2.add_node(g.nodes[map[i]].duplicate());
        i = i + 1;
    }
    let ne = g.edges.len();
    let mut e: usize = 0;
    while e < ne
        invariant
            ne == g.edges@.len(),
            e <= ne,
            g.wf(),
            g2.wf(),
            n == g.nodes@.len(),
            nm == map@.len(),
            g2.nodes@.len() == nm,
            visited@.len() == n,
            newidx@.len() == n,
            forall|x: int| 0 <= x < map@.len() ==> (#[trigger] map@[x]) < n,
            forall|x: int, y: int|
                0 <= x < map@.len() && 0 <= y < map@.len() && x != y ==> map@[x] != map@[y],
            forall|v: usize| v < n ==> (visited@[v as int] <==> map@.contains(v)),
            forall|x: int| 0 <= x < map@.len() ==> newidx@[(#[trigger] map@[x]) as int] == x,
            forall|u: usize, w: usize|
                #![trigger visited@[u as int], spec_has_edge(g.edges@, u, w)]
                u < n && visited@[u as int] && spec_has_edge(g.edges@, u, w) ==> visited@[
                    w as int
                ],
            forall|x: int|
                0 <= x < nm ==> {
                    let pre = g.nodes@[map@[x] as int];
                    let post = (#[trigger] g2.nodes@[x]);
                    post.name@ == pre.name@ && post.local == pre.local && post.max == pre.max
                        && post.dashed == pre.dashed
                },
            // the new edges so far mirror the old edges seen
            edges_imaged(g.edges@, g2.edges@, newidx@, map@, e as int),
            edges_covered(g.edges@, g2.edges@, newidx@, map@, e as int),
        decreases ne - e,
    {
        let ghost pre_edges = g2.edges@;
        let (a, b) = g.edges[e];
        if visited[a] {
            proof {
                assert(spec_has_edge(g.edges@, a, b));
                assert(visited@[b as int]);
                assert(map@.contains(a) && map@.contains(b));
                let xa = choose|x: int| 0 <= x < map@.len() && map@[x] == a;
                assert(newidx@[a as int] == xa);
                let xb = choose|x: int| 0 <= x < map@.len() && map@[x] == b;
                assert(newidx@[b as int] == xb);
            }
            g2.add_edge(newidx[a], newidx[b]);
            proof {
                assert(g2.edges@.last() == (newidx@[a as int], newidx@[b as int]));
                assert(g.edges@[e as int] == (a, b));
                assert(edges_imaged(g.edges@, g2.edges@, newidx@, map@, e + 1)) by {
                    assert forall|x: int|
                        0 <= x < g2.edges@.len() implies edge_has_source(
                        g.edges@,
                        newidx@,
                        map@,
                        e + 1,
                        #[trigger] g2.edges@[x],
                    ) by {
                        if x < pre_edges.len() {
                            assert(g2.edges@[x] == pre_edges[x]);
                            assert(edge_has_source(g.edges@, newidx@, map@, e as int, pre_edges[x]));
                            let e2 = choose|e2: int|
                                0 <= e2 < e && map@.contains(#[trigger] g.edges@[e2].0)
                                    && map@.contains(g.edges@[e2].1) && pre_edges[x] == (
                                newidx@[g.edges@[e2].0 as int],
                                newidx@[g.edges@[e2].1 as int],
                                );
                            assert(0 <= e2 < e + 1 && map@.contains(g.edges@[e2].0)
                                && map@.contains(g.edges@[e2].1) && g2.edges@[x] == (
                            newidx@[g.edges@[e2].0 as int],
                            newidx@[g.edges@[e2].1 as int],
                            ));
                        } else {
                            assert(0 <= e < e + 1 && map@.contains(g.edges@[e as int].0)
                                && map@.contains(g.edges@[e as int].1) && g2.edges@[x] == (
                            newidx@[g.edges@[e as int].0 as int],
                            newidx@[g.edges@[e as int].1 as int],
                            ));
                        }
                    }
                }
                assert(edges_covered(g.edges@, g2.edges@, newidx@, map@, e + 1)) by {
                    assert forall|e2: int|
                        0 <= e2 < e + 1 && map@.contains(#[trigger] g.edges@[e2].0)
                            implies edge_present(
                        g2.edges@,
                        (newidx@[g.edges@[e2].0 as int], newidx@[g.edges@[e2].1 as int]),
                    ) by {
                        if e2 == e {
                            assert(g2.edges@[g2.edges@.len() - 1] == (
                                newidx@[a as int],
                                newidx@[b as int],
                            ));
                        } else {
                            assert(edge_present(
                                pre_edges,
                                (
                                newidx@[g.edges@[e2].0 as int],
                                newidx@[g.edges@[e2].1 as int],
                                ),
                            ));
                            let x = choose|x: int|
                                0 <= x < pre_edges.len() && #[trigger] pre_edges[x] == (
                                newidx@[g.edges@[e2].0 as int],
                                newidx@[g.edges@[e2].1 as int],
                                );
                            assert(g2.edges@[x] == pre_edges[x]);
                        }
                    }
                }
            }
        } else {
            proof {
                assert(edges_imaged(g.edges@, g2.edges@, newidx@, map@, e + 1)) by {
                    assert forall|x: int|
                        0 <= x < g2.edges@.len() implies edge_has_source(
                        g.edges@,
                        newidx@,
                        map@,
                        e + 1,
                        #[trigger] g2.edges@[x],
                    ) by {
                        assert(edge_has_source(
                            g.edges@,
                            newidx@,
                            map@,
                            e as int,
                            g2.edges@[x],
                        ));
                        let e2 = choose|e2: int|
                            0 <= e2 < e && map@.contains(#[trigger] g.edges@[e2].0)
                                && map@.contains(g.edges@[e2].1) && g2.edges@[x] == (
                            newidx@[g.edges@[e2].0 as int],
                            newidx@[g.edges@[e2].1 as int],
                            );
                        assert(0 <= e2 < e + 1);
                    }
                }
                assert(edges_covered(g.edges@, g2.edges@, newidx@, map@, e + 1)) by {
                    assert forall|e2: int|
                        0 <= e2 < e + 1 && map@.contains(#[trigger] g.edges@[e2].0)
                            implies edge_present(
                        g2.edges@,
                        (newidx@[g.edges@[e2].0 as int], newidx@[g.edges@[e2].1 as int]),
                    ) by {
                        if e2 == e {
                            assert(visited@[a as int]);
                            assert(false);
                        }
                    }
                }
            }
        }
        e = e + 1;
    }
    proof {
        // each direction of the edge correspondence
        assert forall|i2: usize, j2: usize|
            #![trigger spec_has_edge(g2.edges@, i2, j2)]
            i2 < map@.len() && j2 < map@.len() implies (spec_has_edge(g2.edges@, i2, j2)
            == spec_has_edge(g.edges@, map@[i2 as int], map@[j2 as int])) by {
            if spec_has_edge(g2.edges@, i2, j2) {
                let x = choose|x: int|
                    0 <= x < g2.edges@.len() && #[trigger] g2.edges@[x] == (i2, j2);
                assert(edge_has_source(g.edges@, newidx@, map@, ne as int, g2.edges@[x]));
                let e2 = choose|e2: int|
                    0 <= e2 < ne && map@.contains(#[trigger] g.edges@[e2].0) && map@.contains(
                        g.edges@[e2].1,
                    ) && g2.edges@[x] == (
                    newidx@[g.edges@[e2].0 as int],
                    newidx@[g.edges@[e2].1 as int],
                    );
                let a = g.edges@[e2].0;
                let b = g.edges@[e2].1;
                let xa = choose|y: int| 0 <= y < map@.len() && map@[y] == a;
                let xb = choose|y: int| 0 <= y < map@.len() && map@[y] == b;
                assert(newidx@[a as int] == xa && newidx@[b as int] == xb);
                assert(i2 as int == xa && j2 as int == xb);
                assert(map@[i2 as int] == a && map@[j2 as int] == b);
                assert(spec_has_edge(g.edges@, map@[i2 as int], map@[j2 as int]));
            }
            if spec_has_edge(g.edges@, map@[i2 as int], map@[j2 as int]) {
                let a = map@[i2 as int];
                let b = map@[j2 as int];
                let e2 = choose|e2: int|
                    0 <= e2 < g.edges@.len() && #[trigger] g.edges@[e2] == (a, b);
                assert(map@.contains(a));
                assert(edge_present(
                    g2.edges@,
                    (newidx@[g.edges@[e2].0 as int], newidx@[g.edges@[e2].1 as int]),
                ));
                let x = choose|x: int|
                    0 <= x < g2.edges@.len() && #[trigger] g2.edges@[x] == (
                    newidx@[g.edges@[e2].0 as int],
                    newidx@[g.edges@[e2].1 as int],
                    );
                assert(newidx@[a as int] == i2 as int && newidx@[b as int] == j2 as int);
                assert(g2.edges@[x] == (i2, j2));
                assert(spec_has_edge(g2.edges@, i2, j2));
            }
        }
        assert forall|u: usize, w: usize|
            #![trigger map@.contains(u), spec_has_edge(g.edges@, u, w)]
            map@.contains(u) && spec_has_edge(g.edges@, u, w) implies map@.contains(w) by {
            assert(visited@[u as int]);
        }
    }
    (g2, map)
}

} // verus!
