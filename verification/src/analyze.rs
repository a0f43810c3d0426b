//! Stack-bound analysis: computes, for every node, a bound on the stack
//! depth of any call chain rooted there.  Cycles are handled by
//! strongly-connected-component reduction: a component's combined frame
//! is downgraded to a lower bound unless it is exactly zero, and the
//! components are visited in reverse topological order so that every
//! out-neighbor outside a component is already bounded.

use vstd::prelude::*;
use crate::graph::{
    edges_wf, lemma_succs_of_complete, spec_has_edge, spec_reachable, succs_of, Graph,
};
use crate::metrics::{
    max_of, spec_add_local_total, spec_add_max_total, spec_downgrade, spec_lift, spec_max_of,
    Local, Max,
};
use crate::node::Node;

verus! {

/// The views of a list of components.
pub open spec fn sccs_view(s: Seq<Vec<usize>>) -> Seq<Seq<usize>> {
    Seq::new(s.len(), |k: int| s[k]@)
}

/// Some component holds `v`.
pub open spec fn covered(sccs: Seq<Seq<usize>>, v: usize) -> bool {
    exists|k: int| #[trigger] in_comp(sccs, k, v)
}

/// Node `v` belongs to component `k`.
pub open spec fn in_comp(sccs: Seq<Seq<usize>>, k: int, v: usize) -> bool {
    0 <= k < sccs.len() && sccs[k].contains(v)
}

/// The components are nonempty, stay below `n`, and hold every node
/// below `n` exactly once.
pub open spec fn is_partition(n: int, sccs: Seq<Seq<usize>>) -> bool {
    &&& forall|k: int| 0 <= k < sccs.len() ==> (#[trigger] sccs[k]).len() > 0
    &&& forall|k: int, j: int|
        0 <= k < sccs.len() && 0 <= j < sccs[k].len() ==> (#[trigger] sccs[k][j]) < n
    &&& forall|v: usize| v < n ==> #[trigger] covered(sccs, v)
    &&& forall|k1: int, j1: int, k2: int, j2: int|
        #![trigger sccs[k1][j1], sccs[k2][j2]]
        0 <= k1 < sccs.len() && 0 <= j1 < sccs[k1].len() && 0 <= k2 < sccs.len() && 0 <= j2
            < sccs[k2].len() && sccs[k1][j1] == sccs[k2][j2] ==> k1 == k2 && j1 == j2
}

/// Every edge between two different components points to the earlier
/// one: the component list is in reverse topological order.
pub open spec fn is_rev_topo(edges: Seq<(usize, usize)>, sccs: Seq<Seq<usize>>) -> bool {
    forall|e: int, k1: int, k2: int|
        #![trigger edges[e], in_comp(sccs, k1, edges[e].0), in_comp(sccs, k2, edges[e].1)]
        0 <= e < edges.len() && in_comp(sccs, k1, edges[e].0) && in_comp(sccs, k2, edges[e].1)
            && k1 != k2 ==> k2 < k1
}

/// The members of each component reach one another: the components are
/// strongly connected.
pub open spec fn comps_strongly_connected(
    edges: Seq<(usize, usize)>,
    sccs: Seq<Seq<usize>>,
) -> bool {
    forall|k: int, j1: int, j2: int|
        #![trigger sccs[k][j1], sccs[k][j2]]
        0 <= k < sccs.len() && 0 <= j1 < sccs[k].len() && 0 <= j2 < sccs[k].len()
            ==> spec_reachable(edges, sccs[k][j1], sccs[k][j2])
}

/// `v` lies on a cycle: some edge leaves it for a node that reaches it
/// back.
pub open spec fn on_cycle(edges: Seq<(usize, usize)>, v: usize) -> bool {
    exists|u: usize| #[trigger] spec_has_edge(edges, v, u) && spec_reachable(edges, u, v)
}

/// `v` is a member of one of the returned cycles.
pub open spec fn in_some_cycle(cycles: Seq<Vec<usize>>, v: usize) -> bool {
    exists|x: int| 0 <= x < cycles.len() && (#[trigger] cycles[x])@.contains(v)
}

/// A returned cycle's members are pairwise distinct and pairwise
/// mutually reachable: the list is one strongly connected component.
pub open spec fn cycle_members_ok(edges: Seq<(usize, usize)>, c: Seq<usize>) -> bool {
    &&& (forall|j1: int, j2: int|
        #![trigger c[j1], c[j2]]
        0 <= j1 < c.len() && 0 <= j2 < c.len() && j1 != j2 ==> c[j1] != c[j2])
    &&& (forall|j1: int, j2: int|
        #![trigger c[j1], c[j2]]
        0 <= j1 < c.len() && 0 <= j2 < c.len() ==> spec_reachable(edges, c[j1], c[j2]))
}

/// No node sits in two returned cycles.
pub open spec fn cycles_disjoint(cycles: Seq<Vec<usize>>) -> bool {
    forall|x1: int, x2: int, v: usize|
        #![trigger cycles[x1]@.contains(v), cycles[x2]@.contains(v)]
        0 <= x1 < cycles.len() && 0 <= x2 < cycles.len() && x1 != x2 ==> !(cycles[x1]@.contains(
            v,
        ) && cycles[x2]@.contains(v))
}

/// Relies on petgraph's `algo::kosaraju_scc`: it returns the strongly
/// connected components of the graph — each node in exactly one
/// component, the members of a component mutually reachable — in
/// reverse topological order of the component graph.
#[verifier::external_body]
fn kosaraju_sccs(num_nodes: usize, edges: &Vec<(usize, usize)>) -> (r: Vec<Vec<usize>>)
    requires
        num_nodes < 0x1000_0000,
        edges@.len() < 0x1000_0000,
        edges_wf(num_nodes as int, edges@),
    ensures
        is_partition(num_nodes as int, sccs_view(r@)),
        is_rev_topo(edges@, sccs_view(r@)),
        comps_strongly_connected(edges@, sccs_view(r@)),
{
    let mut g = petgraph::graph::DiGraph::<(), ()>::new();
    for _ in 0..num_nodes {
        g.add_node(());
    }
    for e in edges.iter() {
        g.add_edge(petgraph::graph::NodeIndex::new(e.0), petgraph::graph::NodeIndex::new(e.1), ());
    }
    petgraph::algo::kosaraju_scc(&g)
        .into_iter()
        .map(|scc| scc.into_iter().map(|ix| ix.index()).collect())
        .collect()
}

/// The already-computed bounds of the given nodes.
pub open spec fn maxes_at(nodes: Seq<Node>, vs: Seq<usize>) -> Seq<Max> {
    vs.map_values(|v: usize| nodes[v as int].max->Some_0)
}

/// The bound equation of a node outside every cycle: the weaker of the
/// successors' bounds plus the node's own frame, or the lifted frame
/// alone when there are no successors.
pub open spec fn flat_bound(nodes: Seq<Node>, edges: Seq<(usize, usize)>, u: usize) -> Max {
    match spec_max_of(maxes_at(nodes, succs_of(edges, u))) {
        Some(m) => spec_add_local_total(m, nodes[u as int].local),
        None => spec_lift(nodes[u as int].local),
    }
}

/// A node carries exactly its flat bound.
pub open spec fn node_settled_flat(nodes: Seq<Node>, edges: Seq<(usize, usize)>, u: usize) -> bool {
    nodes[u as int].max == Some(flat_bound(nodes, edges, u))
}

/// The members' own frames, lifted.
pub open spec fn comp_lifts(nodes: Seq<Node>, c: Seq<usize>) -> Seq<Max> {
    c.map_values(|m: usize| spec_lift(nodes[m as int].local))
}

/// The bounds of those of `vs` that lie outside the component `c`.
pub open spec fn outside_of(nodes: Seq<Node>, c: Seq<usize>, vs: Seq<usize>) -> Seq<Max>
    decreases vs,
{
    if vs.len() == 0 {
        Seq::empty()
    } else {
        let init = outside_of(nodes, c, vs.drop_last());
        if c.contains(vs.last()) {
            init
        } else {
            init.push(nodes[vs.last() as int].max->Some_0)
        }
    }
}

/// The bounds of all out-neighbors of the members that lie outside the
/// component, member by member in order.
pub open spec fn outside_maxes(
    nodes: Seq<Node>,
    edges: Seq<(usize, usize)>,
    c: Seq<usize>,
    members: Seq<usize>,
) -> Seq<Max>
    decreases members,
{
    if members.len() == 0 {
        Seq::empty()
    } else {
        outside_maxes(nodes, edges, c, members.drop_last()) + outside_of(
            nodes,
            c,
            succs_of(edges, members.last()),
        )
    }
}

/// The bound equation of a cycle member: the component's weakest lifted
/// frame, downgraded when nonzero, plus the weakest outside bound when
/// the component has outside neighbors.
pub open spec fn cycle_bound(nodes: Seq<Node>, edges: Seq<(usize, usize)>, c: Seq<usize>) -> Max {
    let scc_local = spec_downgrade(spec_max_of(comp_lifts(nodes, c))->Some_0);
    match spec_max_of(outside_maxes(nodes, edges, c, c)) {
        Some(om) => spec_add_max_total(om, scc_local),
        None => scc_local,
    }
}

/// Every member of a cycle carries exactly the cycle's bound.
pub open spec fn comp_settled_cycle(
    nodes: Seq<Node>,
    edges: Seq<(usize, usize)>,
    c: Seq<usize>,
) -> bool {
    forall|j: int| 0 <= j < c.len() ==> nodes[#[trigger] c[j] as int].max == Some(
        cycle_bound(nodes, edges, c),
    )
}

/// `v` appears in none of the returned cycles.
pub open spec fn in_no_cycle(cycles: Seq<Vec<usize>>, v: usize) -> bool {
    forall|x: int| 0 <= x < cycles.len() ==> !(#[trigger] cycles[x])@.contains(v)
}

/// Every node outside all returned cycles carries the flat equation's
/// value and has no self-edge.
pub open spec fn flats_settled(g: Graph, cycles: Seq<Vec<usize>>) -> bool {
    forall|v: usize|
        #![trigger node_settled_flat(g.nodes@, g.edges@, v)]
        v < g.nodes@.len() && in_no_cycle(cycles, v) ==> {
            &&& node_settled_flat(g.nodes@, g.edges@, v)
            &&& !spec_has_edge(g.edges@, v, v)
        }
}

/// Node payloads other than the bound are the same in both arenas.
pub open spec fn same_but_max(nodes1: Seq<Node>, nodes2: Seq<Node>) -> bool {
    nodes1.len() == nodes2.len() && forall|i: int| 0 <= i < nodes1.len() ==> {
        &&& (#[trigger] nodes2[i]).name@ == nodes1[i].name@
        &&& nodes2[i].local == nodes1[i].local
        &&& nodes2[i].dashed == nodes1[i].dashed
    }
}

/// Is `v` a member of this executable component list?
fn contains_usize(c: &Vec<usize>, v: usize) -> (r: bool)
    ensures
        r == c@.contains(v),
{
    let n = c.len();
    let mut i: usize = 0;
    while i < n
        invariant
            i <= n,
            n == c@.len(),
            forall|j: int| 0 <= j < i ==> c@[j] != v,
        decreases n - i,
    {
        if c[i] == v {
            return true;
        }
        i = i + 1;
    }
    false
}

/// `outside_of` reads only the bounds of nodes outside `c`.
proof fn lemma_outside_of_frame(
    nodes1: Seq<Node>,
    nodes2: Seq<Node>,
    c: Seq<usize>,
    vs: Seq<usize>,
)
    requires
        nodes1.len() == nodes2.len(),
        forall|x: int| 0 <= x < vs.len() && !c.contains(#[trigger] vs[x]) ==> (vs[x] as int)
            < nodes1.len() && nodes2[vs[x] as int].max == nodes1[vs[x] as int].max,
    ensures
        outside_of(nodes1, c, vs) == outside_of(nodes2, c, vs),
    decreases vs,
{
    if vs.len() > 0 {
        lemma_outside_of_frame(nodes1, nodes2, c, vs.drop_last());
        assert(vs[vs.len() - 1] == vs.last());
    }
}

/// `outside_maxes` reads only the bounds of the members' successors that
/// lie outside `c`.
proof fn lemma_outside_maxes_frame(
    nodes1: Seq<Node>,
    nodes2: Seq<Node>,
    edges: Seq<(usize, usize)>,
    c: Seq<usize>,
    members: Seq<usize>,
)
    requires
        nodes1.len() == nodes2.len(),
        forall|y: int, x: int|
            #![trigger succs_of(edges, members[y])[x]]
            0 <= y < members.len() && 0 <= x < succs_of(edges, members[y]).len() && !c.contains(
                succs_of(edges, members[y])[x],
            ) ==> (succs_of(edges, members[y])[x] as int) < nodes1.len() && nodes2[succs_of(
                edges,
                members[y],
            )[x] as int].max == nodes1[succs_of(edges, members[y])[x] as int].max,
    ensures
        outside_maxes(nodes1, edges, c, members) == outside_maxes(nodes2, edges, c, members),
    decreases members,
{
    if members.len() > 0 {
        lemma_outside_maxes_frame(nodes1, nodes2, edges, c, members.drop_last());
        assert(members[members.len() - 1] == members.last());
        lemma_outside_of_frame(nodes1, nodes2, c, succs_of(edges, members.last()));
    }
}

/// `comp_lifts` reads only the locals.
proof fn lemma_comp_lifts_frame(nodes1: Seq<Node>, nodes2: Seq<Node>, c: Seq<usize>)
    requires
        nodes1.len() == nodes2.len(),
        forall|j: int| 0 <= j < c.len() ==> (#[trigger] c[j] as int) < nodes1.len()
            && nodes2[c[j] as int].local == nodes1[c[j] as int].local,
    ensures
        comp_lifts(nodes1, c) == comp_lifts(nodes2, c),
{
    assert(comp_lifts(nodes1, c) =~= comp_lifts(nodes2, c));
}

/// `maxes_at` reads only the bounds of the listed nodes.
proof fn lemma_maxes_at_frame(nodes1: Seq<Node>, nodes2: Seq<Node>, vs: Seq<usize>)
    requires
        nodes1.len() == nodes2.len(),
        forall|x: int| 0 <= x < vs.len() ==> (#[trigger] vs[x] as int) < nodes1.len()
            && nodes2[vs[x] as int].max == nodes1[vs[x] as int].max,
    ensures
        maxes_at(nodes1, vs) == maxes_at(nodes2, vs),
{
    assert(maxes_at(nodes1, vs) =~= maxes_at(nodes2, vs));
}

/// Is this component a cycle: more than one member, or a self-edge on
/// its single member?
pub open spec fn comp_cyclic(edges: Seq<(usize, usize)>, c: Seq<usize>) -> bool {
    c.len() > 1 || spec_has_edge(edges, c[0], c[0])
}

/// The component carries its computed bounds: the cycle equation for a
/// cycle, the flat equation for a lone acyclic node.
pub open spec fn settled_comp(nodes: Seq<Node>, edges: Seq<(usize, usize)>, c: Seq<usize>) -> bool {
    if comp_cyclic(edges, c) {
        comp_settled_cycle(nodes, edges, c)
    } else {
        node_settled_flat(nodes, edges, c[0])
    }
}

/// The component-index vector agrees with the first `upto` components.
pub open spec fn comp_vec_ok(sv: Seq<Seq<usize>>, cvv: Seq<usize>, upto: int) -> bool {
    forall|k2: int, j2: int|
        #![trigger sv[k2][j2]]
        0 <= k2 < upto && 0 <= j2 < sv[k2].len() ==> cvv[sv[k2][j2] as int] == k2 as usize
}

/// Two nodes in the same place of the partition share the component.
proof fn lemma_comp_unique(n: int, sv: Seq<Seq<usize>>, k1: int, k2: int, v: usize)
    requires
        is_partition(n, sv),
        in_comp(sv, k1, v),
        in_comp(sv, k2, v),
    ensures
        k1 == k2,
{
    let j1 = choose|j: int| 0 <= j < sv[k1].len() && sv[k1][j] == v;
    let j2 = choose|j: int| 0 <= j < sv[k2].len() && sv[k2][j] == v;
    assert(sv[k1][j1] == sv[k2][j2]);
}

/// Exactly the nodes named in `members` changed, and only their bound,
/// which became `m`.
pub open spec fn updated_only(
    pre: Seq<Node>,
    post: Seq<Node>,
    members: Seq<usize>,
    m: Max,
) -> bool {
    post.len() == pre.len() && forall|i: usize| (i as int) < pre.len() ==> if members.contains(
        i,
    ) {
        &&& (#[trigger] post[i as int]).max == Some(m)
        &&& post[i as int].name@ == pre[i as int].name@
        &&& post[i as int].local == pre[i as int].local
        &&& post[i as int].dashed == pre[i as int].dashed
    } else {
        post[i as int] == pre[i as int]
    }
}

/// Computes every node's stack bound, in place, and returns the cycles:
/// each strongly-connected component with more than one member or with a
/// self-edge, as the list of its member indices.  Afterwards every node
/// carries `Some` bound; a member of a returned cycle carries the cycle
/// equation's value, and every other node the flat equation's value,
/// both over the finished graph.
/// Writes the flat bound into `u`, a node with no self-edge whose
/// successors are all bounded already.
fn settle_flat(g: &mut Graph, u: usize)
    requires
        old(g).wf(),
        u < old(g).nodes@.len(),
        !spec_has_edge(old(g).edges@, u, u),
        forall|y: int|
            0 <= y < succs_of(old(g).edges@, u).len() ==> (#[trigger] succs_of(
                old(g).edges@,
                u,
            )[y] as int) < old(g).nodes@.len() && old(g).nodes@[succs_of(
                old(g).edges@,
                u,
            )[y] as int].max is Some,
    ensures
        final(g).wf(),
        final(g).edges@ == old(g).edges@,
        updated_only(
            old(g).nodes@,
            final(g).nodes@,
            seq![u],
            flat_bound(old(g).nodes@, old(g).edges@, u),
        ),
        node_settled_flat(final(g).nodes@, final(g).edges@, u),
{
    let ghost pre = g.nodes@;
    let succs = g.successors(u);
    let ghost svs = succs_of(g.edges@, u);
    proof {
        lemma_succs_of_complete(g.edges@, u);
        assert forall|y: int| 0 <= y < svs.len() implies (#[trigger] svs[y]) != u by {
            if svs[y] == u {
                assert(spec_has_edge(g.edges@, u, u));
            }
        }
    }
    let mut maxes: Vec<Max> = Vec::new();
    let ns = succs.len();
    let mut x: usize = 0;
    while x < ns
        invariant
            x <= ns,
            ns == svs.len(),
            succs@ == svs,
            g.nodes@ == pre,
            forall|y: int| 0 <= y < svs.len() ==> (#[trigger] svs[y] as int) < g.nodes@.len()
                && g.nodes@[svs[y] as int].max is Some,
            maxes@ == maxes_at(g.nodes@, svs.take(x as int)),
        decreases ns - x,
    {
        let v = succs[x];
        maxes.push(g.nodes[v].max.unwrap());
        proof {
            assert(maxes@ =~= maxes_at(g.nodes@, svs.take(x + 1)));
        }
        x = x + 1;
    }
    proof {
        assert(svs.take(ns as int) =~= svs);
    }
    let local = g.nodes[u].local;
    let nb = match max_of(maxes.as_slice()) {
        Some(mm) => mm.add_capped(local),
        None => local.lift(),
    };
    proof {
        assert(nb == flat_bound(pre, g.edges@, u));
    }
    let nd = Node {
        name: g.nodes[u].name.clone(),
        local: g.nodes[u].local,
        max: Some(nb),
        dashed: g.nodes[u].dashed,
    };
    g.nodes[u] = nd;
    proof {
        assert(g.nodes@ == pre.update(u as int, g.nodes@[u as int]));
        let ghost cset: Seq<usize> = seq![u];
        assert(cset.len() == 1 && cset[0] == u);
        assert(updated_only(pre, g.nodes@, cset, nb)) by {
            assert(cset.contains(u));
            assert forall|i2: usize|
                (i2 as int) < pre.len() && i2 != u implies !(#[trigger] cset.contains(
                i2,
            )) by {
                if cset.contains(i2) {
                    assert(cset[0] == i2);
                }
            }
        }
        lemma_maxes_at_frame(pre, g.nodes@, svs);
        assert(node_settled_flat(g.nodes@, g.edges@, u));
    }
}

/// Writes the cycle bound into every member of the cycle `c`, whose
/// outside successors are all bounded already.
fn settle_cycle(g: &mut Graph, c: &Vec<usize>)
    requires
        old(g).wf(),
        c@.len() > 0,
        forall|j: int| 0 <= j < c@.len() ==> (#[trigger] c@[j] as int) < old(g).nodes@.len(),
        forall|y: int, xx: int|
            #![trigger succs_of(old(g).edges@, c@[y])[xx]]
            0 <= y < c@.len() && 0 <= xx < succs_of(old(g).edges@, c@[y]).len() && !c@.contains(
                succs_of(old(g).edges@, c@[y])[xx],
            ) ==> (succs_of(old(g).edges@, c@[y])[xx] as int) < old(g).nodes@.len() && old(
                g,
            ).nodes@[succs_of(old(g).edges@, c@[y])[xx] as int].max is Some,
    ensures
        final(g).wf(),
        final(g).edges@ == old(g).edges@,
        updated_only(
            old(g).nodes@,
            final(g).nodes@,
            c@,
            cycle_bound(old(g).nodes@, old(g).edges@, c@),
        ),
        comp_settled_cycle(final(g).nodes@, final(g).edges@, c@),
{
    let ghost pre = g.nodes@;
    let csize = c.len();
    let mut lifts: Vec<Max> = Vec::new();
    let mut j: usize = 0;
    while j < csize
        invariant
            j <= csize,
            csize == c@.len(),
            g.nodes@ == pre,
            forall|j2: int| 0 <= j2 < c@.len() ==> (#[trigger] c@[j2] as int) < g.nodes@.len(),
            lifts@ == comp_lifts(g.nodes@, c@.take(j as int)),
        decreases csize - j,
    {
        lifts.push(g.nodes[c[j]].local.lift());
        proof {
            assert(lifts@ =~= comp_lifts(g.nodes@, c@.take(j + 1)));
        }
        j = j + 1;
    }
    proof {
        assert(c@.take(csize as int) =~= c@);
        assert(comp_lifts(g.nodes@, c@).len() > 0);
    }
    let scc_local = max_of(lifts.as_slice()).unwrap().downgrade();
    let mut outs: Vec<Max> = Vec::new();
    let mut j: usize = 0;
    while j < csize
        invariant
            j <= csize,
            csize == c@.len(),
            g.wf(),
            g.nodes@ == pre,
            forall|j2: int| 0 <= j2 < c@.len() ==> (#[trigger] c@[j2] as int) < g.nodes@.len(),
            forall|y: int, xx: int|
                #![trigger succs_of(g.edges@, c@[y])[xx]]
                0 <= y < c@.len() && 0 <= xx < succs_of(g.edges@, c@[y]).len() && !c@.contains(
                    succs_of(g.edges@, c@[y])[xx],
                ) ==> (succs_of(g.edges@, c@[y])[xx] as int) < g.nodes@.len() && g.nodes@[
                succs_of(g.edges@, c@[y])[xx] as int].max is Some,
            outs@ == outside_maxes(g.nodes@, g.edges@, c@, c@.take(j as int)),
        decreases csize - j,
    {
        let m = c[j];
        let succs = g.successors(m);
        let ghost svs = succs_of(g.edges@, m);
        let ghost outer = outs@;
        let ns = succs.len();
        let mut x: usize = 0;
        while x < ns
            invariant
                x <= ns,
                ns == svs.len(),
                succs@ == svs,
                0 <= (j as int) < c@.len(),
                svs == succs_of(g.edges@, c@[j as int]),
                m == c@[j as int],
                g.nodes@ == pre,
                forall|y: int| 0 <= y < svs.len() && !c@.contains(#[trigger] svs[y]) ==> (
                svs[y] as int) < g.nodes@.len() && g.nodes@[svs[y] as int].max is Some,
                outs@ == outer + outside_of(g.nodes@, c@, svs.take(x as int)),
            decreases ns - x,
        {
            let v = succs[x];
            if !contains_usize(c, v) {
                outs.push(g.nodes[v].max.unwrap());
            }
            proof {
                assert(svs.take(x + 1).drop_last() =~= svs.take(x as int));
                assert(outs@ =~= outer + outside_of(g.nodes@, c@, svs.take(x + 1)));
            }
            x = x + 1;
        }
        proof {
            assert(svs.take(ns as int) =~= svs);
            assert(c@.take(j + 1).drop_last() =~= c@.take(j as int));
            assert(c@.take(j + 1).last() == c@[j as int]);
            assert(outs@ == outside_maxes(g.nodes@, g.edges@, c@, c@.take(j + 1)));
        }
        j = j + 1;
    }
    proof {
        assert(c@.take(csize as int) =~= c@);
    }
    let total = match max_of(outs.as_slice()) {
        Some(om) => om.add_max_capped(scc_local),
        None => scc_local,
    };
    proof {
        assert(total == cycle_bound(g.nodes@, g.edges@, c@));
    }
    let mut j: usize = 0;
    while j < csize
        invariant
            j <= csize,
            csize == c@.len(),
            g.edges@ == old(g).edges@,
            g.nodes@.len() == pre.len(),
            forall|j2: int| 0 <= j2 < c@.len() ==> (#[trigger] c@[j2] as int) < g.nodes@.len(),
            forall|i2: usize|
                #![trigger g.nodes@[i2 as int]]
                (i2 as int) < pre.len() ==> if (exists|j2: int|
                    0 <= j2 < j && c@[j2] == i2) {
                    &&& g.nodes@[i2 as int].max == Some(total)
                    &&& g.nodes@[i2 as int].name@ == pre[i2 as int].name@
                    &&& g.nodes@[i2 as int].local == pre[i2 as int].local
                    &&& g.nodes@[i2 as int].dashed == pre[i2 as int].dashed
                } else {
                    g.nodes@[i2 as int] == pre[i2 as int]
                },
        decreases csize - j,
    {
        let v = c[j];
        let ghost before = g.nodes@;
        let nd = Node {
            name: g.nodes[v].name.clone(),
            local: g.nodes[v].local,
            max: Some(total),
            dashed: g.nodes[v].dashed,
        };
        g.nodes[v] = nd;
        proof {
            assert(g.nodes@ == before.update(v as int, g.nodes@[v as int]));
        }
        j = j + 1;
    }
    proof {
        assert(updated_only(pre, g.nodes@, c@, total)) by {
            assert forall|i2: usize|
                (i2 as int) < pre.len() implies (#[trigger] c@.contains(i2)) == (exists|
                j2: int,
            |
                0 <= j2 < csize && c@[j2] == i2) by {}
        }
        lemma_outside_maxes_frame(pre, g.nodes@, g.edges@, c@, c@);
        lemma_comp_lifts_frame(pre, g.nodes@, c@);
        assert(cycle_bound(g.nodes@, g.edges@, c@) == total);
        assert(comp_settled_cycle(g.nodes@, g.edges@, c@)) by {
            assert forall|j2: int|
                0 <= j2 < c@.len() implies g.nodes@[(#[trigger] c@[j2]) as int].max == Some(
                cycle_bound(g.nodes@, g.edges@, c@),
            ) by {
                assert(c@.contains(c@[j2]));
            }
        }
    }
}

/// Along a path, the component index never grows: every edge stays in
/// its component or moves to an earlier one.
proof fn lemma_path_comp_le(
    n: int,
    sv: Seq<Seq<usize>>,
    edges: Seq<(usize, usize)>,
    p: Seq<usize>,
    k1: int,
    k2: int,
)
    requires
        is_partition(n, sv),
        is_rev_topo(edges, sv),
        edges_wf(n, edges),
        crate::graph::path_ok(edges, p),
        in_comp(sv, k1, p[0]),
        in_comp(sv, k2, p.last()),
    ensures
        k2 <= k1,
    decreases p.len(),
{
    if p.len() == 1 {
        lemma_comp_unique(n, sv, k1, k2, p[0]);
    } else {
        let q = p.drop_last();
        assert(crate::graph::path_ok(edges, q)) by {
            assert forall|x: int|
                0 <= x < q.len() - 1 implies spec_has_edge(edges, #[trigger] q[x], q[x + 1]) by {
                assert(q[x] == p[x] && q[x + 1] == p[x + 1]);
            }
        }
        let mid = q.last();
        assert(spec_has_edge(edges, p[p.len() - 2], p[p.len() - 1]));
        let e = choose|e: int|
            0 <= e < edges.len() && #[trigger] edges[e] == (p[p.len() - 2], p[p.len() - 1]);
        assert(mid < n);
        assert(covered(sv, mid));
        let km = choose|km: int| #[trigger] in_comp(sv, km, mid);
        assert(q[0] == p[0]);
        lemma_path_comp_le(n, sv, edges, q, k1, km);
        if k2 != km {
            assert(in_comp(sv, km, edges[e].0) && in_comp(sv, k2, edges[e].1));
            assert(k2 < km);
        }
    }
}

/// Reaching a node never moves to a later component.
proof fn lemma_reach_comp_le(
    n: int,
    sv: Seq<Seq<usize>>,
    edges: Seq<(usize, usize)>,
    a: usize,
    b: usize,
    k1: int,
    k2: int,
)
    requires
        is_partition(n, sv),
        is_rev_topo(edges, sv),
        edges_wf(n, edges),
        spec_reachable(edges, a, b),
        in_comp(sv, k1, a),
        in_comp(sv, k2, b),
    ensures
        k2 <= k1,
{
    let p = choose|p: Seq<usize>|
        #[trigger] crate::graph::path_ok(edges, p) && p[0] == a && p.last() == b;
    lemma_path_comp_le(n, sv, edges, p, k1, k2);
}

/// In the partition, the successors of the members of component `k` are
/// either inside the component or in an earlier, already bounded one.
proof fn lemma_comp_succs_ready(
    n: int,
    sv: Seq<Seq<usize>>,
    cvv: Seq<usize>,
    edges: Seq<(usize, usize)>,
    nodes: Seq<Node>,
    k: int,
)
    requires
        is_partition(n, sv),
        is_rev_topo(edges, sv),
        edges_wf(n, edges),
        nodes.len() == n,
        cvv.len() == n,
        0 <= k < sv.len(),
        forall|v: usize|
            #![trigger cvv[v as int]]
            v < n ==> (cvv[v as int] as int) < sv.len() && in_comp(sv, cvv[v as int] as int, v),
        forall|v: usize| v < n ==> ((#[trigger] nodes[v as int].max) is Some <==> (cvv[
            v as int
        ] as int) < k),
    ensures
        forall|y: int, xx: int|
            #![trigger succs_of(edges, sv[k][y])[xx]]
            0 <= y < sv[k].len() && 0 <= xx < succs_of(edges, sv[k][y]).len() && !sv[k].contains(
                succs_of(edges, sv[k][y])[xx],
            ) ==> (succs_of(edges, sv[k][y])[xx] as int) < n && nodes[succs_of(
                edges,
                sv[k][y],
            )[xx] as int].max is Some,
{
    let c = sv[k];
    assert forall|y: int, xx: int|
        #![trigger succs_of(edges, sv[k][y])[xx]]
        0 <= y < c.len() && 0 <= xx < succs_of(edges, c[y]).len() && !c.contains(
            succs_of(edges, c[y])[xx],
        ) implies (succs_of(edges, c[y])[xx] as int) < n && nodes[succs_of(
        edges,
        c[y],
    )[xx] as int].max is Some by {
        let s = succs_of(edges, c[y])[xx];
        lemma_succs_of_complete(edges, c[y]);
        assert(spec_has_edge(edges, c[y], s));
        let e = choose|e: int| 0 <= e < edges.len() && #[trigger] edges[e] == (c[y], s);
        assert(s < n);
        let ks = cvv[s as int] as int;
        assert(in_comp(sv, ks, s));
        assert(in_comp(sv, k, c[y])) by {
            assert(c.contains(c[y]));
        }
        assert(cvv[c[y] as int] as int == k) by {
            lemma_comp_unique(n, sv, cvv[c[y] as int] as int, k, c[y]);
        }
        if ks == k {
            assert(sv[k].contains(s));
            assert(false);
        }
        assert(ks < k);
    }
}

/// Computes every node's stack bound, in place, and returns the cycles:
/// each strongly-connected component with more than one member or with a
/// self-edge, as the list of its member indices.  Afterwards every node
/// carries `Some` bound; a member of a returned cycle carries the cycle
/// equation's value, and every other node the flat equation's value,
/// both over the finished graph.
#[verifier::rlimit(100)]
pub fn analyze(g: &mut Graph) -> (cycles: Vec<Vec<usize>>)
    requires
        old(g).wf(),
        old(g).nodes@.len() < 0x1000_0000,
        old(g).edges@.len() < 0x1000_0000,
        forall|i: int| 0 <= i < old(g).nodes@.len() ==> (#[trigger] old(g).nodes@[i]).max
            is None,
    ensures
        final(g).wf(),
        final(g).edges@ == old(g).edges@,
        same_but_max(old(g).nodes@, final(g).nodes@),
        forall|i: int| 0 <= i < final(g).nodes@.len() ==> (#[trigger] final(g).nodes@[i]).max
            is Some,
        forall|x: int|
            0 <= x < cycles@.len() ==> {
                let c = (#[trigger] cycles@[x])@;
                &&& c.len() > 0
                &&& (forall|j: int| 0 <= j < c.len() ==> (#[trigger] c[j]) < final(g).nodes@.len())
                &&& comp_cyclic(final(g).edges@, c)
                &&& cycle_members_ok(final(g).edges@, c)
                &&& comp_settled_cycle(final(g).nodes@, final(g).edges@, c)
            },
        cycles_disjoint(cycles@),
        forall|v: usize|
            #![trigger on_cycle(final(g).edges@, v)]
            v < final(g).nodes@.len() && on_cycle(final(g).edges@, v) ==> in_some_cycle(
                cycles@,
                v,
            ),
        flats_settled(*final(g), cycles@),
{
    let n = g.node_count();
    let sccs = kosaraju_sccs(n, &g.edges);
    let ghost sv = sccs_view(sccs@);
    let nsccs = sccs.len();
    // component index of each node
    let mut cv: Vec<usize> = Vec::new();
    let mut i: usize = 0;
    while i < n
        invariant
            i <= n,
            cv@.len() == i,
        decreases n - i,
    {
        cv.push(0);
        i = i + 1;
    }
    let mut k: usize = 0;
    while k < nsccs
        invariant
            k <= nsccs,
            nsccs == sccs@.len(),
            sv == sccs_view(sccs@),
            is_partition(n as int, sv),
            cv@.len() == n,
            comp_vec_ok(sv, cv@, k as int),
        decreases nsccs - k,
    {
        let c: &Vec<usize> = &sccs[k];
        proof {
            assert(sv[k as int] == c@);
        }
        let m = c.len();
        let mut j: usize = 0;
        while j < m
            invariant
                j <= m,
                k < nsccs,
                nsccs == sccs@.len(),
                sv == sccs_view(sccs@),
                is_partition(n as int, sv),
                cv@.len() == n,
                c@ == sv[k as int],
                m == c@.len(),
                comp_vec_ok(sv, cv@, k as int),
                forall|j2: int| 0 <= j2 < j ==> cv@[#[trigger] sv[k as int][j2] as int] == k,
            decreases m - j,
        {
            let v = c[j];
            proof {
                assert(sv[k as int][j as int] == v);
                assert(v < n);
                assert forall|k2: int, j2: int|
                    0 <= k2 < k && 0 <= j2 < sv[k2].len() implies cv@.update(
                    v as int,
                    k,
                )[#[trigger] sv[k2][j2] as int] == k2 as usize by {
                    if sv[k2][j2] == v {
                        assert(sv[k2][j2] == sv[k as int][j as int]);
                        assert(k2 == k as int);
                    }
                }
            }
            cv[v] = k;
            j = j + 1;
        }
        k = k + 1;
    }
    proof {
        assert forall|v: usize|
            #![trigger cv@[v as int]]
            v < n implies (cv@[v as int] as int) < nsccs && in_comp(
            sv,
            cv@[v as int] as int,
            v,
        ) by {
            assert(covered(sv, v));
            let k0 = choose|k0: int| #[trigger] in_comp(sv, k0, v);
            let j0 = choose|j0: int| 0 <= j0 < sv[k0].len() && sv[k0][j0] == v;
            assert(cv@[sv[k0][j0] as int] == k0 as usize);
        }
    }
    // process components in reverse topological order
    let mut cycles: Vec<Vec<usize>> = Vec::new();
    let ghost mut ks: Seq<int> = Seq::empty();
    let mut k: usize = 0;
    while k < nsccs
        invariant
            k <= nsccs,
            g.wf(),
            g.edges@ == old(g).edges@,
            g.nodes@.len() == n,
            same_but_max(old(g).nodes@, g.nodes@),
            nsccs == sccs@.len(),
            sv == sccs_view(sccs@),
            is_partition(n as int, sv),
            is_rev_topo(g.edges@, sv),
            comps_strongly_connected(g.edges@, sv),
            cv@.len() == n,
            forall|v: usize|
                #![trigger cv@[v as int]]
                v < n ==> (cv@[v as int] as int) < nsccs && in_comp(sv, cv@[v as int] as int, v),
            forall|v: usize| v < n ==> ((#[trigger] g.nodes@[v as int].max) is Some <==> (cv@[
                v as int
            ] as int) < k),
            forall|k2: int| 0 <= k2 < k ==> settled_comp(g.nodes@, g.edges@, #[trigger] sv[k2]),
            ks.len() == cycles@.len(),
            forall|x: int|
                #![trigger ks[x]]
                #![trigger cycles@[x]]
                0 <= x < ks.len() ==> 0 <= ks[x] < k && cycles@[x]@ == sv[ks[x]]
                    && comp_cyclic(g.edges@, sv[ks[x]]),
            forall|x1: int, x2: int|
                #![trigger ks[x1], ks[x2]]
                0 <= x1 < x2 < ks.len() ==> ks[x1] < ks[x2],
            forall|k2: int|
                0 <= k2 < k && comp_cyclic(g.edges@, #[trigger] sv[k2]) ==> exists|x: int|
                    0 <= x < cycles@.len() && cycles@[x]@ == sv[k2],
        decreases nsccs - k,
    {
        let c: &Vec<usize> = &sccs[k];
        proof {
            assert(sv[k as int] == c@);
            assert(c@.len() > 0);
            assert forall|j: int| 0 <= j < c@.len() implies (#[trigger] c@[j]) < n by {
                assert(sv[k as int][j] == c@[j]);
            }
            assert(in_comp(sv, k as int, c@[0])) by {
                assert(c@.contains(c@[0]));
            }
            lemma_comp_succs_ready(n as int, sv, cv@, g.edges@, g.nodes@, k as int);
        }
        let csize = c.len();
        let first = c[0];
        let is_cycle = csize > 1 || g.has_edge(first, first);
        let ghost pre = g.nodes@;
        let ghost cycles_before = cycles@;
        let ghost ks_before = ks;
        if !is_cycle {
            let u = first;
            proof {
                // the lone member is not its own successor
                assert(sv[k as int].len() == 1);
                assert(seq![u] =~= sv[k as int]);
                assert forall|y: int|
                    0 <= y < succs_of(g.edges@, u).len() implies (#[trigger] succs_of(
                    g.edges@,
                    u,
                )[y] as int) < n && g.nodes@[succs_of(g.edges@, u)[y] as int].max is Some by {
                    assert(succs_of(g.edges@, sv[k as int][0])[y] == succs_of(g.edges@, u)[y]);
                    if sv[k as int].contains(succs_of(g.edges@, u)[y]) {
                        let jj = choose|jj: int|
                            0 <= jj < sv[k as int].len() && sv[k as int][jj] == succs_of(
                                g.edges@,
                                u,
                            )[y];
                        assert(succs_of(g.edges@, u)[y] == u);
                        lemma_succs_of_complete(g.edges@, u);
                        assert(spec_has_edge(g.edges@, u, u));
                        assert(false);
                    }
                }
            }
            settle_flat(g, u);
            proof {
                assert(node_settled_flat(g.nodes@, g.edges@, u));
                assert(!comp_cyclic(g.edges@, sv[k as int]));
                assert(settled_comp(g.nodes@, g.edges@, sv[k as int]));
                lemma_settled_preserved(
                    n as int,
                    sv,
                    cv@,
                    g.edges@,
                    pre,
                    g.nodes@,
                    k as int,
                    seq![u],
                );
            }
        } else {
            proof {
                assert forall|y: int, xx: int|
                    #![trigger succs_of(g.edges@, c@[y])[xx]]
                    0 <= y < c@.len() && 0 <= xx < succs_of(g.edges@, c@[y]).len()
                        && !c@.contains(succs_of(g.edges@, c@[y])[xx]) implies (succs_of(
                    g.edges@,
                    c@[y],
                )[xx] as int) < n && g.nodes@[succs_of(g.edges@, c@[y])[xx] as int].max
                    is Some by {
                    assert(succs_of(g.edges@, sv[k as int][y])[xx] == succs_of(
                        g.edges@,
                        c@[y],
                    )[xx]);
                }
            }
            settle_cycle(g, c);
            proof {
                assert(comp_cyclic(g.edges@, sv[k as int]));
                assert(settled_comp(g.nodes@, g.edges@, sv[k as int]));
                lemma_settled_preserved(
                    n as int,
                    sv,
                    cv@,
                    g.edges@,
                    pre,
                    g.nodes@,
                    k as int,
                    c@,
                );
            }
            // record the cycle
            let mut cc: Vec<usize> = Vec::new();
            let mut j: usize = 0;
            while j < csize
                invariant
                    j <= csize,
                    csize == c@.len(),
                    cc@ == c@.take(j as int),
                decreases csize - j,
            {
                cc.push(c[j]);
                proof {
                    assert(cc@ =~= c@.take(j + 1));
                }
                j = j + 1;
            }
            proof {
                assert(cc@ =~= c@);
            }
            cycles.push(cc);
            proof {
                ks = ks.push(k as int);
                assert(ks == ks_before.push(k as int));
                assert(ks.len() == ks_before.len() + 1);
                assert(ks[ks.len() - 1] == k as int);
                assert forall|x: int| 0 <= x < ks_before.len() implies #[trigger] ks[x]
                    == ks_before[x] by {}
            }
        }
        proof {
            // the members of component k now carry a bound
            assert forall|v: usize| v < n implies ((#[trigger] g.nodes@[v as int].max) is Some
                <==> (cv@[v as int] as int) < k + 1) by {
                let kv = cv@[v as int] as int;
                if c@.contains(v) {
                    lemma_comp_unique(n as int, sv, kv, k as int, v);
                    assert(updated_only(pre, g.nodes@, (if is_cycle {
                        c@
                    } else {
                        seq![first]
                    }), (if is_cycle {
                        cycle_bound(pre, g.edges@, c@)
                    } else {
                        flat_bound(pre, g.edges@, first)
                    })));
                } else {
                    assert(g.nodes@[v as int] == pre[v as int]);
                    if kv == k as int {
                        assert(in_comp(sv, k as int, v));
                        assert(false);
                    }
                }
            }
            // the collected cycles are exactly the cyclic components so far
            assert forall|x: int|
                #![trigger ks[x]]
                #![trigger cycles@[x]]
                0 <= x < ks.len() implies 0 <= ks[x] < k + 1 && cycles@[x]@ == sv[ks[x]]
                    && comp_cyclic(g.edges@, sv[ks[x]]) by {
                if is_cycle && x == ks.len() - 1 {
                    assert(ks[x] == k as int);
                    assert(cycles@[x]@ == sv[k as int]);
                } else {
                    assert(cycles@[x] == cycles_before[x]);
                    assert(ks[x] == ks_before[x]);
                }
            }
            assert forall|x1: int, x2: int|
                #![trigger ks[x1], ks[x2]]
                0 <= x1 < x2 < ks.len() implies ks[x1] < ks[x2] by {
                if is_cycle && x2 == ks.len() - 1 {
                    assert(ks[x1] == ks_before[x1]);
                    assert(ks[x2] == k as int);
                } else {
                    assert(ks[x1] == ks_before[x1] && ks[x2] == ks_before[x2]);
                }
            }
            assert forall|k2: int|
                0 <= k2 < k + 1 && comp_cyclic(g.edges@, #[trigger] sv[k2]) implies exists|
                x: int,
            |
                0 <= x < cycles@.len() && cycles@[x]@ == sv[k2] by {
                if k2 < k {
                    let x = choose|x: int|
                        0 <= x < cycles_before.len() && cycles_before[x]@ == sv[k2];
                    assert(cycles@[x] == cycles_before[x]);
                    assert(0 <= x < cycles@.len() && cycles@[x]@ == sv[k2]);
                } else {
                    assert(comp_cyclic(g.edges@, sv[k as int]));
                    assert(is_cycle);
                    assert(cycles@[cycles@.len() - 1]@ == sv[k as int]);
                }
            }
        }
        k = k + 1;
    }
    proof {
        assert forall|i2: int| 0 <= i2 < g.nodes@.len() implies (#[trigger] g.nodes@[i2]).max
            is Some by {
            assert((cv@[i2] as int) < nsccs);
        }
        assert forall|v: usize|
            #![trigger node_settled_flat(g.nodes@, g.edges@, v)]
            v < g.nodes@.len() && in_no_cycle(cycles@, v) implies {
            &&& node_settled_flat(g.nodes@, g.edges@, v)
            &&& !spec_has_edge(g.edges@, v, v)
        } by {
            let kv = cv@[v as int] as int;
            assert(in_comp(sv, kv, v));
            if comp_cyclic(g.edges@, sv[kv]) {
                let x = choose|x: int| 0 <= x < cycles@.len() && cycles@[x]@ == sv[kv];
                assert(cycles@[x]@.contains(v));
                assert(false);
            } else {
                assert(settled_comp(g.nodes@, g.edges@, sv[kv]));
                assert(sv[kv].len() == 1);
                let jv = choose|j2: int| 0 <= j2 < sv[kv].len() && sv[kv][j2] == v;
                assert(sv[kv][0] == v);
            }
        }
        assert(flats_settled(*g, cycles@));
        // each returned cycle is one strongly connected component:
        // members distinct and mutually reachable
        assert forall|x: int|
            0 <= x < cycles@.len() implies cycle_members_ok(
            g.edges@,
            (#[trigger] cycles@[x])@,
        ) by {
            let kx = ks[x];
            assert(cycles@[x]@ == sv[kx]);
            assert(cycle_members_ok(g.edges@, sv[kx])) by {
                assert forall|j1: int, j2: int|
                    #![trigger sv[kx][j1], sv[kx][j2]]
                    0 <= j1 < sv[kx].len() && 0 <= j2 < sv[kx].len() && j1 != j2 implies sv[
                kx][j1] != sv[kx][j2] by {}
                assert forall|j1: int, j2: int|
                    #![trigger sv[kx][j1], sv[kx][j2]]
                    0 <= j1 < sv[kx].len() && 0 <= j2 < sv[kx].len() implies spec_reachable(
                    g.edges@,
                    sv[kx][j1],
                    sv[kx][j2],
                ) by {}
            }
        }
        // no node sits in two returned cycles
        assert(cycles_disjoint(cycles@)) by {
            assert forall|x1: int, x2: int, v: usize|
                #![trigger cycles@[x1]@.contains(v), cycles@[x2]@.contains(v)]
                0 <= x1 < cycles@.len() && 0 <= x2 < cycles@.len() && x1 != x2 implies !(
            cycles@[x1]@.contains(v) && cycles@[x2]@.contains(v)) by {
                if cycles@[x1]@.contains(v) && cycles@[x2]@.contains(v) {
                    let ka = ks[x1];
                    let kb = ks[x2];
                    assert(in_comp(sv, ka, v) && in_comp(sv, kb, v));
                    lemma_comp_unique(n as int, sv, ka, kb, v);
                    if x1 < x2 {
                        assert(ks[x1] < ks[x2]);
                    } else {
                        assert(ks[x2] < ks[x1]);
                    }
                }
            }
        }
        // every node on a cycle belongs to some returned cycle
        assert forall|v: usize|
            #![trigger on_cycle(g.edges@, v)]
            v < g.nodes@.len() && on_cycle(g.edges@, v) implies in_some_cycle(
            cycles@,
            v,
        ) by {
            let u = choose|u: usize|
                #[trigger] spec_has_edge(g.edges@, v, u) && spec_reachable(g.edges@, u, v);
            let kv = cv@[v as int] as int;
            assert(in_comp(sv, kv, v));
            if !comp_cyclic(g.edges@, sv[kv]) {
                assert(sv[kv].len() == 1);
                let jv = choose|j: int| 0 <= j < sv[kv].len() && sv[kv][j] == v;
                assert(sv[kv][0] == v);
                if u == v {
                    assert(spec_has_edge(g.edges@, sv[kv][0], sv[kv][0]));
                    assert(comp_cyclic(g.edges@, sv[kv]));
                    assert(false);
                } else {
                    let e = choose|e: int|
                        0 <= e < g.edges@.len() && #[trigger] g.edges@[e] == (v, u);
                    assert(u < n);
                    let ku = cv@[u as int] as int;
                    assert(in_comp(sv, ku, u));
                    if ku != kv {
                        assert(in_comp(sv, kv, g.edges@[e].0) && in_comp(
                            sv,
                            ku,
                            g.edges@[e].1,
                        ));
                        assert(ku < kv);
                    }
                    lemma_reach_comp_le(n as int, sv, g.edges@, u, v, ku, kv);
                    assert(ku == kv);
                    assert(sv[kv].contains(u));
                    let ju = choose|j: int| 0 <= j < sv[kv].len() && sv[kv][j] == u;
                    assert(sv[kv][0] == u);
                    assert(false);
                }
            }
            let x = choose|x: int| 0 <= x < cycles@.len() && cycles@[x]@ == sv[kv];
            assert(cycles@[x]@.contains(v));
            assert(in_some_cycle(cycles@, v));
        }
    }
    cycles
}

/// Writing bounds into the members of component `k` leaves every earlier
/// component settled: the earlier equations read only nodes in still
/// earlier components.
proof fn lemma_settled_preserved(
    n: int,
    sv: Seq<Seq<usize>>,
    cvv: Seq<usize>,
    edges: Seq<(usize, usize)>,
    pre: Seq<Node>,
    post: Seq<Node>,
    k: int,
    changed: Seq<usize>,
)
    requires
        is_partition(n, sv),
        is_rev_topo(edges, sv),
        edges_wf(n, edges),
        0 <= k < sv.len(),
        changed == sv[k],
        pre.len() == n,
        post.len() == n,
        cvv.len() == n,
        forall|v: usize|
            #![trigger cvv[v as int]]
            v < n ==> (cvv[v as int] as int) < sv.len() && in_comp(sv, cvv[v as int] as int, v),
        forall|i2: int| 0 <= i2 < n && !changed.contains(i2 as usize) ==> post[i2] == #[trigger]
            pre[i2],
        forall|i2: int| 0 <= i2 < n ==> (#[trigger] post[i2]).local == pre[i2].local,
        forall|k2: int| 0 <= k2 < k ==> settled_comp(pre, edges, #[trigger] sv[k2]),
    ensures
        forall|k2: int| 0 <= k2 < k ==> settled_comp(post, edges, #[trigger] sv[k2]),
{
    assert forall|k2: int| 0 <= k2 < k implies settled_comp(post, edges, #[trigger] sv[k2]) by {
        let c2 = sv[k2];
        // no member of an earlier component changed
        assert forall|j: int|
            0 <= j < c2.len() implies post[(#[trigger] c2[j]) as int] == pre[c2[j] as int] by {
            if changed.contains(c2[j]) {
                let ja = choose|ja: int| 0 <= ja < sv[k].len() && sv[k][ja] == c2[j];
                assert(sv[k][ja] == sv[k2][j]);
                assert(k == k2);
            }
            assert(c2[j] < n);
        }
        // no successor outside the component changed either: its
        // component is even earlier
        assert forall|y: int, xx: int|
            #![trigger succs_of(edges, c2[y])[xx]]
            0 <= y < c2.len() && 0 <= xx < succs_of(edges, c2[y]).len() && !c2.contains(
                succs_of(edges, c2[y])[xx],
            ) implies {
            let s = succs_of(edges, c2[y])[xx];
            &&& (s as int) < n
            &&& post[s as int].max == pre[s as int].max
        } by {
            let s = succs_of(edges, c2[y])[xx];
            lemma_succs_of_complete(edges, c2[y]);
            assert(spec_has_edge(edges, c2[y], s));
            let e = choose|e: int| 0 <= e < edges.len() && #[trigger] edges[e] == (c2[y], s);
            assert(s < n);
            let ks = cvv[s as int] as int;
            assert(in_comp(sv, ks, s));
            assert(in_comp(sv, k2, c2[y])) by {
                assert(c2.contains(c2[y]));
            }
            assert(cvv[c2[y] as int] as int == k2) by {
                lemma_comp_unique(n, sv, cvv[c2[y] as int] as int, k2, c2[y]);
            }
            if ks == k2 {
                assert(sv[k2].contains(s));
                assert(false);
            }
            assert(ks < k2);
            if changed.contains(s) {
                assert(in_comp(sv, k, s));
                lemma_comp_unique(n, sv, ks, k, s);
                assert(false);
            }
        }
        if comp_cyclic(edges, c2) {
            lemma_outside_maxes_frame(pre, post, edges, c2, c2);
            lemma_comp_lifts_frame(pre, post, c2);
            assert(cycle_bound(post, edges, c2) == cycle_bound(pre, edges, c2));
            assert(comp_settled_cycle(post, edges, c2)) by {
                assert forall|j: int| 0 <= j < c2.len() implies post[#[trigger] c2[j] as int].max
                    == Some(cycle_bound(post, edges, c2)) by {
                    assert(pre[c2[j] as int].max == Some(cycle_bound(pre, edges, c2)));
                }
            }
        } else {
            let u = c2[0];
            assert(c2.contains(u));
            let svs = succs_of(edges, u);
            assert forall|xx: int| 0 <= xx < svs.len() implies (#[trigger] svs[xx] as int) < n
                && post[svs[xx] as int].max == pre[svs[xx] as int].max by {
                if c2.contains(svs[xx]) {
                    // the lone member has no self-edge, so it is not its
                    // own successor
                    let jv = choose|j2: int| 0 <= j2 < c2.len() && c2[j2] == svs[xx];
                    assert(c2[jv] == c2[0]);
                    lemma_succs_of_complete(edges, u);
                    assert(spec_has_edge(edges, u, u));
                    assert(comp_cyclic(edges, c2));
                    assert(false);
                } else {
                    assert(succs_of(edges, c2[0])[xx] == svs[xx]);
                }
            }
            lemma_maxes_at_frame(pre, post, svs);
            assert(node_settled_flat(post, edges, u));
        }
    }
}

} // verus!
