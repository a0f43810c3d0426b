use call_stack::analyze::analyze;
use call_stack::graph::{filter_reachable, Graph};
use call_stack::metrics::{Local, Max};
use call_stack::node::Node;

fn named(g: &Graph, name: &str) -> usize {
    for (i, n) in g.nodes.iter().enumerate() {
        if n.name == name {
            return i;
        }
    }
    panic!("no node named {}", name);
}

#[test]
fn linear_chain() {
    let mut g = Graph::new();
    let a = g.add_node(Node("A".to_string(), Some(4), false));
    let b = g.add_node(Node("B".to_string(), Some(8), false));
    let c = g.add_node(Node("C".to_string(), Some(16), false));
    g.add_edge(a, b);
    g.add_edge(b, c);
    let cycles = analyze(&mut g);
    assert!(cycles.is_empty());
    assert_eq!(g.nodes[a].max, Some(Max::Exact(28)));
    assert_eq!(g.nodes[b].max, Some(Max::Exact(24)));
    assert_eq!(g.nodes[c].max, Some(Max::Exact(16)));
}

#[test]
fn simple_cycle_of_zeros() {
    let mut g = Graph::new();
    let a = g.add_node(Node("A".to_string(), Some(0), false));
    let b = g.add_node(Node("B".to_string(), Some(0), false));
    g.add_edge(a, b);
    g.add_edge(b, a);
    let cycles = analyze(&mut g);
    assert_eq!(cycles.len(), 1);
    assert_eq!(g.nodes[a].max, Some(Max::Exact(0)));
    assert_eq!(g.nodes[b].max, Some(Max::Exact(0)));
}

#[test]
fn nonzero_cycle_is_lower_bound() {
    let mut g = Graph::new();
    let a = g.add_node(Node("A".to_string(), Some(8), false));
    let b = g.add_node(Node("B".to_string(), Some(4), false));
    g.add_edge(a, b);
    g.add_edge(b, a);
    let cycles = analyze(&mut g);
    assert_eq!(cycles.len(), 1);
    assert_eq!(g.nodes[a].max, Some(Max::LowerBound(8)));
    assert_eq!(g.nodes[b].max, Some(Max::LowerBound(8)));
}

#[test]
fn unknown_local_propagates_lower_bound() {
    let mut g = Graph::new();
    let a = g.add_node(Node("A".to_string(), Some(4), false));
    let b = g.add_node(Node("B".to_string(), None, false));
    g.add_edge(a, b);
    analyze(&mut g);
    assert_eq!(g.nodes[b].max, Some(Max::LowerBound(0)));
    assert_eq!(g.nodes[a].max, Some(Max::LowerBound(4)));
}

#[test]
fn self_loop_is_a_cycle() {
    let mut g = Graph::new();
    let a = g.add_node(Node("A".to_string(), Some(8), false));
    g.add_edge(a, a);
    let cycles = analyze(&mut g);
    assert_eq!(cycles.len(), 1);
    assert_eq!(g.nodes[a].max, Some(Max::LowerBound(8)));
}

#[test]
fn filter_keeps_reachable_only() {
    let mut g = Graph::new();
    let a = g.add_node(Node("A".to_string(), Some(1), false));
    let b = g.add_node(Node("B".to_string(), Some(2), false));
    let c = g.add_node(Node("C".to_string(), Some(3), false));
    let d = g.add_node(Node("D".to_string(), Some(4), false));
    let e = g.add_node(Node("E".to_string(), Some(5), false));
    g.add_edge(a, b);
    g.add_edge(a, c);
    g.add_edge(d, e);
    let (g2, map) = filter_reachable(&g, a);
    assert_eq!(g2.nodes.len(), 3);
    let mut names: Vec<String> = g2.nodes.iter().map(|n| n.name.clone()).collect();
    names.sort();
    assert_eq!(names, vec!["A".to_string(), "B".to_string(), "C".to_string()]);
    assert_eq!(map.len(), 3);
    // edges survive between kept nodes
    let a2 = named(&g2, "A");
    let b2 = named(&g2, "B");
    let c2 = named(&g2, "C");
    assert!(g2.has_edge(a2, b2));
    assert!(g2.has_edge(a2, c2));
    assert_eq!(g2.edges.len(), 2);
    assert_eq!(g.nodes[d].name, "D");
}

#[test]
fn diamond_takes_the_weaker_branch() {
    let mut g = Graph::new();
    let a = g.add_node(Node("A".to_string(), Some(10), false));
    let b = g.add_node(Node("B".to_string(), Some(1), false));
    let c = g.add_node(Node("C".to_string(), Some(100), false));
    g.add_edge(a, b);
    g.add_edge(a, c);
    analyze(&mut g);
    assert_eq!(g.nodes[a].max, Some(Max::Exact(110)));
}

#[test]
fn analysis_keeps_locals_and_names() {
    let mut g = Graph::new();
    let a = g.add_node(Node("A".to_string(), Some(4), false));
    analyze(&mut g);
    assert_eq!(g.nodes[a].name, "A");
    assert_eq!(g.nodes[a].local, Local::Exact(4));
    assert_eq!(g.nodes[a].max, Some(Max::Exact(4)));
}
