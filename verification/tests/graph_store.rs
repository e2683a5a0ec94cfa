use avatar_graph::Graph;
use avatar_graph::Node;

#[test]
fn simple_graph() {
    let mut g = Graph::new();
    let a = g.add_node(Node::new(true));
    let b = g.add_node(Node::new(false));
    g.add_edge(a, b);
    assert_eq!(g.nodes.len(), 2);
    assert_eq!(g.edges.len(), 1);
    assert_eq!(g.cores(), 1);
    assert_eq!(g.non_cores(), 1);
    assert_eq!(g.edges_of(a), vec![b]);
    assert_eq!(g.edges_of(b), vec![a]);
    assert_eq!(g.self_edges(), 0);
    assert_eq!(g.matrix(), vec![
        vec![0, 1],
        vec![0, 0]
    ]);
    assert_eq!(g.unique_edges(), 0);
}

#[test]
fn remove_self_edges() {
    let mut g = Graph::new();
    let a = g.add_node(Node::new(true));
    g.add_edge(a, a);
    assert_eq!(g.self_edges(), 1);
    g.remove_self_edges();
    assert_eq!(g.self_edges(), 0);
    assert_eq!(g.matrix(), vec![
        vec![0]
    ]);
    assert_eq!(g.unique_edges(), 0);
}

#[test]
fn unique_edge() {
    let mut g = Graph::new();
    let a = g.add_node(Node::new(true));
    let b = g.add_node(Node::new(false));
    assert_eq!(g.matrix(), vec![
        vec![0, 0],
        vec![0, 0]
    ]);
    assert_eq!(g.unique_edges(), 0);
    g.nodes[a].uniq = Some(b);
    assert_eq!(g.unique_edges(), 1);
    assert_eq!(g.matrix(), vec![
        vec![0, 2],
        vec![0, 0]
    ]);
    g.add_edge(a, b);
    assert_eq!(g.matrix(), vec![
        vec![0, 3],
        vec![0, 0]
    ]);
    assert_eq!(g.unique_edges(), 1);
}

#[test]
fn self_unique_edge() {
    let mut g = Graph::new();
    let a = g.add_node(Node::new(true));
    assert_eq!(g.self_unique_edges(), 0);
    g.nodes[a].uniq = Some(a);
    assert_eq!(g.self_unique_edges(), 1);
    g.remove_self_unique_edges();
    assert_eq!(g.self_unique_edges(), 0);
}

#[test]
fn swap() {
    let mut g = Graph::new();
    let a = g.add_node(Node::new(true));
    let b = g.add_node(Node::new(false));
    let c = g.add_node(Node::new(false));
    g.add_edge(a, b);
    g.add_edge(a, c);
    assert_eq!(g.edges, vec![(0, 1), (0, 2)]);
    g.swap(a, b);
    assert_eq!(g.edges, vec![(0, 1), (1, 2)]);
}
