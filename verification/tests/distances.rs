use avatar_graph::Graph;
use avatar_graph::Node;

#[test]
fn order() {
    let mut g = Graph::new();
    let a = g.add_node(Node::new(true));
    let b = g.add_node(Node::new(false));
    assert_eq!(g.distance(a), Err(vec![(a, 0)]));
    assert_eq!(g.distance(b), Err(vec![(b, 0)]));
    g.add_edge(a, b);
    assert_eq!(g.distance(a), Ok(vec![(a, 0), (b, 1)]));
    assert_eq!(g.distance(b), Ok(vec![(a, 1), (b, 0)]));
}

#[test]
fn max_avatars() {
    let mut g = Graph::new();
    let a = g.add_node(Node::new(true));
    let b = g.add_node(Node::new(false));
    let c = g.add_node(Node::new(false));
    let d = g.add_node(Node::new(false));
    g.add_edge(a, b);
    g.add_edge(a, c);
    g.add_edge(b, d);
    g.add_edge(c, d);
    assert_eq!(g.max_avatars(a), (2, vec![d]));
}

#[test]
fn avatar3() {
    //      a ----- b
    //      |       |  \
    //      |       |    e
    //      |       |  /
    //      c ----- d
    let mut g = Graph::new();
    let a = g.add_node(Node::new(true));
    let b = g.add_node(Node::new(false));
    let c = g.add_node(Node::new(false));
    let d = g.add_node(Node::new(false));
    let e = g.add_node(Node::new(false));
    g.add_edge(a, b);
    g.add_edge(a, c);
    g.add_edge(b, d);
    g.add_edge(c, d);
    g.add_edge(b, e);
    g.add_edge(d, e);
    assert_eq!(g.avatar_distance(a), vec![(0, 0), (1, 1), (2, 1), (3, 2), (4, 3)]);
}

#[test]
fn contractible() {
    let mut g = Graph::new();
    let a = g.add_node(Node::new(true));
    let b = g.add_node(Node::new(false));
    let c = g.add_node(Node::new(false));
    g.add_edge(a, b);
    g.add_edge(b, c);
    assert_eq!(g.contractible(a), 1);
}

#[test]
fn avatar_graph() {
    let mut g = Graph::new();
    let a = g.add_node(Node::new(true));
    let b = g.add_node(Node::new(false));
    assert_eq!(g.is_avatar_graph(a), false);
    g.add_edge(a, b);
    assert_eq!(g.is_avatar_graph(a), true);
    assert_eq!(g.is_avatar_graph(b), true);
    let c = g.add_node(Node::new(false));
    assert_eq!(g.is_avatar_graph(a), false);
    g.add_edge(a, c);
    assert_eq!(g.is_avatar_graph(a), false);
    let d = g.add_node(Node::new(false));
    assert_eq!(g.is_avatar_graph(a), false);
    g.add_edge(c, d);
    assert_eq!(g.is_avatar_graph(a), false);
    g.add_edge(b, d);
    assert_eq!(g.is_avatar_graph(a), true);
}
