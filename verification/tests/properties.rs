use avatar_graph::Graph;
use avatar_graph::Node;

fn graph_of(nodes: usize, edges: &[(usize, usize)]) -> Graph {
    let mut g = Graph::new();
    for _ in 0..nodes {
        g.add_node(Node::new(false));
    }
    for &(a, b) in edges {
        g.add_edge(a, b);
    }
    g
}

fn square() -> Graph {
    graph_of(4, &[(0, 1), (0, 2), (1, 3), (2, 3)])
}

fn pentagon() -> Graph {
    graph_of(5, &[(0, 1), (0, 2), (1, 3), (2, 3), (1, 4), (3, 4)])
}

fn assert_edges_in_order(g: &Graph) {
    for (i, &(a, b)) in g.edges.iter().enumerate() {
        assert!(a <= b);
        assert!(b < g.nodes.len());
        for j in 0..i {
            assert_ne!(g.edges[j], (a, b));
        }
    }
}

#[test]
fn edges_are_stored_smaller_endpoint_first() {
    let mut g = graph_of(4, &[]);
    assert_eq!(g.add_edge(3, 1), 0);
    assert_eq!(g.add_edge(2, 0), 1);
    assert_eq!(g.add_edge(1, 3), 0);
    assert_eq!(g.add_edge(2, 2), 2);
    assert_eq!(g.edges, vec![(1, 3), (0, 2), (2, 2)]);
    assert_edges_in_order(&g);
    g.swap(0, 3);
    assert_eq!(g.edges, vec![(0, 1), (2, 3), (2, 2)]);
    assert_edges_in_order(&g);
    g.remove_self_edges();
    assert_eq!(g.edges, vec![(0, 1), (2, 3)]);
    assert_edges_in_order(&g);
    g.corify();
    assert_edges_in_order(&g);
}

#[test]
fn adding_an_edge_twice_adds_it_once() {
    let mut g = graph_of(3, &[(0, 1)]);
    let first = g.add_edge(2, 1);
    let len = g.edges.len();
    let second = g.add_edge(2, 1);
    let third = g.add_edge(1, 2);
    assert_eq!(first, 1);
    assert_eq!(second, first);
    assert_eq!(third, first);
    assert_eq!(g.edges.len(), len);
    assert_eq!(g.edges, vec![(0, 1), (1, 2)]);
}

#[test]
fn distance_to_the_source_is_zero() {
    let g = pentagon();
    for v in 0..5 {
        let d = g.distance(v).unwrap();
        assert_eq!(d[v], (v, 0));
    }
}

#[test]
fn distance_succeeds_where_all_nodes_are_reached() {
    let mut g = pentagon();
    for v in 0..5 {
        assert!(g.distance(v).is_ok());
    }
    assert_eq!(g.distance(0), Ok(vec![(0, 0), (1, 1), (2, 1), (3, 2), (4, 2)]));
    let lost = g.add_node(Node::new(false));
    for v in 0..5 {
        assert!(g.distance(v).is_err());
    }
    assert_eq!(g.distance(0), Err(vec![(0, 0), (1, 1), (2, 1), (3, 2), (4, 2)]));
    assert_eq!(g.distance(lost), Err(vec![(lost, 0)]));
    g.add_edge(lost, 4);
    for v in 0..6 {
        assert!(g.distance(v).is_ok());
    }
}

#[test]
fn highest_avatars_hold_the_largest_avatar_distance() {
    for g in [square(), pentagon(), graph_of(3, &[(0, 1), (1, 2), (0, 2)])] {
        for v in 0..g.nodes.len() {
            let (max, avatars) = g.max_avatars(v);
            let dist = g.avatar_distance(v);
            assert!(!avatars.is_empty());
            for &(_, n) in &dist {
                assert!(n <= max);
            }
            for &a in &avatars {
                assert_eq!(dist[a], (a, max));
            }
            for &(a, n) in &dist {
                assert_eq!(n == max, avatars.contains(&a));
            }
        }
    }
    assert_eq!(pentagon().max_avatars(0), (3, vec![4]));
    assert_eq!(graph_of(3, &[(0, 1), (1, 2), (0, 2)]).max_avatars(0), (2, vec![1]));
    assert_eq!(graph_of(3, &[(0, 1), (0, 2)]).max_avatars(0), (1, vec![1, 2]));
}

fn flags_of(g: &Graph) -> Vec<(bool, Option<usize>)> {
    g.nodes.iter().map(|n| (n.core, n.uniq)).collect()
}

#[test]
fn corify_twice_is_corify_once() {
    let graphs = [
        square(),
        pentagon(),
        graph_of(3, &[(0, 1), (1, 2), (0, 2)]),
        graph_of(5, &[(0, 1), (1, 2), (2, 4), (3, 4), (0, 3), (2, 3)]),
        graph_of(4, &[(0, 1), (2, 3)]),
    ];
    for mut g in graphs {
        g.corify();
        let flags = flags_of(&g);
        let edges = g.edges.clone();
        g.corify();
        assert_eq!(flags_of(&g), flags);
        assert_eq!(g.edges, edges);
    }
}

#[test]
fn corify_marks_what_the_predicate_accepts() {
    let graphs = [
        square(),
        pentagon(),
        graph_of(5, &[(0, 1), (1, 2), (2, 4), (3, 4), (0, 3), (2, 3)]),
        graph_of(2, &[(0, 1)]),
        graph_of(1, &[]),
    ];
    for mut g in graphs {
        let before: Vec<bool> = (0..g.nodes.len()).map(|i| g.is_avatar_graph(i)).collect();
        let edges = g.edges.clone();
        g.corify();
        assert_eq!(g.edges, edges);
        for i in 0..g.nodes.len() {
            assert_eq!(g.nodes[i].core, before[i]);
            assert_eq!(g.nodes[i].core, g.is_avatar_graph(i));
            assert_eq!(g.nodes[i].uniq.is_some(), g.nodes[i].core);
            if g.nodes[i].core {
                assert_eq!(g.nodes[i].uniq, Some(g.max_avatars(i).1[0]));
            }
        }
    }
}

#[test]
fn swapping_twice_gives_the_graph_back() {
    let mut g = pentagon();
    g.nodes[0].core = true;
    g.nodes[0].uniq = Some(4);
    g.nodes[3].uniq = Some(3);
    g.nodes[4].uniq = Some(1);
    let flags = flags_of(&g);
    let edges = g.edges.clone();
    g.swap(1, 4);
    assert_eq!(g.edges, vec![(0, 4), (0, 2), (3, 4), (2, 3), (1, 4), (1, 3)]);
    assert_eq!(
        flags_of(&g),
        vec![(true, Some(1)), (false, Some(4)), (false, None), (false, Some(3)), (false, None)]
    );
    g.swap(1, 4);
    assert_eq!(g.edges, edges);
    assert_eq!(flags_of(&g), flags);
    g.swap(2, 2);
    assert_eq!(g.edges, edges);
    assert_eq!(flags_of(&g), flags);
}

#[test]
fn matrix_entries_tell_of_edges_and_unique_edges() {
    let mut g = pentagon();
    g.nodes[4].uniq = Some(0);
    g.nodes[1].uniq = Some(3);
    g.nodes[2].uniq = Some(2);
    let mat = g.matrix();
    assert_eq!(
        mat,
        vec![
            vec![0, 1, 1, 0, 2],
            vec![0, 0, 0, 3, 1],
            vec![0, 0, 2, 1, 0],
            vec![0, 0, 0, 0, 1],
            vec![0, 0, 0, 0, 0],
        ]
    );
    for i in 0..5 {
        for j in 0..5 {
            let edge = g.edges.contains(&(i, j));
            let uniq = (0..5).any(|v| match g.nodes[v].uniq {
                Some(u) => (v.min(u), v.max(u)) == (i, j),
                None => false,
            });
            assert!(mat[i][j] <= 3);
            assert_eq!(mat[i][j] & 1 == 1, edge);
            assert_eq!(mat[i][j] & 2 == 2, uniq);
        }
    }
}
