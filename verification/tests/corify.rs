use avatar_graph::Graph;
use avatar_graph::Node;

#[test]
fn corify() {
    let mut g = Graph::new();
    let a = g.add_node(Node::new(false));
    let b = g.add_node(Node::new(false));
    let c = g.add_node(Node::new(false));
    let d = g.add_node(Node::new(false));
    g.add_edge(a, b);
    g.add_edge(a, c);
    g.add_edge(b, d);
    g.add_edge(c, d);
    g.corify();
    assert_eq!(g.nodes[a].core, true);
    assert_eq!(g.nodes[b].core, true);
    assert_eq!(g.nodes[c].core, true);
    assert_eq!(g.nodes[d].core, true);
    assert_eq!(g.nodes[a].uniq, Some(d));
    assert_eq!(g.nodes[b].uniq, Some(c));
    assert_eq!(g.nodes[c].uniq, Some(b));
    assert_eq!(g.nodes[d].uniq, Some(a));

    let mut g = Graph::new();
    let a = g.add_node(Node::new(false));
    let b = g.add_node(Node::new(false));
    let c = g.add_node(Node::new(false));
    g.add_edge(a, b);
    g.add_edge(b, c);
    g.add_edge(c, a);
    g.corify();
    assert_eq!(g.cores(), 0);
}

#[test]
fn corify_cube() {
    let mut g = Graph::new();
    let a000 = g.add_node(Node::new(false));
    let a100 = g.add_node(Node::new(false));
    let a010 = g.add_node(Node::new(false));
    let a001 = g.add_node(Node::new(false));
    let a011 = g.add_node(Node::new(false));
    let a101 = g.add_node(Node::new(false));
    let a110 = g.add_node(Node::new(false));
    let a111 = g.add_node(Node::new(false));
    g.add_edge(a000, a100);
    g.add_edge(a000, a010);
    g.add_edge(a000, a001);
    g.add_edge(a100, a110);
    g.add_edge(a100, a101);
    g.add_edge(a010, a110);
    g.add_edge(a010, a011);
    g.add_edge(a001, a101);
    g.add_edge(a001, a011);
    g.add_edge(a011, a111);
    g.add_edge(a101, a111);
    g.add_edge(a110, a111);
    g.corify();
    assert_eq!(g.cores(), 8);


    let mut g = Graph::new();
    let a000 = g.add_node(Node::new(false));
    let a110 = g.add_node(Node::new(false));
    let a101 = g.add_node(Node::new(false));
    let a100 = g.add_node(Node::new(false));
    let a111 = g.add_node(Node::new(false));
    let a010 = g.add_node(Node::new(false));
    let a001 = g.add_node(Node::new(false));
    let a011 = g.add_node(Node::new(false));
    g.add_edge(a010, a011);
    g.add_edge(a001, a011);
    g.add_edge(a000, a010);
    g.add_edge(a010, a110);
    g.add_edge(a101, a111);
    g.add_edge(a000, a001);
    g.add_edge(a011, a111);
    g.add_edge(a100, a110);
    g.add_edge(a100, a101);
    g.add_edge(a000, a100);
    g.add_edge(a001, a101);
    g.add_edge(a110, a111);
    g.corify();
    assert_eq!(g.cores(), 8);
}

#[test]
fn corify_cube4() {
    let mut g = Graph {
        nodes: vec![Node::new(false); 16],
        edges: vec![
            (0, 3), (2, 3), (1, 2), (0, 1),
            (0, 4), (4, 7), (3, 7), (6, 7),
            (2, 6), (5, 6), (1, 5), (4, 5),
            (8, 15), (12, 15), (9, 12), (8, 9),
            (9, 11), (10, 11), (8, 10), (10, 14),
            (13, 14), (11, 13), (12, 13), (14, 15),
            (4, 15), (5, 12), (1, 9), (0, 8),
            (6, 13), (7, 14), (3, 10), (2, 11)
        ]
    };
    g.corify();
    assert_eq!(g.cores(), 16);
}

#[test]
fn corify_5() {
    let mut g = Graph {
        nodes: vec![Node::new(false); 5],
        edges: vec![
            (0, 1), (1, 2),
            (2, 4), (3, 4),
            (0, 3), (2, 3)
        ]
    };
    g.corify();
    assert_eq!(g.cores(), 2);
}

#[test]
fn corify_7() {
    let mut g = Graph {
        //     __ 6 __
        //   4 __   __  5
        //   | __ 2 __  |
        //   0 __   __  1
        //        3
        nodes: vec![Node::new(false); 7],
        edges: vec![
            (0, 3), (1, 3), (1, 2),
            (0, 2), (0, 4), (2, 4),
            (2, 5), (1, 5), (5, 6),
            (4, 6)
        ]
    };
    g.corify();
    assert_eq!(g.cores(), 2);
}

#[test]
fn wagner() {
    //              1
    //         6    |    7
    //    2 ------- | ------- 3
    //         5    |    4
    //              0
    let mut g = Graph {
        nodes: vec![Node::new(false); 8],
        edges: vec![
            (0, 1), (2, 3), (5, 7), (4, 6),
            (0, 4), (0, 5), (2, 5), (2, 6),
            (1, 6), (1, 7), (3, 7), (3, 4)
        ]
    };
    g.corify();
    assert_eq!(g.cores(), 8);
}

#[test]
fn corify_8() {
    //        0
    //     4 _  _ 6
    //  2   _ X _     3
    //     7      5
    //        1
    let mut g = Graph {
        nodes: vec![Node::new(false); 8],
        edges: vec![
            (0, 6), (3, 6), (3, 5),
            (1, 5), (1, 7), (2, 7),
            (2, 4), (0, 4), (4, 5),
            (6, 7)
        ]
    };
    g.corify();
    assert_eq!(g.cores(), 8);
}

#[test]
fn corify_9() {
    //                   8
    //              /          \
    //          /                  \
    //        0------1-------2-------3
    //        |        \   /         |
    //        |         \/           |
    //        |         /\           |
    //        |       /    \         |
    //        4------5-------6-------7
    //          \                  /
    //              \         /
    //                   9
    let mut g = Graph {
        nodes: vec![Node { core: false, uniq: None }; 10],
        edges: vec![
            (0, 8), (3, 8), (0, 1), (1, 2),
            (2, 3), (0, 4), (1, 6), (2, 5),
            (3, 7), (4, 5), (5, 6), (6, 7),
            (4, 9), (7, 9)
        ]
    };
    g.corify();
    // assert_eq!(g.cores(), 4);
}

#[test]
fn corify_10() {
    //  0 ------- 1
    //  |         |
    //  2         |
    // 4 3 ------ 5
    let mut g = Graph {
        nodes: vec![Node { core: false, uniq: None }; 6],
        edges: vec![
            (0, 1), (0, 2), (2, 4), (3, 4),
            (2, 3), (3, 5), (1, 5)
        ]
    };
    g.corify();
    // assert_eq!(g.cores(), 3);
}
