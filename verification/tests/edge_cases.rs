use avatar_graph::Graph;
use avatar_graph::Node;

fn graph_with(nodes: usize, edges: &[(usize, usize)]) -> Graph {
    let mut g = Graph::new();
    for _ in 0..nodes {
        g.add_node(Node::new(false));
    }
    for &(a, b) in edges {
        g.add_edge(a, b);
    }
    g
}

fn layers_of_two(layers: usize) -> Graph {
    let mut g = graph_with(1 + 2 * layers, &[(0, 1), (0, 2)]);
    for k in 1..layers {
        g.add_edge(2 * k - 1, 2 * k + 1);
        g.add_edge(2 * k - 1, 2 * k + 2);
        g.add_edge(2 * k, 2 * k + 1);
        g.add_edge(2 * k, 2 * k + 2);
    }
    g
}

#[test]
fn a_lone_node_has_no_complete_distances() {
    let g = graph_with(1, &[]);
    assert_eq!(g.distance(0), Err(vec![(0, 0)]));
    assert_eq!(g.is_avatar_graph(0), false);
    assert_eq!(g.along(0, 0), Err(()));
    assert_eq!(g.all_reachable_along(0, 0), false);
    let mut looped = graph_with(1, &[(0, 0)]);
    assert_eq!(looped.distance(0), Err(vec![(0, 0)]));
    looped.corify();
    assert_eq!(looped.cores(), 0);
    assert_eq!(looped.unique_edges(), 0);
}

#[test]
fn a_loop_names_its_node_twice() {
    let g = graph_with(3, &[(1, 1), (0, 1), (1, 2)]);
    assert_eq!(g.edges_of(1), vec![1, 1, 0, 2]);
    assert_eq!(g.edges_of(0), vec![1]);
    assert_eq!(g.self_edges(), 1);
    assert_eq!(g.distance(0), Ok(vec![(0, 0), (1, 1), (2, 2)]));
}

#[test]
fn removing_loops_moves_the_last_edge_into_the_gap() {
    let mut g = graph_with(4, &[(0, 0), (0, 1), (2, 2), (1, 2), (3, 3), (2, 3)]);
    assert_eq!(g.self_edges(), 3);
    g.remove_self_edges();
    assert_eq!(g.edges, vec![(1, 2), (0, 1), (2, 3)]);
    assert_eq!(g.self_edges(), 0);
}

#[test]
fn distances_are_lowered_where_a_shorter_way_is_found_late() {
    let g = graph_with(5, &[(0, 4), (3, 4), (2, 3), (1, 2), (0, 1)]);
    assert_eq!(g.distance(0), Ok(vec![(0, 0), (1, 1), (2, 2), (3, 2), (4, 1)]));
}

#[test]
fn a_failed_distance_keeps_the_numbers_of_the_first_phase() {
    let g = graph_with(6, &[(0, 4), (3, 4), (2, 3), (1, 2), (0, 1)]);
    assert_eq!(g.distance(0), Err(vec![(0, 0), (1, 1), (2, 3), (3, 2), (4, 1)]));
    assert_eq!(g.avatar_distance(0), vec![(0, 0), (1, 1), (2, 3), (3, 2), (4, 1)]);
    assert_eq!(g.distance(5), Err(vec![(5, 0)]));
    assert_eq!(g.avatar_distance(5), vec![(5, 0)]);
    assert_eq!(g.max_avatars(5), (0, vec![5]));
}

#[test]
fn counts_of_nodes_add_up() {
    let mut g = graph_with(4, &[(0, 1)]);
    g.nodes[1].core = true;
    g.nodes[3].core = true;
    g.nodes[0].uniq = Some(0);
    g.nodes[1].uniq = Some(2);
    g.nodes[2].uniq = Some(2);
    assert_eq!(g.cores(), 2);
    assert_eq!(g.non_cores(), 2);
    assert_eq!(g.unique_edges(), 3);
    assert_eq!(g.self_unique_edges(), 2);
    g.remove_self_unique_edges();
    assert_eq!(g.unique_edges(), 1);
    assert_eq!(g.self_unique_edges(), 0);
    assert_eq!(g.nodes[1].uniq, Some(2));
    assert_eq!(g.nodes[1].core, true);
    assert_eq!(g.cores(), 2);
}

#[test]
fn avatar_distances_of_a_square_and_a_triangle() {
    let square = graph_with(4, &[(0, 1), (0, 2), (1, 3), (2, 3)]);
    assert_eq!(square.avatar_distance(0), vec![(0, 0), (1, 1), (2, 1), (3, 2)]);
    assert_eq!(square.avatar_distance(3), vec![(0, 2), (1, 1), (2, 1), (3, 0)]);
    assert_eq!(square.avatar_connectivity(0), true);
    assert_eq!(square.avatar_connectivity_failures_of(0), Vec::<usize>::new());
    let triangle = graph_with(3, &[(0, 1), (1, 2), (0, 2)]);
    assert_eq!(triangle.avatar_distance(0), vec![(0, 0), (1, 2), (2, 1)]);
    assert_eq!(triangle.avatar_connectivity(0), false);
    assert_eq!(triangle.avatar_connectivity_failures_of(0), vec![1]);
    assert_eq!(triangle.max_avatars(0), (2, vec![1]));
}

#[test]
fn contractible_nodes_of_a_path() {
    let path = graph_with(4, &[(0, 1), (1, 2), (2, 3)]);
    assert_eq!(path.contractibles_of(0), vec![2, 3]);
    assert_eq!(path.contractible(0), 2);
    assert_eq!(path.contractibles_of(1), vec![3]);
    assert_eq!(path.contractibles_of(3), vec![1, 0]);
    let square = graph_with(4, &[(0, 1), (0, 2), (1, 3), (2, 3)]);
    assert_eq!(square.contractibles_of(0), Vec::<usize>::new());
    assert_eq!(square.contractible(0), 0);
}

#[test]
fn walks_along_stop_at_the_target_and_never_move_away() {
    let path = graph_with(3, &[(0, 1), (1, 2)]);
    assert_eq!(path.along(1, 0), Ok(vec![0, 1]));
    assert_eq!(path.along(2, 0), Ok(vec![0, 1, 2]));
    assert_eq!(path.along(0, 0), Ok(vec![0]));
    assert_eq!(path.along(0, 1), Ok(vec![0, 1]));
    assert_eq!(path.all_reachable_along(2, 0), true);
    assert_eq!(path.all_reachable_along(1, 0), false);
    assert_eq!(path.all_reachable_along(0, 1), false);
    let square = graph_with(4, &[(0, 1), (0, 2), (1, 3), (2, 3)]);
    assert_eq!(square.along(3, 0), Ok(vec![0, 1, 2, 3]));
    assert_eq!(square.along(1, 0), Ok(vec![0, 1]));
    assert_eq!(square.all_reachable_along(3, 0), true);
    let star = graph_with(4, &[(0, 1), (0, 2), (0, 3)]);
    assert_eq!(star.along(1, 0), Ok(vec![0, 1]));
    assert_eq!(star.along(1, 2), Ok(vec![0, 1, 2, 3]));
}

#[test]
fn walks_along_fail_without_complete_distances() {
    let g = graph_with(3, &[(0, 1)]);
    assert_eq!(g.along(0, 1), Err(()));
    assert_eq!(g.along(2, 2), Err(()));
    assert_eq!(g.all_reachable_along(0, 1), false);
    let joined = graph_with(2, &[(0, 1)]);
    assert_eq!(joined.along(0, 1), Ok(vec![0, 1]));
    assert_eq!(joined.along(2, 1), Err(()));
    assert_eq!(joined.along(usize::MAX, 1), Err(()));
    assert_eq!(joined.all_reachable_along(7, 1), false);
}

#[test]
fn a_graph_without_nodes_has_no_highest_avatar() {
    let g = Graph::new();
    assert_eq!(g.max_avatars(0), (0, vec![]));
    assert_eq!(g.matrix(), Vec::<Vec<u8>>::new());
    assert_eq!(g.cores(), 0);
    assert_eq!(g.non_cores(), 0);
}

#[test]
fn avatar_distances_double_from_layer_to_layer() {
    let g = layers_of_two(64);
    assert_eq!(g.nodes.len(), 129);
    assert_eq!(g.avatar_distances_fit(0), true);
    let dist = g.avatar_distance(0);
    assert_eq!(dist[1], (1, 1));
    assert_eq!(dist[3], (3, 2));
    assert_eq!(dist[6], (6, 4));
    assert_eq!(dist[128], (128, 1u64 << 63));
    assert_eq!(g.max_avatars(0), (9223372036854775808, vec![127, 128]));
}

#[test]
fn avatar_distances_beyond_a_machine_word_are_told() {
    let g = layers_of_two(65);
    assert_eq!(g.nodes.len(), 131);
    assert_eq!(g.avatar_distances_fit(0), false);
    assert_eq!(g.avatar_distances_fit(1), true);
    assert_eq!(g.distance(0).map(|d| d[130]), Ok((130, 65)));
}

#[test]
fn a_store_out_of_order_is_told() {
    let g = graph_with(3, &[(0, 1), (2, 1), (2, 2)]);
    assert_eq!(g.is_valid(), true);
    assert_eq!(Graph::new().is_valid(), true);
    let mut turned = graph_with(3, &[(0, 1)]);
    turned.edges.push((2, 1));
    assert_eq!(turned.is_valid(), false);
    let mut twice = graph_with(3, &[(0, 1), (1, 2)]);
    twice.edges.push((0, 1));
    assert_eq!(twice.is_valid(), false);
    let mut far = graph_with(3, &[(0, 1)]);
    far.edges.push((1, 3));
    assert_eq!(far.is_valid(), false);
    let mut lost = graph_with(3, &[(0, 1)]);
    lost.nodes[1].uniq = Some(3);
    assert_eq!(lost.is_valid(), false);
    lost.nodes[1].uniq = Some(2);
    assert_eq!(lost.is_valid(), true);
}
