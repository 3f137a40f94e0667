use rembed::graph::{Graph, GraphError, WEIGHT_SCALE};

fn path3() -> Graph {
    Graph::from_edge_list(vec![(0, 1), (1, 2)], 2, 2).unwrap()
}

#[test]
fn neighbors_sorted_and_deduplicated() {
    // duplicate edges are tolerated; neighbor lists come out sorted and
    // free of duplicates
    let g = Graph::from_edge_list(vec![(2, 0), (0, 1), (2, 0), (0, 2)], 2, 2).unwrap();
    assert_eq!(g.num_nodes(), 3);
    assert_eq!(g.neighbors(0).as_slice(), &[1, 2]);
    assert_eq!(g.neighbors(1).as_slice(), &[0]);
    assert_eq!(g.neighbors(2).as_slice(), &[0]);
}

#[test]
fn is_connected_matches_edges() {
    let g = path3();
    assert!(g.is_connected(0, 1));
    assert!(g.is_connected(1, 0));
    assert!(g.is_connected(1, 2));
    assert!(!g.is_connected(0, 2));
    assert!(!g.is_connected(0, 0));
}

#[test]
fn self_loops_are_rejected() {
    let r = Graph::from_edge_list(vec![(0, 1), (2, 2)], 2, 2);
    assert_eq!(r.err(), Some(GraphError::SelfLoop));
}

#[test]
fn oversized_ids_are_rejected() {
    let r = Graph::from_edge_list(vec![(0, 0x200_0000)], 2, 2);
    assert_eq!(r.err(), Some(GraphError::TooLarge));
}

#[test]
fn single_edge_weights_are_unit() {
    // one edge, two nodes of degree one, dimension == hint: the weight
    // formula gives exactly one unit for both endpoints
    let g = Graph::from_edge_list(vec![(0, 1)], 2, 2).unwrap();
    assert_eq!(g.weight(0), WEIGHT_SCALE);
    assert_eq!(g.weight(1), WEIGHT_SCALE);
}

#[test]
fn hub_weighs_more_than_leaves() {
    // a star: the center's degree, hence weight, dominates
    let g = Graph::from_edge_list(vec![(0, 1), (0, 2), (0, 3), (0, 4), (0, 5)], 2, 2).unwrap();
    assert!(g.weight(0) > g.weight(1));
    assert_eq!(g.weight(1), g.weight(5));
}
