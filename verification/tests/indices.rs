use rembed::atree::ATree;
use rembed::dvec::DVec;
use rembed::dynamic_queries::DynamicQuery;
use rembed::embedding::Embedding;
use rembed::graph::Graph;
use rembed::query::{
    nearest_neighbors_batched, nearest_neighbors_owned, repelling_nodes, RadiusSq, SpatialIndex,
};
use rembed::rng::{rng_from_seed, rng_range};

const UNIT: i32 = 65536;

fn grid_embedding(n_side: i32, spacing: i32) -> Embedding {
    // a square grid graph with positions laid out on the grid
    let mut edges = Vec::new();
    let idx = |x: i32, y: i32| (x * n_side + y) as usize;
    for x in 0..n_side {
        for y in 0..n_side {
            if x + 1 < n_side {
                edges.push((idx(x, y), idx(x + 1, y)));
            }
            if y + 1 < n_side {
                edges.push((idx(x, y), idx(x, y + 1)));
            }
        }
    }
    let graph = Graph::from_edge_list(edges, 2, 2).unwrap();
    let mut positions = Vec::new();
    for x in 0..n_side {
        for y in 0..n_side {
            positions.push(DVec::new(vec![x * spacing, y * spacing]));
        }
    }
    Embedding::new(positions, graph, 2)
}

fn random_embedding(n: usize, dim: usize, seed: u64) -> Embedding {
    // a cycle graph with uniformly random positions
    let mut edges = Vec::new();
    for v in 0..n {
        edges.push((v, (v + 1) % n));
    }
    let graph = Graph::from_edge_list(edges, dim, 2).unwrap();
    let mut rng = rng_from_seed(seed);
    let mut positions = Vec::new();
    for _ in 0..n {
        let mut c = Vec::new();
        for _ in 0..dim {
            c.push(rng_range(&mut rng, -3 * UNIT, 3 * UNIT));
        }
        positions.push(DVec::new(c));
    }
    Embedding::new(positions, graph, dim)
}

#[test]
fn tree_equals_brute_force_after_symmetrization() {
    // the symmetric closure of the tree's answers equals the brute
    // force one on the same inputs, for every vertex
    for seed in [1u64, 7, 42] {
        let emb = random_embedding(60, 3, seed);
        let tree = ATree::new_index(&emb);
        let brute_rows = nearest_neighbors_batched(&emb);
        let tree_rows = nearest_neighbors_batched(&tree);
        assert_eq!(brute_rows, tree_rows);
    }
}

#[test]
fn dynamic_wrapper_equals_brute_force_after_symmetrization() {
    let emb = random_embedding(40, 2, 5);
    let dynq = DynamicQuery::new_index(&emb);
    let brute_rows = nearest_neighbors_batched(&emb);
    let dyn_rows = nearest_neighbors_batched(&dynq);
    assert_eq!(brute_rows, dyn_rows);
}

#[test]
fn positions_update_is_observable() {
    // index.position(v) after update_positions(P) equals P[v]
    let emb = random_embedding(10, 2, 9);
    let mut tree = ATree::new_index(&emb);
    let mut new_positions = Vec::new();
    for v in 0..10i32 {
        new_positions.push(DVec::new(vec![v * 1000, -v * 500]));
    }
    tree.update_positions(&new_positions, None);
    for v in 0..10usize {
        assert_eq!(tree.position(v), &new_positions[v]);
    }
}

#[test]
fn tree_query_is_complete_at_any_radius() {
    // no false negatives relative to brute force, whatever the radius
    let emb = random_embedding(50, 2, 11);
    let tree = ATree::new_index(&emb);
    for (num, den) in [(1u64, 4u64), (1, 1), (4, 1), (25, 1)] {
        let radius = RadiusSq::new(num, den);
        for v in 0..50usize {
            let mut brute: Vec<usize> = Vec::new();
            // brute force over all pairs by the exact predicate
            for u in 0..50usize {
                if u != v {
                    let d2 = emb.position(u).distance_squared(emb.position(v));
                    let w = (emb.weight(u) as u128) * (emb.weight(v) as u128);
                    if d2 * (den as u128) < w * w * (num as u128) {
                        brute.push(u);
                    }
                }
            }
            let mut from_tree = nearest_neighbors_owned(&tree, v, radius);
            from_tree.sort_unstable();
            assert_eq!(from_tree, brute);
        }
    }
}

#[test]
fn repelling_set_excludes_neighbors_and_self() {
    let emb = grid_embedding(4, UNIT / 2);
    let tree = ATree::new_index(&emb);
    for v in 0..16usize {
        let mut out = Vec::new();
        repelling_nodes(&tree, v, &mut out);
        for &u in &out {
            assert_ne!(u, v);
            assert!(!emb.graph.is_connected(v, u));
        }
    }
}

#[test]
fn grid_unit_neighbors_are_the_close_diagonals() {
    // on a half-unit grid with unit weights, each vertex repels exactly
    // the non-adjacent vertices within one weighted unit
    let emb = grid_embedding(3, UNIT / 2);
    let rows = nearest_neighbors_batched(&emb);
    // the center vertex (1,1) = id 4 sees all four diagonal corners and
    // all four adjacent mid-edges; of those, the adjacent ones are
    // graph neighbors
    let center = &rows[4];
    assert!(center.contains(&0));
    assert!(center.contains(&8));
    assert_eq!(center.len(), 8);
}
