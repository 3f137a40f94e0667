use rembed::atree::ATree;
use rembed::dvec::DVec;
use rembed::embedder::{
    attraction_force, repulsion_force, AdamOptimizer, EmbedderOptions, WEmbedder, JITTER_CAP,
};
use rembed::embedding::Embedding;
use rembed::graph::Graph;
use rembed::math::Ratio;
use rembed::query::SpatialIndex;
use rembed::rng::rng_from_seed;

const UNIT: i32 = 65536;

#[test]
fn adam_update_is_deterministic() {
    // identical states and identical forces give identical outputs
    let lr = Ratio::new(10, 1);
    let cool = Ratio::new(99, 100);
    let mut a = AdamOptimizer::new(2, 2, lr, cool);
    let mut b = AdamOptimizer::new(2, 2, lr, cool);
    let mut pa = vec![DVec::new(vec![5, -7]), DVec::new(vec![100, 3])];
    let mut pb = vec![DVec::new(vec![5, -7]), DVec::new(vec![100, 3])];
    let forces = vec![vec![1000i64, -2000], vec![0, 40000]];
    for _ in 0..5 {
        a.update(&mut pa, &forces);
        b.update(&mut pb, &forces);
    }
    assert_eq!(pa, pb);
}

#[test]
fn single_vertex_step_is_a_no_op() {
    // N = 1: no edges, zero force, zero moments: the position is fixed
    let graph = Graph::from_edge_list(vec![(0, 1)], 2, 2).unwrap();
    // restrict to one vertex by using a one-node graph built directly
    let one = Graph {
        nodes: vec![rembed::graph::Node { weight: 256, neighbors: vec![] }],
        edges: vec![],
    };
    let emb = Embedding::new(vec![DVec::new(vec![123, -456])], one, 2);
    let tree = ATree::new_index(&emb);
    let mut engine: WEmbedder<ATree> = WEmbedder::new(tree, EmbedderOptions::default());
    engine.calculate_step();
    assert_eq!(engine.positions()[0], DVec::new(vec![123, -456]));
    drop(graph);
}

#[test]
fn repulsion_is_antisymmetric() {
    let pv = DVec::new(vec![1000, 2000, -500]);
    let pu = DVec::new(vec![1300, 1800, -900]);
    let scale = Ratio::new(1, 1);
    let mut rng = rng_from_seed(0);
    let f_vu = repulsion_force(&pv, &pu, 256, 256, scale, &mut rng);
    let f_uv = repulsion_force(&pu, &pv, 256, 256, scale, &mut rng);
    assert_eq!(f_vu.len(), 3);
    for i in 0..3 {
        assert_eq!(f_vu[i], -f_uv[i]);
    }
    // close pair: the force is active and pushes v away from u
    assert!(f_vu.iter().any(|&c| c != 0));
}

#[test]
fn forces_vanish_beyond_and_within_the_weighted_unit()
{
    let scale = Ratio::new(1, 1);
    let mut rng = rng_from_seed(3);
    let near = DVec::new(vec![0, 0]);
    let far = DVec::new(vec![3 * UNIT, 0]);
    // attraction acts only beyond one weighted unit; repulsion only
    // within it
    let att = attraction_force(&near, &far, 256, 256, scale, &mut rng);
    assert!(att[0] > 0);
    let rep = repulsion_force(&near, &far, 256, 256, scale, &mut rng);
    assert_eq!(rep, vec![0, 0]);
    let close = DVec::new(vec![UNIT / 2, 0]);
    let att2 = attraction_force(&near, &close, 256, 256, scale, &mut rng);
    assert_eq!(att2, vec![0, 0]);
    let rep2 = repulsion_force(&near, &close, 256, 256, scale, &mut rng);
    assert!(rep2[0] < 0);
}

#[test]
fn coincident_positions_jitter_within_bounds() {
    // identical positions draw a bounded jitter instead of dividing by
    // a zero distance
    let p = DVec::new(vec![777, 777]);
    let q = DVec::new(vec![777, 777]);
    let scale = Ratio::new(1, 1);
    let mut rng = rng_from_seed(8);
    for _ in 0..20 {
        let f = attraction_force(&p, &q, 256, 256, scale, &mut rng);
        for &c in f.iter() {
            assert!(c.abs() <= JITTER_CAP as i64);
        }
    }
}

#[test]
fn two_connected_vertices_settle_within_their_weighted_distance() {
    // a single edge: attraction acts until the weighted distance is at
    // most one, here one geometric unit, and nothing pushes an adjacent
    // pair apart again, so every run ends inside the unit ball. The
    // exact resting point depends on the optimizer's momentum when the
    // pair first crosses the boundary.
    for start in [3i32, 6, 12] {
        let graph = Graph::from_edge_list(vec![(0, 1)], 2, 2).unwrap();
        let emb = Embedding::new(
            vec![DVec::new(vec![0, 0]), DVec::new(vec![start * UNIT / 2, 0])],
            graph,
            2,
        );
        let tree = ATree::new_index(&emb);
        let mut engine: WEmbedder<ATree> = WEmbedder::new(tree, EmbedderOptions::default());
        engine.embed();
        let p = engine.positions();
        let d2 = p[0].distance_squared(&p[1]);
        let d = (d2 as f64).sqrt() / UNIT as f64;
        assert!(d > 0.0, "pair collapsed from start {}", start);
        assert!(d <= 1.01, "pair still {} units apart from start {}", d, start);
    }
}

#[test]
fn embedding_a_path_respects_the_iteration_cap() {
    let graph = Graph::from_edge_list(vec![(0, 1), (1, 2)], 2, 2).unwrap();
    let mut opts = EmbedderOptions::default();
    opts.max_iterations = 40;
    let mut engine: WEmbedder<ATree> = WEmbedder::random(7, &graph, 2, opts);
    engine.embed();
    assert!(engine.iteration() <= 40);
    // history sampled every tenth iteration
    assert!(engine.history().len() >= 2);
}
