//! The brute-force spatial index: a plain position array over a graph.
//! Its radius query scans every vertex below the queried one and tests
//! the weighted-radius predicate directly; it is the semantic baseline
//! the accelerated indices are measured against.

use vstd::prelude::*;
use crate::NodeId;
use crate::dvec::{DVec, copy_positions};
use crate::graph::Graph;
use crate::query::{MAX_DIM, RadiusSq, SpatialIndex, check_within, within_weighted_radius};

verus! {

/// A graph together with the current position of every vertex: the
/// brute-force index and the common input of every index constructor.
#[derive(Debug)]
pub struct Embedding {
    pub positions: Vec<DVec>,
    pub graph: Graph,
    pub dim: usize,
}

impl Embedding {
    /// The model of the position array.
    pub open spec fn positions_view(&self) -> Seq<Seq<int>> {
        self.positions@.map_values(|p: DVec| p@)
    }

    /// Well-formedness: a sound graph, one position per vertex, all of
    /// the declared dimension.
    pub open spec fn wf(&self) -> bool {
        &&& self.graph.wf()
        &&& self.positions@.len() == self.graph.n()
        &&& 1 <= self.dim <= MAX_DIM
        &&& forall|i: int|
            0 <= i < self.positions@.len() ==> (#[trigger] self.positions@[i])@.len() == self.dim
    }

    /// Wrap a position array and a graph as an embedding.
    pub fn new(positions: Vec<DVec>, graph: Graph, dim: usize) -> (r: Embedding)
        requires
            graph.wf(),
            positions@.len() == graph.n(),
            1 <= dim <= MAX_DIM,
            forall|i: int| 0 <= i < positions@.len() ==> (#[trigger] positions@[i])@.len() == dim,
        ensures
            r.wf(),
            r.graph == graph,
            r.dim == dim,
            r.positions_view() == positions@.map_values(|p: DVec| p@),
    {
        Embedding { positions, graph, dim }
    }

    /// Duplicate this embedding, sharing nothing.
    pub fn duplicate(&self) -> (r: Embedding)
        requires
            self.wf(),
        ensures
            r.wf(),
            r.dim == self.dim,
            r.positions_view() == self.positions_view(),
            r.graph.n() == self.graph.n(),
            forall|v: int, u: int| #[trigger] r.graph.adj(v, u) == self.graph.adj(v, u),
            forall|v: int|
                0 <= v < self.graph.n() ==> #[trigger] r.graph.weight_of(v)
                    == self.graph.weight_of(v),
            forall|v: int|
                0 <= v < self.graph.n() ==> #[trigger] r.graph.neighbors_of(v)
                    == self.graph.neighbors_of(v),
    {
        let positions = copy_positions(&self.positions);
        let graph = self.graph.duplicate();
        proof {
            assert(positions@.map_values(|p: DVec| p@) =~= self.positions_view());
        }
        Embedding { positions, graph, dim: self.dim }
    }
}

impl SpatialIndex for Embedding {
    fn new_index(embedding: &Embedding) -> (r: Self) {
        embedding.duplicate()
    }

    open spec fn inv(&self) -> bool {
        self.wf()
    }

    open spec fn g(&self) -> Graph {
        self.graph
    }

    open spec fn pos(&self) -> Seq<Seq<int>> {
        self.positions_view()
    }

    open spec fn dim(&self) -> nat {
        self.dim as nat
    }

    /// The brute-force scan only reports vertices below the queried one.
    open spec fn policy(&self, v: int, u: int) -> bool {
        u < v
    }

    open spec fn radius_ok(&self, radius: RadiusSq) -> bool {
        true
    }

    proof fn lemma_wf(&self) {
    }

    proof fn lemma_policy_total(&self, v: int, u: int) {
    }

    fn num_nodes(&self) -> (n: usize) {
        self.positions.len()
    }

    fn dims(&self) -> (d: usize) {
        self.dim
    }

    fn position(&self, index: NodeId) -> (p: &DVec) {
        &self.positions[index]
    }

    fn is_connected(&self, first: NodeId, second: NodeId) -> (b: bool) {
        self.graph.is_connected(first, second)
    }

    fn neighbors(&self, index: NodeId) -> (r: &Vec<NodeId>) {
        self.graph.neighbors(index)
    }

    fn weight(&self, index: NodeId) -> (w: u64) {
        self.graph.weight(index)
    }

    fn update_positions(&mut self, positions: &Vec<DVec>, moved: Option<u64>) {
        self.positions = copy_positions(positions);
        proof {
            assert forall|i: int| 0 <= i < positions@.len() implies self.pos()[i] == (
            #[trigger] positions@[i])@ by {
                assert(self.positions@[i]@ == positions@[i]@);
            }
        }
    }

    fn nearest_neighbors(&self, index: NodeId, radius: RadiusSq, results: &mut Vec<NodeId>) {
        let ghost old_len = results@.len() as int;
        let own_pos = &self.positions[index];
        let own_weight = self.graph.weight(index);
        let n = self.positions.len();
        let mut u: usize = 0;
        while u < index
            invariant
                self.wf(),
                index < self.positions@.len(),
                n == self.positions@.len(),
                u <= index,
                radius.wf(),
                own_pos@ == self.pos()[index as int],
                own_weight == self.g().weight_of(index as int),
                results@.len() >= old_len >= 0,
                results@.subrange(0, old_len) == old(results)@,
                forall|k: int|
                    old_len <= k < results@.len() ==> ((#[trigger] results@[k]) < u
                        && within_weighted_radius(
                        self.pos()[results@[k] as int],
                        self.pos()[index as int],
                        self.g().weight_of(results@[k] as int),
                        self.g().weight_of(index as int),
                        radius.num as nat,
                        radius.den as nat,
                    )),
                forall|k1: int, k2: int|
                    old_len <= k1 < k2 < results@.len() ==> results@[k1] < results@[k2],
                forall|w: NodeId|
                    w < u && within_weighted_radius(
                        self.pos()[w as int],
                        self.pos()[index as int],
                        self.g().weight_of(w as int),
                        self.g().weight_of(index as int),
                        radius.num as nat,
                        radius.den as nat,
                    ) ==> results@.subrange(old_len, results@.len() as int).contains(w),
            decreases index - u,
        {
            let ghost pre = results@;
            let hit = check_within(
                &self.positions[u],
                own_pos,
                self.graph.weight(u),
                own_weight,
                radius,
            );
            if hit {
                results.push(u);
            }
            proof {
                assert(pre.subrange(0, old_len) == results@.subrange(0, old_len));
                assert forall|w: NodeId|
                    w < u + 1 && within_weighted_radius(
                        self.pos()[w as int],
                        self.pos()[index as int],
                        self.g().weight_of(w as int),
                        self.g().weight_of(index as int),
                        radius.num as nat,
                        radius.den as nat,
                    ) implies results@.subrange(old_len, results@.len() as int).contains(w) by {
                    if w < u {
                        let sub_pre = pre.subrange(old_len, pre.len() as int);
                        assert(sub_pre.contains(w));
                        let j = choose|j: int| 0 <= j < sub_pre.len() && sub_pre[j] == w;
                        assert(results@.subrange(old_len, results@.len() as int)[j] == w);
                    } else {
                        assert(results@.last() == w);
                        let sub = results@.subrange(old_len, results@.len() as int);
                        assert(sub[sub.len() - 1] == w);
                    }
                }
            }
            u = u + 1;
        }
        proof {
            assert(results@.subrange(0, old_len) == old(results)@);
        }
    }
}

} // verus!
