//! The dynamic-query wrapper: an index that over-queries the tree
//! index at an enlarged radius, caches the per-vertex results, and
//! answers later unit-radius queries from the cache for as long as the
//! positions have provably not drifted far enough to invalidate it.
//!
//! The cache-reuse margin is deliberately conservative: drift is
//! tracked through the squared triangle inequality (a factor of three
//! in place of the exact Euclidean bound), so reuse engages only when
//! the configured squared over-query radius exceeds three. Every
//! emitted vertex is re-checked against the exact predicate at the
//! current positions, so answers are exact in every mode.

use vstd::prelude::*;
use crate::NodeId;
use crate::atree::ATree;
use crate::dvec::{DVec, copy_positions, dist_sq_spec};
use crate::graph::{Graph, WEIGHT_CAP};
use crate::query::{
    MAX_DIM, RadiusSq, SpatialIndex, check_within, nearest_neighbors_owned, within_weighted_radius,
};

verus! {

/// Milli-units per whole: radii and buffers below are thousandths of a
/// squared radius.
pub const MIL: u64 = 1000;

/// The squared distance to a point reached through two detours grows at
/// most threefold: the coordinate form of the triangle inequality.
proof fn lemma_dist_sq_triangle3(a: Seq<int>, b: Seq<int>, c: Seq<int>, d: Seq<int>, n: nat)
    ensures
        crate::dvec::sum_sq_diff(a, d, n) <= 3 * (crate::dvec::sum_sq_diff(a, b, n)
            + crate::dvec::sum_sq_diff(b, c, n) + crate::dvec::sum_sq_diff(c, d, n)),
    decreases n,
{
    if n > 0 {
        lemma_dist_sq_triangle3(a, b, c, d, (n - 1) as nat);
        let x = a[n - 1] - b[n - 1];
        let y = b[n - 1] - c[n - 1];
        let z = c[n - 1] - d[n - 1];
        assert((x + y + z) * (x + y + z) <= 3 * (x * x + y * y + z * z)) by (nonlinear_arith);
        assert(a[n - 1] - d[n - 1] == x + y + z);
    }
}

/// The distance from a point to itself is zero.
proof fn lemma_self_zero(a: Seq<int>, n: nat)
    ensures
        crate::dvec::sum_sq_diff(a, a, n) == 0,
    decreases n,
{
    if n > 0 {
        lemma_self_zero(a, (n - 1) as nat);
    }
}

/// The tie-break half of the plane this wrapper reports: the lighter
/// vertex, breaking ties by id.
pub open spec fn tie_break(g: Graph, v: int, u: int) -> bool {
    g.weight_of(u) < g.weight_of(v) || (g.weight_of(u) == g.weight_of(v) && u < v)
}

/// The over-querying wrapper around the tree index.
pub struct DynamicQuery {
    structure: ATree,
    positions: Vec<DVec>,
    query_cache: Vec<Vec<NodeId>>,
    query_buffer: u64,
    over_query_radius: u64,
    overquery: bool,
    drift_sq: u128,
    min_weight: u64,
    dim: usize,
}

impl DynamicQuery {
    /// The model of the wrapper's own position array.
    pub closed spec fn positions_view(&self) -> Seq<Seq<int>> {
        self.positions@.map_values(|p: DVec| p@)
    }

    /// The least possible value of `(w_u * w_v)^2` over any pair.
    pub closed spec fn min_weight_pair_sq(&self) -> int {
        let m = self.min_weight as int;
        (m * m) * (m * m)
    }

    /// A cache row covers every tie-break partner within the enlarged
    /// radius at the inner (possibly stale) positions, holds only other
    /// vertices, and holds each at most once.
    pub closed spec fn cache_row_ok(&self, v: int) -> bool {
        let row = self.query_cache@[v]@;
        &&& forall|j: int| 0 <= j < row.len() ==> (#[trigger] row[j]) < self.positions@.len()
        &&& forall|j: int| 0 <= j < row.len() ==> (#[trigger] row[j]) != v
        &&& forall|j1: int, j2: int| 0 <= j1 < j2 < row.len() ==> row[j1] != row[j2]
        &&& forall|u: NodeId|
            u < self.positions@.len() && tie_break(self.structure.g(), v, u as int)
                && within_weighted_radius(
                self.structure.pos()[u as int],
                self.structure.pos()[v],
                self.structure.g().weight_of(u as int),
                self.structure.g().weight_of(v),
                self.over_query_radius as nat,
                MIL as nat,
            ) ==> #[trigger] row.contains(u)
    }

    /// Well-formedness, including the coverage invariant of the cache
    /// while over-querying.
    pub closed spec fn wf(&self) -> bool {
        &&& self.structure.inv()
        &&& self.positions@.len() == self.structure.pos().len()
        &&& self.query_cache@.len() == self.positions@.len()
        &&& 1 <= self.dim <= MAX_DIM
        &&& self.dim as nat == self.structure.dim()
        &&& forall|i: int|
            0 <= i < self.positions@.len() ==> (#[trigger] self.positions@[i])@.len() == self.dim
        &&& MIL <= self.over_query_radius <= 0x10_0000
        &&& self.min_weight <= WEIGHT_CAP
        &&& forall|v: int|
            0 <= v < self.structure.g().n() ==> self.min_weight
                <= #[trigger] self.structure.g().weight_of(v)
        &&& (self.overquery ==> {
            &&& 3001 <= self.query_buffer <= self.over_query_radius
            &&& self.min_weight_pair_sq() * ((self.query_buffer - 3000) as int) >= 6000
                * self.drift_sq
            &&& forall|i: int|
                0 <= i < self.positions@.len() ==> dist_sq_spec(
                    (#[trigger] self.positions@[i])@,
                    self.structure.pos()[i],
                ) <= self.drift_sq
            &&& forall|v: int| 0 <= v < self.positions@.len() ==> self.cache_row_ok(v)
        })
        &&& (!self.overquery ==> forall|i: int|
            0 <= i < self.positions@.len() ==> (#[trigger] self.positions@[i])@
                == self.structure.pos()[i])
    }

    /// Refill every cache row from the inner index at the enlarged
    /// radius, keeping only the tie-break half.
    fn refill_cache(&mut self)
        requires
            old(self).structure.inv(),
            old(self).positions@.len() == old(self).structure.pos().len(),
            MIL <= old(self).over_query_radius <= 0x10_0000,
        ensures
            final(self).structure == old(self).structure,
            final(self).positions@ == old(self).positions@,
            final(self).query_buffer == old(self).query_buffer,
            final(self).over_query_radius == old(self).over_query_radius,
            final(self).overquery == old(self).overquery,
            final(self).drift_sq == old(self).drift_sq,
            final(self).min_weight == old(self).min_weight,
            final(self).dim == old(self).dim,
            final(self).query_cache@.len() == final(self).positions@.len(),
            forall|v: int|
                0 <= v < final(self).positions@.len() ==> final(self).cache_row_ok(v),
    {
        let n = self.positions.len();
        let radius = RadiusSq::new(self.over_query_radius, MIL);
        let mut cache: Vec<Vec<NodeId>> = Vec::new();
        let mut v: usize = 0;
        while v < n
            invariant
                v <= n,
                self.structure.inv(),
                n == self.positions@.len() == self.structure.pos().len(),
                radius.wf(),
                radius.num == self.over_query_radius,
                radius.den == MIL,
                cache@.len() == v,
                *self == *old(self),
                forall|w: int, j: int|
                    0 <= w < v && 0 <= j < cache@[w]@.len() ==> (#[trigger] cache@[w]@[j])
                        < n,
                forall|w: int, j: int|
                    0 <= w < v && 0 <= j < cache@[w]@.len() ==> (#[trigger] cache@[w]@[j]) != w,
                forall|w: int, j1: int, j2: int|
                    #![trigger cache@[w]@[j1], cache@[w]@[j2]]
                    0 <= w < v && 0 <= j1 < j2 < cache@[w]@.len() ==> cache@[w]@[j1]
                        != cache@[w]@[j2],
                forall|w: int, u: NodeId|
                    0 <= w < v && u < n && tie_break(self.structure.g(), w, u as int)
                        && within_weighted_radius(
                        self.structure.pos()[u as int],
                        self.structure.pos()[w],
                        self.structure.g().weight_of(u as int),
                        self.structure.g().weight_of(w),
                        self.over_query_radius as nat,
                        MIL as nat,
                    ) ==> (#[trigger] cache@[w]@.contains(u)),
            decreases n - v,
        {
            let buf = nearest_neighbors_owned(&self.structure, v, radius);
            let wv = self.structure.weight(v);
            let mut row: Vec<NodeId> = Vec::new();
            let mut k: usize = 0;
            while k < buf.len()
                invariant
                    k <= buf@.len(),
                    self.structure.inv(),
                    v < n == self.positions@.len() == self.structure.pos().len(),
                    radius.wf(),
                    radius.num == self.over_query_radius,
                    radius.den == MIL,
                    wv == self.structure.g().weight_of(v as int),
                    forall|k2: int|
                        0 <= k2 < buf@.len() ==> ((#[trigger] buf@[k2]) < n && buf@[k2] != v),
                    forall|u: NodeId|
                        u < n && u != v && within_weighted_radius(
                            self.structure.pos()[u as int],
                            self.structure.pos()[v as int],
                            self.structure.g().weight_of(u as int),
                            self.structure.g().weight_of(v as int),
                            radius.num as nat,
                            radius.den as nat,
                        ) ==> buf@.contains(u),
                    forall|k1: int, k2: int| 0 <= k1 < k2 < buf@.len() ==> buf@[k1] != buf@[k2],
                    forall|j: int| 0 <= j < row@.len() ==> ((#[trigger] row@[j]) < n && row@[j] != v),
                    forall|j1: int, j2: int| 0 <= j1 < j2 < row@.len() ==> row@[j1] != row@[j2],
                    forall|j: int|
                        0 <= j < row@.len() ==> exists|k2: int|
                            0 <= k2 < k && #[trigger] buf@[k2] == #[trigger] row@[j],
                    forall|k2: int|
                        0 <= k2 < k && tie_break(
                            self.structure.g(),
                            v as int,
                            buf@[k2] as int,
                        ) ==> row@.contains(#[trigger] buf@[k2]),
                decreases buf@.len() - k,
            {
                let u = buf[k];
                let ghost pre = row@;
                let wu = self.structure.weight(u);
                if wu < wv || (wu == wv && u < v) {
                    row.push(u);
                    proof {
                        assert(tie_break(self.structure.g(), v as int, u as int));
                        assert forall|j1: int, j2: int|
                            0 <= j1 < j2 < row@.len() implies row@[j1] != row@[j2] by {
                            if j2 == row@.len() - 1 {
                                let kk = choose|kk: int|
                                    0 <= kk < k && #[trigger] buf@[kk] == #[trigger] pre[j1];
                                assert(buf@[kk] != buf@[k as int]);
                            }
                        }
                    }
                }
                proof {
                    assert forall|j: int|
                        0 <= j < row@.len() implies exists|k2: int|
                            0 <= k2 < k + 1 && #[trigger] buf@[k2] == #[trigger] row@[j] by {
                        if j < pre.len() {
                            let kk = choose|kk: int|
                                0 <= kk < k && #[trigger] buf@[kk] == #[trigger] pre[j];
                            assert(buf@[kk] == row@[j]);
                        } else {
                            assert(buf@[k as int] == row@[j]);
                        }
                    }
                    assert forall|k2: int|
                        0 <= k2 < k + 1 && tie_break(
                            self.structure.g(),
                            v as int,
                            buf@[k2] as int,
                        ) implies row@.contains(#[trigger] buf@[k2]) by {
                        if k2 < k {
                            assert(pre.contains(buf@[k2]));
                            let j = choose|j: int| 0 <= j < pre.len() && pre[j] == buf@[k2];
                            assert(row@[j] == buf@[k2]);
                        } else {
                            assert(row@.last() == buf@[k2]);
                        }
                    }
                }
                k = k + 1;
            }
            cache.push(row);
            proof {
                assert forall|u: NodeId|
                    u < n && tie_break(self.structure.g(), v as int, u as int)
                        && within_weighted_radius(
                        self.structure.pos()[u as int],
                        self.structure.pos()[v as int],
                        self.structure.g().weight_of(u as int),
                        self.structure.g().weight_of(v as int),
                        self.over_query_radius as nat,
                        MIL as nat,
                    ) implies (#[trigger] cache@[v as int]@.contains(u)) by {
                    assert(u != v);
                    assert(buf@.contains(u));
                    let kk = choose|kk: int| 0 <= kk < buf@.len() && buf@[kk] == u;
                    assert(cache@[v as int]@.contains(buf@[kk]));
                }
            }
            v = v + 1;
        }
        self.query_cache = cache;
        proof {
            assert forall|w: int|
                0 <= w < final(self).positions@.len() implies final(self).cache_row_ok(w) by {}
        }
    }
}

impl DynamicQuery {
    /// Wrap a tree index. `over_query_radius` is the squared refresh
    /// radius in thousandths; four is the documented default, chosen so
    /// that the conservative reuse margin can engage at all.
    pub fn new(structure: ATree, over_query_radius: u64) -> (r: DynamicQuery)
        requires
            structure.inv(),
            MIL <= over_query_radius <= 0x10_0000,
        ensures
            r.wf(),
            r.pos() == structure.pos(),
            r.g() == structure.g(),
            r.dim() == structure.dim(),
    {
        proof {
            structure.lemma_wf();
        }
        let n = structure.num_nodes();
        let dim: usize = structure.dims();
        let mut positions: Vec<DVec> = Vec::new();
        let mut query_cache: Vec<Vec<NodeId>> = Vec::new();
        let mut min_weight: u64 = WEIGHT_CAP;
        let mut v: usize = 0;
        while v < n
            invariant
                v <= n,
                structure.inv(),
                n == structure.pos().len(),
                positions@.len() == v,
                query_cache@.len() == v,
                min_weight <= WEIGHT_CAP,
                dim as nat == structure.dim(),
                forall|a: int| 0 <= a < v ==> (#[trigger] positions@[a])@ == structure.pos()[a],
                forall|a: int|
                    0 <= a < v ==> min_weight <= #[trigger] structure.g().weight_of(a),
            decreases n - v,
        {
            proof {
                structure.lemma_wf();
            }
            positions.push(structure.position(v).clone());
            query_cache.push(Vec::new());
            let w = structure.weight(v);
            if w < min_weight {
                min_weight = w;
            }
            v = v + 1;
        }
        let r = DynamicQuery {
            structure,
            positions,
            query_cache,
            query_buffer: over_query_radius,
            over_query_radius,
            overquery: false,
            drift_sq: 0,
            min_weight,
            dim,
        };
        proof {
            r.structure.lemma_wf();
            assert(r.positions_view() =~= r.structure.pos());
        }
        r
    }
}

impl SpatialIndex for DynamicQuery {
    fn new_index(embedding: &crate::embedding::Embedding) -> (r: Self) {
        let inner = ATree::new_index(embedding);
        let r = DynamicQuery::new(inner, 4000);
        proof {
            assert(r.pos() =~= embedding.positions_view());
        }
        r
    }

    closed spec fn inv(&self) -> bool {
        self.wf()
    }

    closed spec fn g(&self) -> Graph {
        self.structure.g()
    }

    closed spec fn pos(&self) -> Seq<Seq<int>> {
        self.positions_view()
    }

    closed spec fn dim(&self) -> nat {
        self.dim as nat
    }

    /// Only the tie-break half of each pair is promised: the engine's
    /// symmetrization restores the other direction.
    open spec fn policy(&self, v: int, u: int) -> bool {
        tie_break(self.g(), v, u)
    }

    closed spec fn radius_ok(&self, radius: RadiusSq) -> bool {
        !self.overquery || radius.num == radius.den
    }

    proof fn lemma_wf(&self) {
        self.structure.lemma_wf();
    }

    proof fn lemma_policy_total(&self, v: int, u: int) {
    }

    fn num_nodes(&self) -> (n: usize) {
        self.positions.len()
    }

    fn dims(&self) -> (d: usize) {
        self.dim
    }

    fn position(&self, index: NodeId) -> (p: &DVec) {
        &self.positions[index]
    }

    fn is_connected(&self, first: NodeId, second: NodeId) -> (b: bool) {
        proof {
            self.structure.lemma_wf();
        }
        self.structure.is_connected(first, second)
    }

    fn neighbors(&self, index: NodeId) -> (r: &Vec<NodeId>) {
        self.structure.neighbors(index)
    }

    fn weight(&self, index: NodeId) -> (w: u64) {
        self.structure.weight(index)
    }

    /// Decrement the reuse budget by the promised displacement and keep
    /// the cache when the margin still covers it; otherwise push the
    /// positions into the inner index and refresh everything.
    fn update_positions(&mut self, positions: &Vec<DVec>, moved: Option<u64>) {
        let n = self.positions.len();
        let ghost old_positions = self.positions@;
        self.positions = copy_positions(positions);
        let mut reuse: bool = false;
        let mut drift2: u128 = 0;
        let mut nb: u64 = 0;
        match moved {
            Some(d) => {
                if self.overquery && d <= 0x100_0000_0000u64 && self.drift_sq
                    <= 0x1000_0000_0000_0000_0000_0000u128 {
                    let d_mil: u64 = (d * MIL) / (crate::dvec::POS_SCALE as u64) + 1;
                    proof {
                        assert(0 <= (d as int) * (d as int) <= 0x100_0000_0000i64
                            * 0x100_0000_0000i64) by (nonlinear_arith)
                            requires
                                0 <= d <= 0x100_0000_0000u64,
                        ;
                    }
                    drift2 = 3 * self.drift_sq + 3 * ((d as u128) * (d as u128));
                    if d_mil < self.query_buffer && MIL + d_mil < self.over_query_radius {
                        nb = self.query_buffer - d_mil;
                        let m = self.min_weight as u128;
                        proof {
                            assert(m * m <= 0x200_0000int * 0x200_0000int && (m * m) * (m * m) <= (
                            0x200_0000int * 0x200_0000int) * (0x200_0000int * 0x200_0000int))
                                by (nonlinear_arith)
                                requires
                                    0 <= m <= 0x200_0000,
                            ;
                        }
                        let mp: u128 = (m * m) * (m * m);
                        proof {
                            assert(self.query_buffer <= self.over_query_radius);
                            assert(self.over_query_radius <= 0x10_0000);
                            assert(nb <= 0x10_0000);
                            if nb >= 3001 {
                                assert(mp * ((nb - 3000) as int) <= ((0x200_0000int
                                    * 0x200_0000int) * (0x200_0000int * 0x200_0000int))
                                    * 0x10_0000int) by (nonlinear_arith)
                                    requires
                                        0 <= mp <= (0x200_0000int * 0x200_0000int) * (
                                        0x200_0000int * 0x200_0000int),
                                        0 <= nb - 3000 <= 0x10_0000,
                                ;
                            }
                        }
                        if nb >= 3001 && mp * ((nb - 3000) as u128) >= 6000 * drift2 {
                            reuse = true;
                        }
                    }
                }
            },
            None => {},
        }
        if reuse {
            let ghost d = moved.unwrap() as int;
            self.query_buffer = nb;
            let ghost old_drift = self.drift_sq;
            self.drift_sq = drift2;
            proof {
                assert forall|i: int|
                    0 <= i < self.positions@.len() implies dist_sq_spec(
                    (#[trigger] self.positions@[i])@,
                    self.structure.pos()[i],
                ) <= self.drift_sq by {
                    let newp = self.positions@[i]@;
                    let oldp = old_positions[i]@;
                    let stale = self.structure.pos()[i];
                    assert(newp == (#[trigger] positions@[i])@);
                    assert(old(self).pos()[i] == oldp);
                    assert(old(self).positions@[i]@ == oldp);
                    assert(dist_sq_spec(newp, oldp) <= d * d);
                    assert(dist_sq_spec(oldp, stale) <= old_drift);
                    lemma_dist_sq_triangle3(newp, oldp, oldp, stale, newp.len() as nat);
                    lemma_self_zero(oldp, newp.len() as nat);
                    crate::dvec::lemma_sum_sq_diff_nonneg(newp, oldp, newp.len() as nat);
                    crate::dvec::lemma_sum_sq_diff_nonneg(oldp, stale, newp.len() as nat);
                    assert(3 * (dist_sq_spec(newp, oldp) + 0 + dist_sq_spec(oldp, stale)) <= 3
                        * old_drift + 3 * (d * d)) by (nonlinear_arith)
                        requires
                            0 <= dist_sq_spec(newp, oldp) <= d * d,
                            0 <= dist_sq_spec(oldp, stale) <= old_drift,
                    ;
                }
                assert forall|v2: int|
                    0 <= v2 < self.positions@.len() implies self.cache_row_ok(v2) by {
                    assert(old(self).cache_row_ok(v2));
                }
            }
        } else {
            self.structure.update_positions(positions, None);
            self.query_buffer = self.over_query_radius;
            self.drift_sq = 0;
            self.overquery = match moved {
                Some(d) => {
                    if d <= 0x100_0000_0000u64 && self.over_query_radius >= 3001 {
                        let d_mil: u64 = (d * MIL) / (crate::dvec::POS_SCALE as u64) + 1;
                        MIL + d_mil < self.over_query_radius
                    } else {
                        false
                    }
                },
                None => false,
            };
            if self.overquery {
                proof {
                    self.structure.lemma_wf();
                }
                self.refill_cache();
            }
            proof {
                if self.overquery {
                    assert forall|i: int|
                        0 <= i < self.positions@.len() implies dist_sq_spec(
                        (#[trigger] self.positions@[i])@,
                        self.structure.pos()[i],
                    ) <= self.drift_sq by {
                        assert(self.positions@[i]@ == positions@[i]@);
                        assert(self.structure.pos()[i] == positions@[i]@);
                        lemma_self_zero(self.positions@[i]@, self.positions@[i]@.len() as nat);
                    }
                    assert(self.min_weight_pair_sq() * ((self.query_buffer - 3000) as int) >= 0)
                        by (nonlinear_arith)
                        requires
                            self.min_weight_pair_sq() >= 0,
                            self.query_buffer >= 3001,
                    ;
                }
            }
        }
        proof {
            assert forall|i: int| 0 <= i < positions@.len() implies self.pos()[i] == (
            #[trigger] positions@[i])@ by {
                assert(self.positions@[i]@ == positions@[i]@);
            }
        }
    }

    /// In pass-through mode, ask the inner index; while over-querying,
    /// emit the cached candidates that pass the exact unit-radius
    /// predicate at the current positions.
    fn nearest_neighbors(&self, index: NodeId, radius: RadiusSq, results: &mut Vec<NodeId>) {
        proof {
            self.structure.lemma_wf();
        }
        if !self.overquery {
            let ghost old_len = results@.len() as int;
            self.structure.nearest_neighbors(index, radius, results);
            proof {
                assert forall|u: NodeId|
                    u < self.pos().len() && u != index && self.policy(index as int, u as int)
                        && within_weighted_radius(
                        self.pos()[u as int],
                        self.pos()[index as int],
                        self.g().weight_of(u as int),
                        self.g().weight_of(index as int),
                        radius.num as nat,
                        radius.den as nat,
                    ) implies results@.subrange(old_len, results@.len() as int).contains(u) by {
                    assert(self.pos()[u as int] == self.structure.pos()[u as int]);
                    assert(self.pos()[index as int] == self.structure.pos()[index as int]);
                    assert(self.structure.policy(index as int, u as int));
                    assert(within_weighted_radius(
                        self.structure.pos()[u as int],
                        self.structure.pos()[index as int],
                        self.structure.g().weight_of(u as int),
                        self.structure.g().weight_of(index as int),
                        radius.num as nat,
                        radius.den as nat,
                    ));
                }
            }
            return ;
        }
        let ghost old_len = results@.len() as int;
        let ghost n = self.positions@.len();
        let wv = self.structure.weight(index);
        let mut k: usize = 0;
        let row_len = self.query_cache[index].len();
        while k < row_len
            invariant
                k <= row_len,
                self.wf(),
                self.overquery,
                index < self.positions@.len(),
                n == self.positions@.len(),
                radius.wf(),
                radius.num == radius.den,
                wv == self.g().weight_of(index as int),
                row_len == self.query_cache@[index as int]@.len(),
                results@.len() >= old_len >= 0,
                results@.subrange(0, old_len) == old(results)@,
                forall|j: int|
                    old_len <= j < results@.len() ==> ((#[trigger] results@[j]) < n && results@[j]
                        != index && within_weighted_radius(
                        self.pos()[results@[j] as int],
                        self.pos()[index as int],
                        self.g().weight_of(results@[j] as int),
                        self.g().weight_of(index as int),
                        radius.num as nat,
                        radius.den as nat,
                    )),
                forall|j1: int, j2: int|
                    old_len <= j1 < j2 < results@.len() ==> results@[j1] != results@[j2],
                forall|k2: int|
                    0 <= k2 < k && self.query_cache@[index as int]@[k2] != index
                        && within_weighted_radius(
                        self.pos()[self.query_cache@[index as int]@[k2] as int],
                        self.pos()[index as int],
                        self.g().weight_of(self.query_cache@[index as int]@[k2] as int),
                        self.g().weight_of(index as int),
                        radius.num as nat,
                        radius.den as nat,
                    ) ==> results@.subrange(old_len, results@.len() as int).contains(
                        #[trigger] self.query_cache@[index as int]@[k2],
                    ),
                forall|j: int|
                    old_len <= j < results@.len() ==> exists|k2: int|
                        0 <= k2 < k && #[trigger] self.query_cache@[index as int]@[k2] == (
                        #[trigger] results@[j]),
            decreases row_len - k,
        {
            let u = self.query_cache[index][k];
            proof {
                assert(self.cache_row_ok(index as int));
                assert(self.query_cache@[index as int]@[k as int] < n);
                assert(self.query_cache@[index as int]@[k as int] != index as int);
            }
            let ghost pre = results@;
            proof {
                self.structure.lemma_wf();
                assert(self.positions@[u as int]@.len() == self.dim);
                assert(self.positions@[index as int]@.len() == self.dim);
                assert(self.g().wf());
                assert(self.g().weight_of(u as int) <= WEIGHT_CAP);
                assert(self.g().weight_of(index as int) <= WEIGHT_CAP);
            }
            let hit = check_within(
                &self.positions[u],
                &self.positions[index],
                self.structure.weight(u),
                wv,
                radius,
            );
            if hit {
                results.push(u);
                proof {
                    assert forall|j1: int, j2: int|
                        old_len <= j1 < j2 < results@.len() implies results@[j1]
                        != results@[j2] by {
                        if j2 == results@.len() - 1 {
                            let kk = choose|kk: int|
                                0 <= kk < k && #[trigger] self.query_cache@[index as int]@[kk] == (
                                #[trigger] pre[j1]);
                            assert(self.query_cache@[index as int]@[kk]
                                != self.query_cache@[index as int]@[k as int]);
                        }
                    }
                }
            }
            proof {
                assert(pre.subrange(0, old_len) == results@.subrange(0, old_len));
                assert forall|k2: int|
                    0 <= k2 < k + 1 && self.query_cache@[index as int]@[k2] != index
                        && within_weighted_radius(
                        self.pos()[self.query_cache@[index as int]@[k2] as int],
                        self.pos()[index as int],
                        self.g().weight_of(self.query_cache@[index as int]@[k2] as int),
                        self.g().weight_of(index as int),
                        radius.num as nat,
                        radius.den as nat,
                    ) implies results@.subrange(old_len, results@.len() as int).contains(
                    #[trigger] self.query_cache@[index as int]@[k2],
                ) by {
                    let x = self.query_cache@[index as int]@[k2];
                    if k2 < k {
                        let sub_pre = pre.subrange(old_len, pre.len() as int);
                        assert(sub_pre.contains(x));
                        let j = choose|j: int| 0 <= j < sub_pre.len() && sub_pre[j] == x;
                        assert(results@.subrange(old_len, results@.len() as int)[j] == x);
                    } else {
                        let sub = results@.subrange(old_len, results@.len() as int);
                        assert(sub[sub.len() - 1] == x);
                    }
                }
                assert forall|j: int|
                    old_len <= j < results@.len() implies exists|k2: int|
                        0 <= k2 < k + 1 && #[trigger] self.query_cache@[index as int]@[k2] == (
                        #[trigger] results@[j]) by {
                    if j < pre.len() {
                        let kk = choose|kk: int|
                            0 <= kk < k && #[trigger] self.query_cache@[index as int]@[kk] == (
                            #[trigger] pre[j]);
                        assert(self.query_cache@[index as int]@[kk] == results@[j]);
                    } else {
                        assert(self.query_cache@[index as int]@[k as int] == results@[j]);
                    }
                }
            }
            k = k + 1;
        }
        proof {
            // completeness: a tie-break partner within the unit radius
            // now was within the enlarged radius at the inner positions,
            // so it sits in the cache row and passed the exact check
            assert forall|u: NodeId|
                u < n && u != index && self.policy(index as int, u as int)
                    && within_weighted_radius(
                    self.pos()[u as int],
                    self.pos()[index as int],
                    self.g().weight_of(u as int),
                    self.g().weight_of(index as int),
                    radius.num as nat,
                    radius.den as nat,
                ) implies results@.subrange(old_len, results@.len() as int).contains(u) by {
                let pu = self.pos()[u as int];
                let pv = self.pos()[index as int];
                let wu_g = self.g().weight_of(u as int);
                let wv_g = self.g().weight_of(index as int);
                let pair = (wu_g * wv_g) * (wu_g * wv_g);
                let dn = dist_sq_spec(pu, pv);
                crate::dvec::lemma_sum_sq_diff_nonneg(pu, pv, pu.len());
                self.structure.lemma_wf();
                assert(self.g().wf());
                assert(u < self.g().n());
                assert(index < self.g().n());
                assert(self.min_weight <= self.g().weight_of(u as int));
                assert(self.min_weight <= self.g().weight_of(index as int));
                // the unit predicate is scale-free in the fraction
                assert(dn < pair) by (nonlinear_arith)
                    requires
                        dn * (radius.den as int) < pair * (radius.num as int),
                        radius.num == radius.den,
                        radius.den >= 1,
                ;
                // drift the pair back to the inner positions
                let su = self.structure.pos()[u as int];
                let sv = self.structure.pos()[index as int];
                lemma_dist_sq_triangle3(su, pu, pv, sv, su.len() as nat);
                crate::dvec::lemma_sum_sq_diff_sym(su, pu, su.len() as nat);
                assert(dist_sq_spec(pu, su) <= self.drift_sq);
                assert(dist_sq_spec(pv, sv) <= self.drift_sq);
                crate::dvec::lemma_sum_sq_diff_sym(pv, sv, pv.len() as nat);
                let ds = dist_sq_spec(su, sv);
                assert(ds <= 3 * (self.drift_sq + dn + self.drift_sq));
                // margin arithmetic: within the refreshed radius
                let mw = self.min_weight as int;
                assert(pair >= (mw * mw) * (mw * mw)) by (nonlinear_arith)
                    requires
                        wu_g >= mw,
                        wv_g >= mw,
                        mw >= 0,
                        pair == (wu_g * wv_g) * (wu_g * wv_g),
                ;
                assert(self.min_weight_pair_sq() == (mw * mw) * (mw * mw));
                let dr = self.drift_sq as int;
                let qb = self.query_buffer as int;
                let oqr = self.over_query_radius as int;
                let mps = self.min_weight_pair_sq();
                assert(ds * 1000 < pair * oqr) by (nonlinear_arith)
                    requires
                        ds <= 3 * (dr + dn + dr),
                        dn < pair,
                        dn >= 0,
                        dr >= 0,
                        pair >= mps >= 0,
                        mps * (qb - 3000) >= 6000 * dr,
                        3001 <= qb <= oqr,
                ;
                assert(ds * (MIL as int) < pair * (self.over_query_radius as int));
                assert(within_weighted_radius(
                    su,
                    sv,
                    wu_g as nat,
                    wv_g as nat,
                    self.over_query_radius as nat,
                    MIL as nat,
                ));
                assert(self.cache_row_ok(index as int));
                assert(self.query_cache@[index as int]@.contains(u));
                let kk = choose|kk: int|
                    0 <= kk < self.query_cache@[index as int]@.len()
                        && #[trigger] self.query_cache@[index as int]@[kk] == u;
                assert(results@.subrange(old_len, results@.len() as int).contains(
                    self.query_cache@[index as int]@[kk],
                ));
            }
        }
    }
}

} // verus!
