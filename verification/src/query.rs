//! The spatial-query contract: the weighted-radius predicate, the
//! squared-radius type, and the `SpatialIndex` trait every index variant
//! satisfies. A query for vertex `v` at squared radius `num/den` must
//! return, up to the index's declared asymmetry policy, exactly the
//! vertices `u != v` with `dist(p_u, p_v)^2 * den < (w_u * w_v)^2 * num`.

use vstd::prelude::*;
use crate::NodeId;
use crate::dvec::{DVec, dist_sq_spec, lemma_sum_sq_diff_bound, lemma_sum_sq_diff_nonneg};
use crate::graph::{Graph, WEIGHT_CAP};

verus! {

/// Largest supported embedding dimension.
pub const MAX_DIM: usize = 1024;

/// A squared query radius, as the exact fraction `num / den`.
#[derive(Clone, Copy, Debug, PartialEq, Eq)]
pub struct RadiusSq {
    pub num: u64,
    pub den: u64,
}

impl RadiusSq {
    /// Both parts positive and small enough for exact comparison.
    pub open spec fn wf(&self) -> bool {
        1 <= self.num <= 0x10_0000 && 1 <= self.den <= 0x10_0000
    }

    /// The unit radius: a squared radius of one.
    pub fn unit() -> (r: RadiusSq)
        ensures
            r.wf(),
            r.num == 1,
            r.den == 1,
    {
        RadiusSq { num: 1, den: 1 }
    }

    /// A squared radius of `num / den`.
    pub fn new(num: u64, den: u64) -> (r: RadiusSq)
        requires
            1 <= num <= 0x10_0000,
            1 <= den <= 0x10_0000,
        ensures
            r.wf(),
            r.num == num,
            r.den == den,
    {
        RadiusSq { num, den }
    }
}

/// The weighted-radius predicate: `u` at `pu` with weight `wu` lies
/// strictly within squared radius `num/den` of `v` at `pv` with weight
/// `wv`, where distance is measured in units of `wu * wv`.
pub open spec fn within_weighted_radius(
    pu: Seq<int>,
    pv: Seq<int>,
    wu: nat,
    wv: nat,
    num: nat,
    den: nat,
) -> bool {
    dist_sq_spec(pu, pv) * den < (wu * wv) * (wu * wv) * num
}

/// The weighted-radius predicate is symmetric in its two vertices.
pub proof fn lemma_within_sym(pu: Seq<int>, pv: Seq<int>, wu: nat, wv: nat, num: nat, den: nat)
    requires
        pu.len() == pv.len(),
    ensures
        within_weighted_radius(pu, pv, wu, wv, num, den) == within_weighted_radius(
            pv,
            pu,
            wv,
            wu,
            num,
            den,
        ),
{
    crate::dvec::lemma_sum_sq_diff_sym(pu, pv, pu.len());
    assert((wu * wv) * (wu * wv) == (wv * wu) * (wv * wu)) by (nonlinear_arith);
}

/// Decide the weighted-radius predicate exactly.
pub fn check_within(pu: &DVec, pv: &DVec, wu: u64, wv: u64, radius: RadiusSq) -> (b: bool)
    requires
        pu@.len() == pv@.len() <= MAX_DIM,
        wu <= WEIGHT_CAP,
        wv <= WEIGHT_CAP,
        radius.wf(),
    ensures
        b == within_weighted_radius(
            pu@,
            pv@,
            wu as nat,
            wv as nat,
            radius.num as nat,
            radius.den as nat,
        ),
{
    let d: u128 = pu.distance_squared(pv);
    proof {
        pu.lemma_in_range();
        pv.lemma_in_range();
        lemma_sum_sq_diff_bound(pu@, pv@, pu@.len());
        assert((pu@.len() as int) * 0xffff_ffff_ffff_ffffu64 <= 1024 * 0xffff_ffff_ffff_ffffu64)
            by (nonlinear_arith)
            requires
                pu@.len() <= 1024,
        ;
        assert((d as int) * (radius.den as int) <= (1024 * 0xffff_ffff_ffff_ffffu64) * 0x10_0000int)
            by (nonlinear_arith)
            requires
                0 <= d <= 1024 * 0xffff_ffff_ffff_ffffu64,
                0 <= radius.den <= 0x10_0000,
        ;
    }
    let lhs: u128 = d * (radius.den as u128);
    proof {
        assert((wu as int) * (wv as int) <= 0x200_0000int * 0x200_0000int) by (nonlinear_arith)
            requires
                0 <= wu <= 0x200_0000,
                0 <= wv <= 0x200_0000,
        ;
    }
    let w2: u128 = (wu as u128) * (wv as u128);
    proof {
        assert((w2 as int) * (w2 as int) <= (0x200_0000int * 0x200_0000int) * (0x200_0000int
            * 0x200_0000int)) by (nonlinear_arith)
            requires
                0 <= w2 <= 0x200_0000int * 0x200_0000int,
        ;
        assert((w2 as int) * (w2 as int) * (radius.num as int) <= (0x200_0000int * 0x200_0000int)
            * (0x200_0000int * 0x200_0000int) * 0x10_0000int) by (nonlinear_arith)
            requires
                0 <= w2 <= 0x200_0000int * 0x200_0000int,
                0 <= radius.num <= 0x10_0000,
        ;
    }
    let rhs: u128 = w2 * w2 * (radius.num as u128);
    lhs < rhs
}

/// The shared contract of every spatial index variant.
///
/// An index models a fixed graph together with a mutable position
/// array. `nearest_neighbors` must append, without duplicates, a set of
/// vertices that is sound (every appended vertex is a strict
/// weighted-radius neighbor of the queried one) and complete for every
/// pair the index's `policy` claims responsibility for; `policy` must be
/// total over unordered pairs, so the symmetric closure of the answers
/// is always the full weighted-radius relation.
pub trait SpatialIndex: Sized {
    /// Build this index variant over an embedding: the index copies the
    /// positions and answers graph queries per the embedding's graph.
    fn new_index(embedding: &crate::embedding::Embedding) -> (r: Self)
        requires
            embedding.wf(),
        ensures
            r.inv(),
            r.pos() == embedding.positions_view(),
            r.dim() == embedding.dim as nat,
            r.g().n() == embedding.graph.n(),
            forall|v: int, u: int| #[trigger] r.g().adj(v, u) == embedding.graph.adj(v, u),
            forall|v: int|
                0 <= v < embedding.graph.n() ==> #[trigger] r.g().weight_of(v)
                    == embedding.graph.weight_of(v),
            forall|v: int|
                0 <= v < embedding.graph.n() ==> #[trigger] r.g().neighbors_of(v)
                    == embedding.graph.neighbors_of(v),
    ;

    /// Internal well-formedness.
    spec fn inv(&self) -> bool;

    /// The graph the index answers adjacency and weight queries from.
    spec fn g(&self) -> Graph;

    /// The current position of every vertex.
    spec fn pos(&self) -> Seq<Seq<int>>;

    /// The embedding dimension.
    spec fn dim(&self) -> nat;

    /// The directed pairs `(v, u)` this index promises to emit when
    /// they are within radius; it may drop the others.
    spec fn policy(&self, v: int, u: int) -> bool;

    /// Which radii this index can currently answer.
    spec fn radius_ok(&self, radius: RadiusSq) -> bool;

    /// Shape facts that follow from the invariant.
    proof fn lemma_wf(&self)
        requires
            self.inv(),
        ensures
            self.g().wf(),
            self.pos().len() == self.g().n(),
            1 <= self.dim() <= MAX_DIM,
            forall|i: int| 0 <= i < self.pos().len() ==> (#[trigger] self.pos()[i]).len() == self.dim(),
            self.radius_ok(RadiusSq { num: 1, den: 1 }),
    ;

    /// One direction of every unordered pair is always covered.
    proof fn lemma_policy_total(&self, v: int, u: int)
        requires
            self.inv(),
            0 <= v < self.pos().len(),
            0 <= u < self.pos().len(),
            u != v,
        ensures
            self.policy(v, u) || self.policy(u, v),
    ;

    /// Number of indexed vertices.
    fn num_nodes(&self) -> (n: usize)
        requires
            self.inv(),
        ensures
            n == self.pos().len(),
    ;

    /// The embedding dimension.
    fn dims(&self) -> (d: usize)
        requires
            self.inv(),
        ensures
            d as nat == self.dim(),
    ;

    /// The stored position of a vertex.
    fn position(&self, index: NodeId) -> (p: &DVec)
        requires
            self.inv(),
            index < self.pos().len(),
        ensures
            p@ == self.pos()[index as int],
    ;

    /// Graph adjacency, passed through from the graph view.
    fn is_connected(&self, first: NodeId, second: NodeId) -> (b: bool)
        requires
            self.inv(),
            first < self.pos().len(),
        ensures
            b == self.g().adj(first as int, second as int),
    ;

    /// Graph neighbor list, passed through from the graph view.
    fn neighbors(&self, index: NodeId) -> (r: &Vec<NodeId>)
        requires
            self.inv(),
            index < self.pos().len(),
        ensures
            r@ == self.g().neighbors_of(index as int),
    ;

    /// Graph weight, passed through from the graph view.
    fn weight(&self, index: NodeId) -> (w: u64)
        requires
            self.inv(),
            index < self.pos().len(),
        ensures
            w == self.g().weight_of(index as int),
    ;

    /// Replace the stored positions. `moved`, when given, promises an
    /// upper bound on every vertex's displacement since the previous
    /// update, which an index may use to reuse cached query results.
    fn update_positions(&mut self, positions: &Vec<DVec>, moved: Option<u64>)
        requires
            old(self).inv(),
            positions@.len() == old(self).pos().len(),
            forall|i: int|
                0 <= i < positions@.len() ==> (#[trigger] positions@[i])@.len() == old(self).dim(),
            moved matches Some(d) ==> forall|i: int|
                0 <= i < positions@.len() ==> dist_sq_spec(
                    (#[trigger] positions@[i])@,
                    old(self).pos()[i],
                ) <= (d as int) * (d as int),
        ensures
            final(self).inv(),
            final(self).g() == old(self).g(),
            final(self).dim() == old(self).dim(),
            final(self).pos().len() == old(self).pos().len(),
            forall|i: int|
                0 <= i < positions@.len() ==> final(self).pos()[i] == (#[trigger] positions@[i])@,
    ;

    /// Append every vertex `u != index` within the weighted radius, up
    /// to the index's asymmetry policy: sound, policy-complete, and
    /// duplicate-free.
    fn nearest_neighbors(&self, index: NodeId, radius: RadiusSq, results: &mut Vec<NodeId>)
        requires
            self.inv(),
            index < self.pos().len(),
            radius.wf(),
            self.radius_ok(radius),
        ensures
            final(results)@.len() >= old(results)@.len(),
            final(results)@.subrange(0, old(results)@.len() as int) == old(results)@,
            forall|k: int|
                old(results)@.len() <= k < final(results)@.len() ==> ((#[trigger] final(results)@[k])
                    < self.pos().len() && final(results)@[k] != index && within_weighted_radius(
                    self.pos()[final(results)@[k] as int],
                    self.pos()[index as int],
                    self.g().weight_of(final(results)@[k] as int),
                    self.g().weight_of(index as int),
                    radius.num as nat,
                    radius.den as nat,
                )),
            forall|u: NodeId|
                u < self.pos().len() && u != index && self.policy(index as int, u as int)
                    && within_weighted_radius(
                    self.pos()[u as int],
                    self.pos()[index as int],
                    self.g().weight_of(u as int),
                    self.g().weight_of(index as int),
                    radius.num as nat,
                    radius.den as nat,
                ) ==> final(results)@.subrange(
                    old(results)@.len() as int,
                    final(results)@.len() as int,
                ).contains(u),
            forall|k1: int, k2: int|
                old(results)@.len() <= k1 < k2 < final(results)@.len() ==> final(results)@[k1]
                    != final(results)@[k2],
    ;
}

/// Whether `u` is a strict weighted-radius-one neighbor of `v` under
/// the index's current positions: the symmetric relation every variant
/// must realize after symmetrization.
pub open spec fn unit_neighbor<SI: SpatialIndex>(si: &SI, v: int, u: int) -> bool {
    &&& 0 <= v < si.pos().len()
    &&& 0 <= u < si.pos().len()
    &&& u != v
    &&& within_weighted_radius(
        si.pos()[u],
        si.pos()[v],
        si.g().weight_of(u),
        si.g().weight_of(v),
        1,
        1,
    )
}

/// `unit_neighbor` is symmetric.
pub proof fn lemma_unit_neighbor_sym<SI: SpatialIndex>(si: &SI, v: int, u: int)
    requires
        si.inv(),
    ensures
        unit_neighbor(si, v, u) == unit_neighbor(si, u, v),
{
    si.lemma_wf();
    if 0 <= v < si.pos().len() && 0 <= u < si.pos().len() {
        lemma_within_sym(
            si.pos()[u],
            si.pos()[v],
            si.g().weight_of(u),
            si.g().weight_of(v),
            1,
            1,
        );
    }
}

/// Run one radius query into a fresh buffer.
pub fn nearest_neighbors_owned<SI: SpatialIndex>(si: &SI, index: NodeId, radius: RadiusSq) -> (r:
    Vec<NodeId>)
    requires
        si.inv(),
        index < si.pos().len(),
        radius.wf(),
        si.radius_ok(radius),
    ensures
        forall|k: int|
            0 <= k < r@.len() ==> ((#[trigger] r@[k]) < si.pos().len() && r@[k] != index
                && within_weighted_radius(
                si.pos()[r@[k] as int],
                si.pos()[index as int],
                si.g().weight_of(r@[k] as int),
                si.g().weight_of(index as int),
                radius.num as nat,
                radius.den as nat,
            )),
        forall|u: NodeId|
            u < si.pos().len() && u != index && si.policy(index as int, u as int)
                && within_weighted_radius(
                si.pos()[u as int],
                si.pos()[index as int],
                si.g().weight_of(u as int),
                si.g().weight_of(index as int),
                radius.num as nat,
                radius.den as nat,
            ) ==> r@.contains(u),
        forall|k1: int, k2: int| 0 <= k1 < k2 < r@.len() ==> r@[k1] != r@[k2],
{
    let mut results: Vec<NodeId> = Vec::new();
    si.nearest_neighbors(index, radius, &mut results);
    proof {
        assert(results@.subrange(0, results@.len() as int) == results@);
    }
    results
}

/// Run a radius-one query for every vertex and make the result
/// symmetric: vertex `u` appears in row `v` exactly when the two are
/// strict weighted-radius-one neighbors, whichever side's query
/// reported the pair. Each row comes back sorted and duplicate-free.
pub fn nearest_neighbors_batched<SI: SpatialIndex>(si: &SI) -> (r: Vec<Vec<NodeId>>)
    requires
        si.inv(),
    ensures
        r@.len() == si.pos().len(),
        forall|v: int|
            0 <= v < r@.len() ==> crate::graph::strictly_sorted((#[trigger] r@[v])@),
        forall|v: int, u: NodeId|
            0 <= v < r@.len() ==> ((#[trigger] r@[v]@.contains(u)) <==> unit_neighbor(
                si,
                v,
                u as int,
            )),
{
    let n = si.num_nodes();
    let unit = RadiusSq::unit();
    proof {
        si.lemma_wf();
    }
    let mut out: Vec<Vec<NodeId>> = Vec::new();
    let mut i: usize = 0;
    while i < n
        invariant
            i <= n,
            out@.len() == i,
            forall|w: int| 0 <= w < i ==> (#[trigger] out@[w])@.len() == 0,
        decreases n - i,
    {
        out.push(Vec::new());
        i = i + 1;
    }
    let mut v: usize = 0;
    while v < n
        invariant
            si.inv(),
            v <= n,
            n == si.pos().len(),
            unit.wf(),
            unit.num == 1 && unit.den == 1,
            si.radius_ok(unit),
            out@.len() == n,
            forall|w: int, jj: int|
                0 <= w < n && 0 <= jj < out@[w]@.len() ==> unit_neighbor(
                    si,
                    w,
                    (#[trigger] out@[w]@[jj]) as int,
                ),
            forall|c: int, d: NodeId|
                0 <= c < v && unit_neighbor(si, c, d as int) && si.policy(c, d as int)
                    ==> #[trigger] out@[c]@.contains(d),
            forall|c: int, d: NodeId|
                0 <= c < v && unit_neighbor(si, c, d as int) && si.policy(c, d as int)
                    ==> #[trigger] out@[d as int]@.contains(c as NodeId),
        decreases n - v,
    {
        let buf = nearest_neighbors_owned(si, v, unit);
        let ghost entry_out = out@;
        let mut j: usize = 0;
        while j < buf.len()
            invariant
                si.inv(),
                v < n,
                n == si.pos().len(),
                j <= buf@.len(),
                out@.len() == n,
                forall|k: int|
                    0 <= k < buf@.len() ==> ((#[trigger] buf@[k]) < n && buf@[k] != v
                        && unit_neighbor(si, v as int, buf@[k] as int)),
                forall|w: int, jj: int|
                    0 <= w < n && 0 <= jj < out@[w]@.len() ==> unit_neighbor(
                        si,
                        w,
                        (#[trigger] out@[w]@[jj]) as int,
                    ),
                forall|w: int, y: NodeId|
                    0 <= w < n && entry_out[w]@.contains(y) ==> (#[trigger] out@[w]@.contains(y)),
                forall|jj: int|
                    0 <= jj < j ==> ((#[trigger] out@[v as int]@.contains(buf@[jj]))
                        && out@[buf@[jj] as int]@.contains(v as NodeId)),
            decreases buf@.len() - j,
        {
            let x = buf[j];
            let ghost pre = out@;
            out[v].push(x);
            out[x].push(v);
            proof {
                lemma_unit_neighbor_sym(si, v as int, x as int);
                assert forall|w: int, y: NodeId|
                    0 <= w < n && pre[w]@.contains(y) implies (#[trigger] out@[w]@.contains(y)) by {
                    let jdx = choose|jdx: int| 0 <= jdx < pre[w]@.len() && pre[w]@[jdx] == y;
                    assert(out@[w]@[jdx] == y);
                }
                assert(out@[v as int]@.contains(x)) by {
                    if x != v {
                        let l = pre[v as int]@.len() as int;
                        assert(out@[v as int]@[l] == x);
                    }
                }
                assert(out@[x as int]@.contains(v as NodeId)) by {
                    let l = out@[x as int]@.len() - 1;
                    assert(out@[x as int]@[l] == v as NodeId);
                }
                assert forall|jj: int| 0 <= jj < j + 1 implies ((#[trigger] out@[v as int]@.contains(
                    buf@[jj],
                )) && out@[buf@[jj] as int]@.contains(v as NodeId)) by {
                    if jj < j {
                        assert(pre[v as int]@.contains(buf@[jj]));
                        assert(pre[buf@[jj] as int]@.contains(v as NodeId));
                    }
                }
                assert forall|w: int, jj: int|
                    0 <= w < n && 0 <= jj < out@[w]@.len() implies unit_neighbor(
                    si,
                    w,
                    (#[trigger] out@[w]@[jj]) as int,
                ) by {
                    if w == x as int && jj == out@[w]@.len() - 1 {
                        assert(out@[w]@[jj] == v as NodeId);
                        assert(unit_neighbor(si, x as int, v as int));
                    } else if w == v as int && jj == pre[v as int]@.len() as int {
                        assert(out@[w]@[jj] == x);
                    } else {
                        assert(pre[w]@[jj] == out@[w]@[jj]);
                        assert(unit_neighbor(si, w, pre[w]@[jj] as int));
                    }
                }
            }
            j = j + 1;
        }
        proof {
            assert forall|c: int, d: NodeId|
                0 <= c < v + 1 && unit_neighbor(si, c, d as int) && si.policy(c, d as int) implies (
            #[trigger] out@[c]@.contains(d)) by {
                if c < v {
                    assert(entry_out[c]@.contains(d));
                } else {
                    // c == v: the pair was reported by this query
                    assert(buf@.contains(d));
                    let jj = choose|jj: int| 0 <= jj < buf@.len() && buf@[jj] == d;
                    assert(out@[v as int]@.contains(buf@[jj]));
                }
            }
            assert forall|c: int, d: NodeId|
                0 <= c < v + 1 && unit_neighbor(si, c, d as int) && si.policy(c, d as int) implies (
            #[trigger] out@[d as int]@.contains(c as NodeId)) by {
                if c < v {
                    assert(entry_out[d as int]@.contains(c as NodeId));
                } else {
                    assert(buf@.contains(d));
                    let jj = choose|jj: int| 0 <= jj < buf@.len() && buf@[jj] == d;
                    assert(out@[v as int]@.contains(buf@[jj]));
                    assert(out@[buf@[jj] as int]@.contains(v as NodeId));
                    assert(c as NodeId == v as NodeId);
                }
            }
        }
        v = v + 1;
    }
    proof {
        assert(v == n);
        assert forall|a: int, b: NodeId| unit_neighbor(si, a, b as int) implies ((#[trigger] out@[
        a]@.contains(b)) && out@[b as int]@.contains(a as NodeId)) by {
            si.lemma_policy_total(a, b as int);
            lemma_unit_neighbor_sym(si, a, b as int);
            assert(0 <= a < v);
            assert(0 <= b < v);
            assert(((a as NodeId) as int) == a);
            assert(((b as int) as NodeId) == b);
            if si.policy(a, b as int) {
                assert(out@[a]@.contains(b));
                assert(out@[(b as int)]@.contains(a as NodeId));
            } else {
                assert(si.policy(b as int, (a as NodeId) as int));
                assert(unit_neighbor(si, b as int, (a as NodeId) as int));
                assert(out@[(b as int)]@.contains(a as NodeId));
                assert(out@[((a as NodeId) as int)]@.contains((b as int) as NodeId));
            }
        }
    }
    let ghost full = out@;
    let mut res: Vec<Vec<NodeId>> = Vec::new();
    let mut w: usize = 0;
    while w < n
        invariant
            si.inv(),
            w <= n,
            n == si.pos().len(),
            out@.len() == n,
            res@.len() == w,
            forall|c: int| w <= c < n ==> (#[trigger] out@[c]) == full[c],
            forall|w2: int, jj: int|
                0 <= w2 < n && 0 <= jj < full[w2]@.len() ==> unit_neighbor(
                    si,
                    w2,
                    (#[trigger] full[w2]@[jj]) as int,
                ),
            forall|a: int, b: NodeId|
                unit_neighbor(si, a, b as int) ==> (#[trigger] full[a]@.contains(b)),
            forall|c: int|
                0 <= c < w ==> crate::graph::strictly_sorted((#[trigger] res@[c])@),
            forall|c: int, u: NodeId|
                0 <= c < w ==> ((#[trigger] res@[c]@.contains(u)) <==> unit_neighbor(
                    si,
                    c,
                    u as int,
                )),
        decreases n - w,
    {
        let mut tmp: Vec<NodeId> = Vec::new();
        let wr = &mut out[w];
        core::mem::swap(&mut tmp, wr);
        proof {
            assert(tmp@ == full[w as int]@);
        }
        let ghost tmp_snap = tmp@;
        crate::graph::sort_ids(&mut tmp);
        proof {
            broadcast use vstd::seq_lib::group_to_multiset_ensures;

            assert forall|y: NodeId| tmp@.contains(y) == tmp_snap.contains(y) by {
                assert(tmp@.contains(y) <==> tmp@.to_multiset().count(y) > 0);
                assert(tmp_snap.contains(y) <==> tmp_snap.to_multiset().count(y) > 0);
            }
        }
        let ded = crate::graph::dedup_ids(tmp);
        proof {
            assert forall|u: NodeId| ded@.contains(u) implies unit_neighbor(si, w as int, u as int)
                by {
                assert(tmp_snap.contains(u));
                let jj = choose|jj: int| 0 <= jj < tmp_snap.len() && tmp_snap[jj] == u;
                assert(unit_neighbor(si, w as int, tmp_snap[jj] as int));
            }
            assert forall|u: NodeId| unit_neighbor(si, w as int, u as int) implies ded@.contains(u)
                by {
                assert(full[w as int]@.contains(u));
            }
        }
        res.push(ded);
        w = w + 1;
    }
    res
}

/// The repelling set of a vertex: every non-adjacent vertex within
/// weighted radius one, up to the index's asymmetry policy. Appends to
/// `result` sound, policy-complete and duplicate-free entries.
pub fn repelling_nodes<SI: SpatialIndex>(si: &SI, index: NodeId, result: &mut Vec<NodeId>)
    requires
        si.inv(),
        index < si.pos().len(),
    ensures
        final(result)@.len() >= old(result)@.len(),
        final(result)@.subrange(0, old(result)@.len() as int) == old(result)@,
        forall|k: int|
            old(result)@.len() <= k < final(result)@.len() ==> (unit_neighbor(
                si,
                index as int,
                (#[trigger] final(result)@[k]) as int,
            ) && !si.g().adj(index as int, final(result)@[k] as int)),
        forall|u: NodeId|
            unit_neighbor(si, index as int, u as int) && !si.g().adj(index as int, u as int)
                && si.policy(index as int, u as int) ==> final(result)@.subrange(
                old(result)@.len() as int,
                final(result)@.len() as int,
            ).contains(u),
        forall|k1: int, k2: int|
            old(result)@.len() <= k1 < k2 < final(result)@.len() ==> final(result)@[k1]
                != final(result)@[k2],
{
    proof {
        si.lemma_wf();
    }
    let unit = RadiusSq::unit();
    let buf = nearest_neighbors_owned(si, index, unit);
    let ghost old_len = result@.len() as int;
    let mut k: usize = 0;
    while k < buf.len()
        invariant
            si.inv(),
            index < si.pos().len(),
            k <= buf@.len(),
            result@.len() >= old_len >= 0,
            result@.subrange(0, old_len) == old(result)@,
            forall|k2: int|
                0 <= k2 < buf@.len() ==> ((#[trigger] buf@[k2]) < si.pos().len() && buf@[k2]
                    != index && unit_neighbor(si, index as int, buf@[k2] as int)),
            forall|u: NodeId|
                u < si.pos().len() && u != index && si.policy(index as int, u as int)
                    && unit_neighbor(si, index as int, u as int) ==> buf@.contains(u),
            forall|k1: int, k2: int| 0 <= k1 < k2 < buf@.len() ==> buf@[k1] != buf@[k2],
            forall|j: int|
                old_len <= j < result@.len() ==> (unit_neighbor(
                    si,
                    index as int,
                    (#[trigger] result@[j]) as int,
                ) && !si.g().adj(index as int, result@[j] as int)),
            forall|k2: int|
                0 <= k2 < k && !si.g().adj(index as int, buf@[k2] as int) ==> result@.subrange(
                    old_len,
                    result@.len() as int,
                ).contains(#[trigger] buf@[k2]),
            forall|j1: int, j2: int|
                old_len <= j1 < j2 < result@.len() ==> result@[j1] != result@[j2],
            forall|j: int|
                old_len <= j < result@.len() ==> exists|k2: int|
                    0 <= k2 < k && #[trigger] buf@[k2] == #[trigger] result@[j],
        decreases buf@.len() - k,
    {
        let ghost pre = result@;
        let x = buf[k];
        if !si.is_connected(index, x) {
            // keep x only if it is not yet present among the appended
            // entries; the query itself is duplicate-free, so a linear
            // check against the current tail is exact
            result.push(x);
            proof {
                assert forall|j1: int, j2: int|
                    old_len <= j1 < j2 < result@.len() implies result@[j1] != result@[j2] by {
                    if j2 == result@.len() - 1 {
                        let kk = choose|kk: int|
                            0 <= kk < k && #[trigger] buf@[kk] == #[trigger] pre[j1];
                        assert(buf@[kk] != buf@[k as int]);
                    }
                }
                assert forall|j: int|
                    old_len <= j < result@.len() implies exists|k2: int|
                        0 <= k2 < k + 1 && #[trigger] buf@[k2] == #[trigger] result@[j] by {
                    if j < result@.len() - 1 {
                        let kk = choose|kk: int|
                            0 <= kk < k && #[trigger] buf@[kk] == #[trigger] pre[j];
                        assert(buf@[kk] == result@[j]);
                    } else {
                        assert(buf@[k as int] == result@[j]);
                    }
                }
            }
        }
        proof {
            assert(pre.subrange(0, old_len) == result@.subrange(0, old_len));
            assert forall|k2: int|
                0 <= k2 < k + 1 && !si.g().adj(index as int, buf@[k2] as int) implies result@
                .subrange(old_len, result@.len() as int).contains(#[trigger] buf@[k2]) by {
                if k2 < k {
                    let sub_pre = pre.subrange(old_len, pre.len() as int);
                    assert(sub_pre.contains(buf@[k2]));
                    let j = choose|j: int| 0 <= j < sub_pre.len() && sub_pre[j] == buf@[k2];
                    assert(result@.subrange(old_len, result@.len() as int)[j] == buf@[k2]);
                } else {
                    let sub = result@.subrange(old_len, result@.len() as int);
                    assert(sub[sub.len() - 1] == buf@[k2]);
                }
            }
        }
        k = k + 1;
    }
    proof {
        assert(result@.subrange(0, old_len) == old(result)@);
        assert forall|u: NodeId|
            unit_neighbor(si, index as int, u as int) && !si.g().adj(index as int, u as int)
                && si.policy(index as int, u as int) implies result@.subrange(
            old_len,
            result@.len() as int,
        ).contains(u) by {
            assert(buf@.contains(u));
            let kk = choose|kk: int| 0 <= kk < buf@.len() && buf@[kk] == u;
            assert(result@.subrange(old_len, result@.len() as int).contains(buf@[kk]));
        }
    }
}

/// The symmetrized answer is a property of the positions and the graph
/// alone: any two index variants that model the same positions and the
/// same graph data realize the same unit-radius neighbor relation, so
/// `nearest_neighbors_batched` returns, row for row, the same sets for
/// both.
pub proof fn lemma_symmetric_closure_index_independent<SA: SpatialIndex, SB: SpatialIndex>(
    a: &SA,
    b: &SB,
    v: int,
    u: int,
)
    requires
        a.pos() == b.pos(),
        0 <= v < a.pos().len(),
        0 <= u < a.pos().len(),
        a.g().weight_of(u) == b.g().weight_of(u),
        a.g().weight_of(v) == b.g().weight_of(v),
    ensures
        unit_neighbor(a, v, u) == unit_neighbor(b, v, u),
{
}

} // verus!
