//! The read-only graph view: per-node weight and neighbor lookup, built
//! once from an edge list and immutable afterwards.
//!
//! Weights live on a fixed-point scale of `WEIGHT_SCALE` steps per unit
//! and follow the degree formula `(deg^(D/H) * N/S)^(1/D)`, evaluated
//! with exact floor k-th roots; the contract of the constructor pins the
//! stored weight of every node to that chain of integer operations.

use vstd::prelude::*;
use vstd::arithmetic::power::pow;
use crate::math::{kth_root, kth_root_spec};
use crate::NodeId;

verus! {

/// Fixed-point weight scale: this many raw weight steps make one unit.
/// `WEIGHT_SCALE * WEIGHT_SCALE == POS_SCALE`, so a product of two raw
/// weights is directly comparable with a raw coordinate distance.
pub const WEIGHT_SCALE: u64 = 256;

/// Largest raw weight the library stores; the weight formula is capped
/// here so that every radius comparison fits comfortably in 128 bits.
pub const WEIGHT_CAP: u64 = 0x200_0000;

/// Largest accepted edge count and node id bound: keeps every degree
/// below `2^25`, which the weight evaluation needs.
pub const MAX_EDGES: usize = 0x100_0000;

/// Largest accepted node id plus one.
pub const MAX_NODES: usize = 0x100_0000;

/// A vertex: its weight and its sorted, duplicate-free neighbor list.
#[derive(Debug)]
pub struct Node {
    pub weight: u64,
    pub neighbors: Vec<NodeId>,
}

/// An immutable undirected graph with per-node weights.
#[derive(Debug)]
pub struct Graph {
    pub nodes: Vec<Node>,
    pub edges: Vec<(NodeId, NodeId)>,
}

/// Why an edge list was rejected.
#[derive(Clone, Copy, Debug, PartialEq, Eq)]
pub enum GraphError {
    /// An edge joins a vertex to itself.
    SelfLoop,
    /// The edge list is longer than `MAX_EDGES` or names an id at or
    /// beyond `MAX_NODES`.
    TooLarge,
}

/// A strictly increasing (hence duplicate-free) id sequence.
pub open spec fn strictly_sorted(s: Seq<NodeId>) -> bool {
    forall|a: int, b: int| 0 <= a < b < s.len() ==> s[a] < s[b]
}

/// Whether edge `e` joins `a` and `b` in either orientation.
pub open spec fn edge_matches(e: (NodeId, NodeId), a: int, b: int) -> bool {
    (e.0 == a && e.1 == b) || (e.0 == b && e.1 == a)
}

/// Whether the edge list joins `a` and `b` in either orientation.
pub open spec fn edge_in(edges: Seq<(NodeId, NodeId)>, a: int, b: int) -> bool {
    exists|k: int| 0 <= k < edges.len() && edge_matches(#[trigger] edges[k], a, b)
}

/// Number of endpoints equal to `v` among the first `k` edges: the
/// degree of `v`, counting duplicate edges with multiplicity.
pub open spec fn deg_prefix(edges: Seq<(NodeId, NodeId)>, v: int, k: nat) -> nat
    decreases k,
{
    if k == 0 {
        0
    } else {
        deg_prefix(edges, v, (k - 1) as nat) + (if edges[k - 1].0 == v {
            1nat
        } else {
            0nat
        }) + (if edges[k - 1].1 == v {
            1nat
        } else {
            0nat
        })
    }
}

/// The degree of `v` in the whole edge list.
pub open spec fn deg_spec(edges: Seq<(NodeId, NodeId)>, v: int) -> nat {
    deg_prefix(edges, v, edges.len())
}

/// Largest id among the first `k` edges.
pub open spec fn max_id_prefix(edges: Seq<(NodeId, NodeId)>, k: nat) -> nat
    decreases k,
{
    if k == 0 {
        0
    } else {
        let m = max_id_prefix(edges, (k - 1) as nat);
        let e = edges[k - 1];
        let em = if e.0 >= e.1 {
            e.0 as nat
        } else {
            e.1 as nat
        };
        if em >= m {
            em
        } else {
            m
        }
    }
}

/// Number of nodes an edge list spans: the largest id plus one.
pub open spec fn node_count_spec(edges: Seq<(NodeId, NodeId)>) -> nat {
    if edges.len() == 0 {
        0
    } else {
        max_id_prefix(edges, edges.len()) + 1
    }
}

/// The raw weight of a node of degree `deg` in a graph of `n` nodes
/// whose degrees sum to `s`: the fixed-point evaluation of
/// `(deg^(dim/hint) * n/s)^(1/dim)`, written with floor roots at an
/// internal precision of 64 steps per unit and capped at `WEIGHT_CAP`.
pub open spec fn weight_chain(deg: nat, n: nat, s: nat, dim: nat, hint: nat) -> nat {
    if s == 0 {
        0
    } else {
        let a = kth_root_spec((deg * pow(64, hint)) as nat, hint);
        let b = kth_root_spec(((n * pow(64, dim)) / (s as int)) as nat, dim);
        let w = (a * b) / 16;
        if w >= WEIGHT_CAP {
            WEIGHT_CAP as nat
        } else {
            w
        }
    }
}

impl Graph {
    /// Number of nodes.
    pub open spec fn n(&self) -> nat {
        self.nodes@.len()
    }

    /// The neighbor list of `v`.
    pub open spec fn neighbors_of(&self, v: int) -> Seq<NodeId> {
        self.nodes@[v].neighbors@
    }

    /// Whether `u` is a graph neighbor of `v`.
    pub open spec fn adj(&self, v: int, u: int) -> bool {
        0 <= v < self.n() && 0 <= u < self.n() && self.neighbors_of(v).contains(u as NodeId)
    }

    /// The raw weight of `v`.
    pub open spec fn weight_of(&self, v: int) -> nat {
        self.nodes@[v].weight as nat
    }

    /// Well-formedness: neighbor lists are strictly sorted, stay inside
    /// `[0, n)`, never name their own node, adjacency is symmetric, and
    /// weights are capped.
    pub open spec fn wf(&self) -> bool {
        &&& forall|v: int| 0 <= v < self.n() ==> strictly_sorted(#[trigger] self.neighbors_of(v))
        &&& forall|v: int, j: int|
            0 <= v < self.n() && 0 <= j < self.neighbors_of(v).len() ==> ((#[trigger] self
                .neighbors_of(v)[j]) < self.n() && self.neighbors_of(v)[j] != v)
        &&& forall|v: int, u: int| #[trigger] self.adj(v, u) ==> self.adj(u, v)
        &&& forall|v: int| 0 <= v < self.n() ==> #[trigger] self.weight_of(v) <= WEIGHT_CAP
    }

    /// The empty graph.
    pub fn new() -> (g: Graph)
        ensures
            g.wf(),
            g.n() == 0,
            g.edges@.len() == 0,
    {
        Graph { nodes: Vec::new(), edges: Vec::new() }
    }

    /// Number of nodes.
    pub fn num_nodes(&self) -> (n: usize)
        ensures
            n == self.n(),
    {
        self.nodes.len()
    }

    /// The neighbor list of `v`, sorted and duplicate-free.
    pub fn neighbors(&self, index: NodeId) -> (r: &Vec<NodeId>)
        requires
            index < self.n(),
        ensures
            r@ == self.neighbors_of(index as int),
    {
        &self.nodes[index].neighbors
    }

    /// The raw fixed-point weight of `v`.
    pub fn weight(&self, index: NodeId) -> (w: u64)
        requires
            index < self.n(),
        ensures
            w == self.weight_of(index as int),
    {
        self.nodes[index].weight
    }

    /// Whether `first` and `second` are joined by an edge, by binary
    /// search in the sorted neighbor list.
    pub fn is_connected(&self, first: NodeId, second: NodeId) -> (r: bool)
        requires
            self.wf(),
            first < self.n(),
        ensures
            r == self.adj(first as int, second as int),
    {
        let nb = &self.nodes[first].neighbors;
        proof {
            assert(nb@ == self.neighbors_of(first as int));
            assert(strictly_sorted(self.neighbors_of(first as int)));
        }
        let mut lo: usize = 0;
        let mut hi: usize = nb.len();
        while lo < hi
            invariant
                self.wf(),
                lo <= hi <= nb@.len(),
                strictly_sorted(nb@),
                nb@ == self.neighbors_of(first as int),
                first < self.n(),
                forall|j: int| 0 <= j < lo ==> nb@[j] < second,
                forall|j: int| hi <= j < nb@.len() ==> nb@[j] > second,
            decreases hi - lo,
        {
            let mid = lo + (hi - lo) / 2;
            if nb[mid] < second {
                lo = mid + 1;
            } else if nb[mid] > second {
                hi = mid;
            } else {
                assert(nb@.contains(second)) by {
                    assert(nb@[mid as int] == second);
                }
                proof {
                    assert(self.neighbors_of(first as int)[mid as int] < self.n());
                }
                assert(self.adj(first as int, second as int));
                return true;
            }
        }
        proof {
            if self.adj(first as int, second as int) {
                let j = choose|j: int| 0 <= j < nb@.len() && nb@[j] == second;
                assert(nb@[j] == second);
            }
        }
        false
    }
}

/// A non-decreasing id sequence.
pub open spec fn sorted_leq(s: Seq<NodeId>) -> bool {
    forall|a: int, b: int| 0 <= a < b < s.len() ==> s[a] <= s[b]
}

/// `edge_in` is symmetric in its two vertices.
pub proof fn lemma_edge_in_sym(edges: Seq<(NodeId, NodeId)>, a: int, b: int)
    ensures
        edge_in(edges, a, b) == edge_in(edges, b, a),
{
    if edge_in(edges, a, b) {
        let k = choose|k: int| 0 <= k < edges.len() && edge_matches(#[trigger] edges[k], a, b);
        assert(edge_matches(edges[k], b, a));
    }
    if edge_in(edges, b, a) {
        let k = choose|k: int| 0 <= k < edges.len() && edge_matches(#[trigger] edges[k], b, a);
        assert(edge_matches(edges[k], a, b));
    }
}

/// Every endpoint of every edge is bounded by the running maximum.
pub proof fn lemma_max_id_ge(edges: Seq<(NodeId, NodeId)>, j: int, k: nat)
    requires
        0 <= j < k <= edges.len(),
    ensures
        edges[j].0 <= max_id_prefix(edges, k),
        edges[j].1 <= max_id_prefix(edges, k),
    decreases k,
{
    if j < k - 1 {
        lemma_max_id_ge(edges, j, (k - 1) as nat);
    }
}

/// A degree over `k` edges is at most `2 * k`.
pub proof fn lemma_deg_prefix_bound(edges: Seq<(NodeId, NodeId)>, v: int, k: nat)
    requires
        k <= edges.len(),
    ensures
        deg_prefix(edges, v, k) <= 2 * k,
    decreases k,
{
    if k > 0 {
        lemma_deg_prefix_bound(edges, v, (k - 1) as nat);
    }
}

/// Sort a vector of ids in place: the result is non-decreasing and a
/// permutation of the input.
pub(crate) fn sort_ids(v: &mut Vec<NodeId>)
    ensures
        final(v)@.len() == old(v)@.len(),
        sorted_leq(final(v)@),
        final(v)@.to_multiset() == old(v)@.to_multiset(),
{
    let n = v.len();
    let mut i: usize = 1;
    if n <= 1 {
        return ;
    }
    while i < n
        invariant
            1 <= i <= n,
            n == v@.len(),
            forall|a: int, b: int| 0 <= a < b < i ==> v@[a] <= v@[b],
            v@.to_multiset() == old(v)@.to_multiset(),
        decreases n - i,
    {
        let mut j: usize = i;
        while j > 0 && v[j - 1] > v[j]
            invariant
                j <= i < n == v@.len(),
                forall|a: int, b: int| 0 <= a < b <= i && b != j ==> v@[a] <= v@[b],
                v@.to_multiset() == old(v)@.to_multiset(),
            decreases j,
        {
            let ghost pre = v@;
            let x = v[j - 1];
            let y = v[j];
            v[j - 1] = y;
            v[j] = x;
            proof {
                broadcast use vstd::seq_lib::group_to_multiset_ensures;

                assert(pre.to_multiset().count(pre[j - 1]) > 0) by {
                    assert(pre.contains(pre[j - 1]));
                }
                assert(pre.update(j - 1, y).to_multiset().count(pre.update(j - 1, y)[j as int])
                    > 0) by {
                    assert(pre.update(j - 1, y).contains(pre.update(j - 1, y)[j as int]));
                }
                assert(v@ == pre.update(j - 1, y).update(j as int, x));
                assert(pre.update(j - 1, y).to_multiset() == pre.to_multiset().insert(y).remove(
                    pre[j - 1],
                ));
                assert(pre.update(j - 1, y)[j as int] == pre[j as int]);
                assert(v@.to_multiset() == pre.update(j - 1, y).to_multiset().insert(x).remove(
                    pre.update(j - 1, y)[j as int],
                ));
                assert(v@.to_multiset() =~= pre.to_multiset());
            }
            j = j - 1;
        }
        i = i + 1;
    }
}

/// Collapse runs of equal ids in a sorted vector: the result is strictly
/// sorted and holds exactly the same ids.
pub(crate) fn dedup_ids(src: Vec<NodeId>) -> (r: Vec<NodeId>)
    requires
        sorted_leq(src@),
    ensures
        strictly_sorted(r@),
        forall|x: NodeId| r@.contains(x) <==> src@.contains(x),
{
    let mut out: Vec<NodeId> = Vec::new();
    let mut k: usize = 0;
    while k < src.len()
        invariant
            k <= src@.len(),
            sorted_leq(src@),
            strictly_sorted(out@),
            forall|x: NodeId| out@.contains(x) <==> src@.take(k as int).contains(x),
            k > 0 ==> out@.len() > 0 && out@.last() == src@[k - 1],
            k == 0 ==> out@.len() == 0,
        decreases src@.len() - k,
    {
        let ghost pre = out@;
        if k == 0 || src[k] != out[out.len() - 1] {
            out.push(src[k]);
            proof {
                // sortedness gives src[k] >= every earlier element, and it
                // differs from the previous largest, so the push keeps the
                // output strictly sorted.
                assert forall|a: int, b: int| 0 <= a < b < out@.len() implies out@[a] < out@[b] by {
                    if b == pre.len() {
                        assert(out@[b] == src@[k as int]);
                        assert(pre.last() < src@[k as int]) by {
                            assert(pre.last() == src@[k - 1]);
                            assert(src@[k - 1] <= src@[k as int]);
                        }
                        if a < pre.len() - 1 {
                            assert(pre[a] < pre[pre.len() - 1]);
                        }
                    }
                }
            }
        }
        proof {
            assert(src@.take(k + 1) == src@.take(k as int).push(src@[k as int]));
            assert forall|x: NodeId| out@.contains(x) implies src@.take(k + 1).contains(x) by {
                if pre.contains(x) {
                    let j = choose|j: int| 0 <= j < pre.len() && pre[j] == x;
                    assert(src@.take(k as int).contains(x));
                    let j2 = choose|j2: int| 0 <= j2 < k && src@.take(k as int)[j2] == x;
                    assert(src@.take(k + 1)[j2] == x);
                } else {
                    assert(out@.last() == x);
                    assert(src@.take(k + 1).last() == src@[k as int]);
                }
            }
            assert forall|x: NodeId| src@.take(k + 1).contains(x) implies out@.contains(x) by {
                let j = choose|j: int| 0 <= j < k + 1 && #[trigger] src@.take(k + 1)[j] == x;
                if j < k {
                    assert(src@.take(k as int)[j] == x);
                    assert(pre.contains(x));
                    if out@ != pre {
                        let j2 = choose|j2: int| 0 <= j2 < pre.len() && pre[j2] == x;
                        assert(out@[j2] == x);
                    }
                } else {
                    // x == src[k]: either it was just pushed or it equals
                    // the previous output tail.
                    if k == 0 || src@[k as int] != pre.last() {
                        assert(out@.last() == src@[k as int]);
                    } else {
                        assert(pre.contains(x)) by {
                            assert(pre[pre.len() - 1] == x);
                        }
                        let j2 = choose|j2: int| 0 <= j2 < pre.len() && pre[j2] == x;
                        assert(out@[j2] == x);
                    }
                }
            }
        }
        k = k + 1;
    }
    proof {
        assert(src@.take(src@.len() as int) == src@);
    }
    out
}

/// The value of `64^16`, established step by step.
proof fn lemma_pow64_16()
    ensures
        pow(64, 16) == 0x1_0000_0000_0000_0000_0000_0000int,
        pow(64, 1) == 64,
        pow(64, 0) == 1,
{
    reveal(pow);
    assert(pow(64, 0) == 1);
    assert(pow(64, 1) == 64 * pow(64, 0));
    assert(pow(64, 2) == 64 * pow(64, 1));
    assert(pow(64, 3) == 64 * pow(64, 2));
    assert(pow(64, 4) == 64 * pow(64, 3));
    assert(pow(64, 5) == 64 * pow(64, 4));
    assert(pow(64, 6) == 64 * pow(64, 5));
    assert(pow(64, 7) == 64 * pow(64, 6));
    assert(pow(64, 8) == 64 * pow(64, 7));
    assert(pow(64, 9) == 64 * pow(64, 8));
    assert(pow(64, 10) == 64 * pow(64, 9));
    assert(pow(64, 11) == 64 * pow(64, 10));
    assert(pow(64, 12) == 64 * pow(64, 11));
    assert(pow(64, 13) == 64 * pow(64, 12));
    assert(pow(64, 14) == 64 * pow(64, 13));
    assert(pow(64, 15) == 64 * pow(64, 14));
    assert(pow(64, 16) == 64 * pow(64, 15));
}

/// `64^k` for `k <= 16`, exactly.
pub(crate) fn pow64(k: usize) -> (r: u128)
    requires
        k <= 16,
    ensures
        r as int == pow(64, k as nat),
        r <= 0x1_0000_0000_0000_0000_0000_0000u128,
        k == 1 ==> r == 64,
{
    proof {
        lemma_pow64_16();
    }
    let mut acc: u128 = 1;
    let mut i: usize = 0;
    while i < k
        invariant
            i <= k <= 16,
            acc as int == pow(64, i as nat),
            acc <= 0x1_0000_0000_0000_0000_0000_0000u128,
            pow(64, 16) == 0x1_0000_0000_0000_0000_0000_0000int,
        decreases k - i,
    {
        proof {
            assert(pow(64, (i + 1) as nat) == 64 * pow(64, i as nat)) by {
                vstd::arithmetic::power::lemma_pow_adds(64, 1, i as nat);
                assert(pow(64int, 1) == 64) by {
                    vstd::arithmetic::power::lemma_pow1(64int);
                }
                assert(pow(64, 1) * pow(64, i as nat) == 64 * pow(64, i as nat));
            }
            vstd::arithmetic::power::lemma_pow_increases(64, (i + 1) as nat, 16);
        }
        acc = acc * 64;
        i = i + 1;
    }
    acc
}

/// The raw weight of one node, per `weight_chain`.
fn compute_weight(deg: u64, n: usize, s: u64, dim: usize, hint: usize) -> (w: u64)
    requires
        1 <= dim <= 16,
        1 <= hint <= 16,
        deg <= 0x2_00_0000,
        n <= 0x100_0000,
        s >= 1,
    ensures
        w as nat == weight_chain(deg as nat, n as nat, s as nat, dim as nat, hint as nat),
        w <= WEIGHT_CAP,
{
    let p_h = pow64(hint);
    let p_d = pow64(dim);
    proof {
        assert((deg as int) * (p_h as int) < 0x1000_0000_0000_0000_0000_0000_0000_0000int)
            by (nonlinear_arith)
            requires
                deg <= 0x2_00_0000,
                p_h <= 0x1_0000_0000_0000_0000_0000_0000u128,
        ;
        assert((n as int) * (p_d as int) < 0x1000_0000_0000_0000_0000_0000_0000_0000int)
            by (nonlinear_arith)
            requires
                n <= 0x100_0000,
                p_d <= 0x1_0000_0000_0000_0000_0000_0000u128,
        ;
    }
    let x1: u128 = (deg as u128) * p_h;
    let x2: u128 = ((n as u128) * p_d) / (s as u128);
    proof {
        if hint == 1 {
            assert(x1 == deg * 64);
        }
        vstd::arithmetic::div_mod::lemma_div_is_ordered_by_denominator(
            ((n as u128) * p_d) as int,
            1,
            s as int,
        );
        if dim == 1 {
            assert(x2 <= (n as int) * 64);
        }
    }
    let a = kth_root(x1, hint);
    let b = kth_root(x2, dim);
    proof {
        assert((a as int) * (b as int) < 0x1_0000_0000_0000_0000_0000_0000_0000_0000int)
            by (nonlinear_arith)
            requires
                a <= 0xffff_ffff_ffff_ffffu64,
                b <= 0xffff_ffff_ffff_ffffu64,
        ;
    }
    let ab: u128 = (a as u128) * (b as u128);
    let w128: u128 = ab / 16;
    if w128 >= (WEIGHT_CAP as u128) {
        WEIGHT_CAP
    } else {
        w128 as u64
    }
}

/// Whether the first `k` edges join `a` and `b` in either orientation.
pub open spec fn edge_in_prefix(edges: Seq<(NodeId, NodeId)>, a: int, b: int, k: nat) -> bool {
    exists|j: int| 0 <= j < k && edge_matches(#[trigger] edges[j], a, b)
}

/// Collect, sort and deduplicate the neighbors of `v`.
fn build_neighbors(edges: &Vec<(NodeId, NodeId)>, v: usize, n: usize) -> (nb: Vec<NodeId>)
    requires
        v < n,
        forall|k: int|
            0 <= k < edges@.len() ==> (#[trigger] edges@[k].0 < n && edges@[k].1 < n
                && edges@[k].0 != edges@[k].1),
    ensures
        strictly_sorted(nb@),
        forall|j: int| 0 <= j < nb@.len() ==> (#[trigger] nb@[j] < n && nb@[j] != v),
        forall|x: NodeId| nb@.contains(x) <==> edge_in(edges@, v as int, x as int),
{
    let mut raw: Vec<NodeId> = Vec::new();
    let mut k: usize = 0;
    while k < edges.len()
        invariant
            k <= edges@.len(),
            v < n,
            forall|j: int|
                0 <= j < edges@.len() ==> (#[trigger] edges@[j].0 < n && edges@[j].1 < n
                    && edges@[j].0 != edges@[j].1),
            forall|x: NodeId|
                raw@.contains(x) <==> edge_in_prefix(edges@, v as int, x as int, k as nat),
        decreases edges@.len() - k,
    {
        let ghost pre = raw@;
        let e = edges[k];
        if e.0 == v {
            raw.push(e.1);
        } else if e.1 == v {
            raw.push(e.0);
        }
        proof {
            assert forall|x: NodeId| raw@.contains(x) implies edge_in_prefix(
                edges@,
                v as int,
                x as int,
                (k + 1) as nat,
            ) by {
                let j = choose|j: int| 0 <= j < raw@.len() && raw@[j] == x;
                if j < pre.len() {
                    assert(pre[j] == x);
                    assert(pre.contains(x));
                    let j2 = choose|j2: int|
                        0 <= j2 < k && edge_matches(#[trigger] edges@[j2], v as int, x as int);
                    assert(edge_matches(edges@[j2], v as int, x as int));
                } else {
                    assert(edge_matches(edges@[k as int], v as int, x as int));
                }
            }
            assert forall|x: NodeId|
                edge_in_prefix(edges@, v as int, x as int, (k + 1) as nat) implies raw@.contains(
                x,
            ) by {
                let j = choose|j: int|
                    0 <= j < k + 1 && edge_matches(#[trigger] edges@[j], v as int, x as int);
                if j < k {
                    assert(edge_in_prefix(edges@, v as int, x as int, k as nat)) by {
                        assert(edge_matches(edges@[j], v as int, x as int));
                    }
                    assert(pre.contains(x));
                    let j2 = choose|j2: int| 0 <= j2 < pre.len() && #[trigger] pre[j2] == x;
                    assert(raw@[j2] == x);
                } else {
                    // edge k names v, so its other endpoint was pushed.
                    assert(raw@.last() == x);
                }
            }
        }
        k = k + 1;
    }
    let ghost raw_snap = raw@;
    proof {
        // every collected id names a neighbor of v: in range, not v itself
        assert forall|x: NodeId| raw_snap.contains(x) implies (x < n && x != v) by {
            let j2 = choose|j2: int|
                0 <= j2 < edges@.len() && edge_matches(#[trigger] edges@[j2], v as int, x as int);
            assert(edge_matches(edges@[j2], v as int, x as int));
        }
        // a full prefix is the whole list
        assert forall|x: NodeId|
            edge_in_prefix(edges@, v as int, x as int, edges@.len()) == edge_in(
                edges@,
                v as int,
                x as int,
            ) by {
            if edge_in_prefix(edges@, v as int, x as int, edges@.len()) {
                let j = choose|j: int|
                    0 <= j < edges@.len() && edge_matches(#[trigger] edges@[j], v as int, x as int);
                assert(edge_matches(edges@[j], v as int, x as int));
            }
            if edge_in(edges@, v as int, x as int) {
                let j = choose|j: int|
                    0 <= j < edges@.len() && edge_matches(#[trigger] edges@[j], v as int, x as int);
                assert(edge_matches(edges@[j], v as int, x as int));
            }
        }
    }
    sort_ids(&mut raw);
    let ghost sorted_snap = raw@;
    proof {
        broadcast use vstd::seq_lib::group_to_multiset_ensures;

        assert forall|x: NodeId| sorted_snap.contains(x) == raw_snap.contains(x) by {
            assert(sorted_snap.contains(x) <==> sorted_snap.to_multiset().count(x) > 0);
            assert(raw_snap.contains(x) <==> raw_snap.to_multiset().count(x) > 0);
        }
    }
    let nb = dedup_ids(raw);
    proof {
        assert forall|j: int| 0 <= j < nb@.len() implies (#[trigger] nb@[j] < n && nb@[j] != v)
            by {
            assert(nb@.contains(nb@[j]));
            assert(raw_snap.contains(nb@[j]));
        }
    }
    nb
}

/// Whether an edge list is too large for the library's arithmetic: too
/// many edges, or an id at or beyond `MAX_NODES`.
pub open spec fn too_large_spec(edges: Seq<(NodeId, NodeId)>) -> bool {
    ||| edges.len() > MAX_EDGES
    ||| exists|k: int|
        0 <= k < edges.len() && ((#[trigger] edges[k]).0 >= MAX_NODES || edges[k].1 >= MAX_NODES)
}

/// Whether any edge joins a vertex to itself.
pub open spec fn has_self_loop(edges: Seq<(NodeId, NodeId)>) -> bool {
    exists|k: int| 0 <= k < edges.len() && (#[trigger] edges[k]).0 == edges[k].1
}

impl Graph {
    /// Build a graph from an edge list: infer the vertex count from the
    /// largest id, compute the fixed-point weight of every node from its
    /// degree, and mirror each edge into both sorted neighbor lists.
    /// Duplicate edges are tolerated (they raise degrees but are listed
    /// once); self-loops are rejected; oversized inputs are rejected.
    /// Dimensions and hints are capped at sixteen: the weight formula's
    /// floor roots run at 64 internal steps per unit, and a larger
    /// exponent would push `degree * 64^hint` past 128 bits.
    pub fn from_edge_list(edges: Vec<(NodeId, NodeId)>, embedding_dim: usize, latent_dim_hint: usize) -> (r:
        Result<Graph, GraphError>)
        requires
            1 <= embedding_dim <= 16,
            1 <= latent_dim_hint <= 16,
        ensures
            match r {
                Result::Ok(g) => {
                    &&& !too_large_spec(edges@)
                    &&& !has_self_loop(edges@)
                    &&& g.wf()
                    &&& g.edges@ == edges@
                    &&& g.n() == node_count_spec(edges@)
                    &&& forall|v: int, u: int|
                        #[trigger] g.adj(v, u) <==> (0 <= v < g.n() && 0 <= u < g.n() && u != v
                            && edge_in(edges@, v, u))
                    &&& forall|v: int|
                        0 <= v < g.n() ==> #[trigger] g.weight_of(v) == weight_chain(
                            deg_spec(edges@, v),
                            g.n(),
                            2 * edges@.len(),
                            embedding_dim as nat,
                            latent_dim_hint as nat,
                        )
                },
                Result::Err(e) => {
                    ||| (e == GraphError::TooLarge && too_large_spec(edges@))
                    ||| (e == GraphError::SelfLoop && !too_large_spec(edges@) && has_self_loop(
                        edges@,
                    ))
                },
            },
    {
        if edges.len() > MAX_EDGES {
            return Err(GraphError::TooLarge);
        }
        let mut maxid: usize = 0;
        let mut k: usize = 0;
        while k < edges.len()
            invariant
                k <= edges@.len(),
                maxid as nat == max_id_prefix(edges@, k as nat),
                maxid == 0 || maxid < MAX_NODES,
                forall|j: int|
                    0 <= j < k ==> (#[trigger] edges@[j].0 < MAX_NODES && edges@[j].1 < MAX_NODES),
            decreases edges@.len() - k,
        {
            let e = edges[k];
            if e.0 >= MAX_NODES || e.1 >= MAX_NODES {
                proof {
                    assert(edges@[k as int].0 >= MAX_NODES || edges@[k as int].1 >= MAX_NODES);
                }
                return Err(GraphError::TooLarge);
            }
            if e.0 > maxid {
                maxid = e.0;
            }
            if e.1 > maxid {
                maxid = e.1;
            }
            k = k + 1;
        }
        proof {
            assert(!too_large_spec(edges@));
        }
        let mut k: usize = 0;
        while k < edges.len()
            invariant
                k <= edges@.len(),
                !too_large_spec(edges@),
                forall|j: int| 0 <= j < k ==> (#[trigger] edges@[j]).0 != edges@[j].1,
            decreases edges@.len() - k,
        {
            let e = edges[k];
            if e.0 == e.1 {
                proof {
                    assert(edges@[k as int].0 == edges@[k as int].1);
                }
                return Err(GraphError::SelfLoop);
            }
            k = k + 1;
        }
        let n: usize = if edges.len() == 0 {
            0
        } else {
            maxid + 1
        };
        proof {
            assert(n == node_count_spec(edges@));
            assert forall|j: int|
                0 <= j < edges@.len() implies (#[trigger] edges@[j].0 < n && edges@[j].1 < n
                && edges@[j].0 != edges@[j].1) by {
                lemma_max_id_ge(edges@, j, edges@.len() as nat);
            }
        }
        // degrees, counting duplicate edges with multiplicity
        let mut deg: Vec<u64> = Vec::new();
        let mut v: usize = 0;
        while v < n
            invariant
                v <= n,
                deg@.len() == v,
                forall|w: int| 0 <= w < v ==> #[trigger] deg@[w] == 0,
            decreases n - v,
        {
            deg.push(0);
            v = v + 1;
        }
        let mut k: usize = 0;
        while k < edges.len()
            invariant
                k <= edges@.len(),
                edges@.len() <= MAX_EDGES,
                deg@.len() == n,
                forall|j: int|
                    0 <= j < edges@.len() ==> (#[trigger] edges@[j].0 < n && edges@[j].1 < n
                        && edges@[j].0 != edges@[j].1),
                forall|w: int|
                    0 <= w < n ==> #[trigger] deg@[w] as nat == deg_prefix(edges@, w, k as nat),
                forall|w: int| 0 <= w < n ==> #[trigger] deg@[w] <= 2 * k,
            decreases edges@.len() - k,
        {
            let e = edges[k];
            let d0 = deg[e.0];
            deg[e.0] = d0 + 1;
            let d1 = deg[e.1];
            deg[e.1] = d1 + 1;
            k = k + 1;
        }
        let s: u64 = 2 * (edges.len() as u64);
        let mut nodes: Vec<Node> = Vec::new();
        let mut v: usize = 0;
        while v < n
            invariant
                v <= n,
                n <= MAX_NODES,
                n as nat == node_count_spec(edges@),
                edges@.len() <= MAX_EDGES,
                s == 2 * edges@.len(),
                deg@.len() == n,
                1 <= embedding_dim <= 16,
                1 <= latent_dim_hint <= 16,
                forall|j: int|
                    0 <= j < edges@.len() ==> (#[trigger] edges@[j].0 < n && edges@[j].1 < n
                        && edges@[j].0 != edges@[j].1),
                forall|w: int|
                    0 <= w < n ==> #[trigger] deg@[w] as nat == deg_spec(edges@, w),
                forall|w: int| 0 <= w < n ==> #[trigger] deg@[w] <= 2 * edges@.len(),
                nodes@.len() == v,
                forall|w: int|
                    0 <= w < v ==> #[trigger] nodes@[w].weight as nat == weight_chain(
                        deg_spec(edges@, w),
                        n as nat,
                        s as nat,
                        embedding_dim as nat,
                        latent_dim_hint as nat,
                    ) && nodes@[w].weight <= WEIGHT_CAP,
                forall|w: int| 0 <= w < v ==> strictly_sorted(#[trigger] nodes@[w].neighbors@),
                forall|w: int, j: int|
                    0 <= w < v && 0 <= j < nodes@[w].neighbors@.len() ==> (#[trigger] nodes@[w].neighbors@[j]
                        < n && nodes@[w].neighbors@[j] != w),
                forall|w: int, x: NodeId|
                    0 <= w < v ==> (#[trigger] nodes@[w].neighbors@.contains(x) <==> edge_in(
                        edges@,
                        w,
                        x as int,
                    )),
            decreases n - v,
        {
            let w = compute_weight(deg[v], n, s, embedding_dim, latent_dim_hint);
            let nb = build_neighbors(&edges, v, n);
            nodes.push(Node { weight: w, neighbors: nb });
            v = v + 1;
        }
        let g = Graph { nodes, edges };
        proof {
            assert(!too_large_spec(g.edges@)) by {
                if exists|k: int|
                    0 <= k < g.edges@.len() && ((#[trigger] g.edges@[k]).0 >= MAX_NODES
                        || (g.edges@[k]).1 >= MAX_NODES) {
                    let k = choose|k: int|
                        0 <= k < g.edges@.len() && ((#[trigger] g.edges@[k]).0 >= MAX_NODES
                            || g.edges@[k].1 >= MAX_NODES);
                    assert(g.edges@[k].0 < n && g.edges@[k].1 < n);
                }
            }
            assert(!has_self_loop(g.edges@)) by {
                if has_self_loop(g.edges@) {
                    let k = choose|k: int|
                        0 <= k < g.edges@.len() && (#[trigger] g.edges@[k]).0 == g.edges@[k].1;
                    assert(g.edges@[k].0 != g.edges@[k].1);
                }
            }
            assert forall|a: int, b: int| #[trigger] g.adj(a, b) implies g.adj(b, a) by {
                if g.adj(a, b) {
                    lemma_edge_in_sym(g.edges@, a, b);
                    assert(g.neighbors_of(a).contains(b as NodeId));
                    assert(edge_in(g.edges@, a, b));
                    assert(g.neighbors_of(b).contains(a as NodeId));
                }
            }
            assert(g.wf());
        }
        Ok(g)
    }
}

impl Graph {
    /// Duplicate this graph, sharing nothing: same nodes, weights,
    /// neighbor lists and edge list.
    pub fn duplicate(&self) -> (g: Graph)
        ensures
            g.n() == self.n(),
            g.edges@ == self.edges@,
            forall|v: int| 0 <= v < self.n() ==> #[trigger] g.weight_of(v) == self.weight_of(v),
            forall|v: int|
                0 <= v < self.n() ==> #[trigger] g.neighbors_of(v) == self.neighbors_of(v),
            forall|v: int, u: int| #[trigger] g.adj(v, u) == self.adj(v, u),
            self.wf() ==> g.wf(),
    {
        let mut nodes: Vec<Node> = Vec::new();
        let mut v: usize = 0;
        let n = self.nodes.len();
        while v < n
            invariant
                v <= n,
                n == self.n(),
                nodes@.len() == v,
                forall|w: int|
                    0 <= w < v ==> #[trigger] nodes@[w].weight == self.nodes@[w].weight,
                forall|w: int|
                    0 <= w < v ==> #[trigger] nodes@[w].neighbors@ == self.nodes@[w].neighbors@,
            decreases n - v,
        {
            let nb = self.nodes[v].neighbors.clone();
            proof {
                assert(nb@ =~= self.nodes@[v as int].neighbors@);
            }
            nodes.push(Node { weight: self.nodes[v].weight, neighbors: nb });
            v = v + 1;
        }
        let mut edges: Vec<(NodeId, NodeId)> = Vec::new();
        let mut k: usize = 0;
        while k < self.edges.len()
            invariant
                k <= self.edges@.len(),
                edges@ == self.edges@.take(k as int),
            decreases self.edges@.len() - k,
        {
            edges.push(self.edges[k]);
            proof {
                assert(edges@ =~= self.edges@.take(k + 1));
            }
            k = k + 1;
        }
        proof {
            assert(self.edges@.take(self.edges@.len() as int) == self.edges@);
        }
        let g = Graph { nodes, edges };
        proof {
            assert forall|v2: int, u: int| #[trigger] g.adj(v2, u) == self.adj(v2, u) by {
                if 0 <= v2 < g.n() {
                    assert(g.neighbors_of(v2) == self.neighbors_of(v2));
                }
            }
            if self.wf() {
                assert forall|v2: int|
                    0 <= v2 < g.n() implies strictly_sorted(#[trigger] g.neighbors_of(v2)) by {
                    assert(g.neighbors_of(v2) == self.neighbors_of(v2));
                    assert(strictly_sorted(self.neighbors_of(v2)));
                }
                assert forall|v2: int, j: int|
                    0 <= v2 < g.n() && 0 <= j < g.neighbors_of(v2).len() implies ((#[trigger] g
                    .neighbors_of(v2)[j]) < g.n() && g.neighbors_of(v2)[j] != v2) by {
                    assert(g.neighbors_of(v2) == self.neighbors_of(v2));
                    assert((self.neighbors_of(v2)[j]) < self.n() && self.neighbors_of(v2)[j] != v2);
                }
                assert forall|v2: int, u: int| #[trigger] g.adj(v2, u) implies g.adj(u, v2) by {
                    if g.adj(v2, u) {
                        assert(self.adj(v2, u));
                        assert(self.adj(u, v2));
                        assert(g.adj(u, v2) == self.adj(u, v2));
                    }
                }
                assert forall|v2: int| 0 <= v2 < g.n() implies #[trigger] g.weight_of(v2)
                    <= WEIGHT_CAP by {
                    assert(g.weight_of(v2) == self.weight_of(v2));
                    assert(self.weight_of(v2) <= WEIGHT_CAP);
                }
                assert(g.wf());
            }
        }
        g
    }
}

} // verus!
