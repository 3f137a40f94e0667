//! The accelerated spatial index: a recursive axis-split tree over a
//! permutation of the vertex ids, with leaf buckets, a per-leaf lookup
//! table for the scan start, and a radius-reduction descent. Its query
//! is proven sound and complete against the weighted-radius predicate:
//! it returns exactly the strict weighted neighbors of the queried
//! vertex, with no asymmetry.

use vstd::prelude::*;
use crate::NodeId;
use crate::dvec::{DVec, copy_positions, dist_sq_spec, lemma_sum_sq_diff_bound};
use crate::graph::{Graph, WEIGHT_CAP};
use crate::math::abs_int;
use crate::query::{MAX_DIM, RadiusSq, SpatialIndex, check_within, within_weighted_radius};

verus! {

/// Vertices per leaf bucket before a range is split.
pub const LEAF_SIZE: usize = 50;

/// Buckets in a leaf's lookup table.
pub const LUT_SIZE: usize = 50;

/// A tree node: either a leaf bucket over a contiguous id range, or an
/// internal split of such a range at a coordinate value.
pub enum KdNode {
    Leaf { offset: usize, len: usize, axis: usize, lut: Vec<usize>, min: i32, width: u64 },
    Internal { axis: usize, split: i32, mid: usize, left: Box<KdNode>, right: Box<KdNode> },
}

/// The coordinate of vertex `ids[i]` on `axis`.
pub open spec fn key_at(posm: Seq<Seq<int>>, ids: Seq<NodeId>, i: int, axis: int) -> int {
    posm[ids[i] as int][axis]
}

/// Well-formedness of a subtree over the id range `[lo, hi)`:
/// leaves record their range, keep `d_pos` equal to the axis
/// coordinates sorted in non-decreasing order, and carry a lookup table
/// whose entry `b` skips only ids with coordinate below `min + b*width`;
/// internal nodes separate the two halves strictly at the split value.
pub open spec fn tree_wf(
    node: KdNode,
    lo: int,
    hi: int,
    ids: Seq<NodeId>,
    d_pos: Seq<int>,
    posm: Seq<Seq<int>>,
    dim: nat,
) -> bool
    decreases node,
{
    match node {
        KdNode::Leaf { offset, len, axis, lut, min, width } => {
            &&& offset == lo
            &&& lo + len == hi
            &&& axis < dim
            &&& width >= 1
            &&& lut@.len() == LUT_SIZE
            &&& forall|a: int, b: int|
                #![trigger ids[a], ids[b]]
                lo <= a < b < hi ==> key_at(posm, ids, a, axis as int) <= key_at(
                    posm,
                    ids,
                    b,
                    axis as int,
                )
            &&& forall|i: int| lo <= i < hi ==> #[trigger] d_pos[i] == key_at(posm, ids, i, axis as int)
            &&& forall|b: int, j: int|
                #![trigger lut@[b], d_pos[lo + j]]
                0 <= b < LUT_SIZE && 0 <= j < lut@[b] ==> lo + j < hi && d_pos[lo + j] < min + b
                    * width
            &&& forall|b: int| 0 <= b < LUT_SIZE ==> #[trigger] lut@[b] <= len
        },
        KdNode::Internal { axis, split, mid, left, right } => {
            &&& axis < dim
            &&& lo < mid < hi
            &&& tree_wf(*left, lo, mid as int, ids, d_pos, posm, dim)
            &&& tree_wf(*right, mid as int, hi, ids, d_pos, posm, dim)
            &&& forall|i: int| lo <= i < mid ==> key_at(posm, ids, i, axis as int) < split
            &&& forall|i: int| mid <= i < hi ==> key_at(posm, ids, i, axis as int) >= split
        },
    }
}

/// A subtree's well-formedness depends only on the id range it covers
/// and the matching `d_pos` entries.
pub proof fn lemma_tree_wf_frame(
    node: KdNode,
    lo: int,
    hi: int,
    ids1: Seq<NodeId>,
    d1: Seq<int>,
    ids2: Seq<NodeId>,
    d2: Seq<int>,
    posm: Seq<Seq<int>>,
    dim: nat,
)
    requires
        tree_wf(node, lo, hi, ids1, d1, posm, dim),
        forall|i: int| lo <= i < hi ==> #[trigger] ids1[i] == ids2[i],
        forall|i: int| lo <= i < hi ==> #[trigger] d1[i] == d2[i],
    ensures
        tree_wf(node, lo, hi, ids2, d2, posm, dim),
    decreases node,
{
    match node {
        KdNode::Leaf { offset, len, axis, lut, min, width } => {
            assert forall|a: int, b: int|
                #![trigger ids2[a], ids2[b]]
                lo <= a < b < hi implies key_at(posm, ids2, a, axis as int) <= key_at(
                posm,
                ids2,
                b,
                axis as int,
            ) by {
                assert(ids1[a] == ids2[a]);
                assert(ids1[b] == ids2[b]);
            }
            assert forall|i: int| lo <= i < hi implies #[trigger] d2[i] == key_at(
                posm,
                ids2,
                i,
                axis as int,
            ) by {
                assert(ids1[i] == ids2[i]);
                assert(d1[i] == d2[i]);
            }
            assert forall|b: int, j: int|
                #![trigger lut@[b], d2[lo + j]]
                0 <= b < LUT_SIZE && 0 <= j < lut@[b] implies lo + j < hi && d2[lo + j] < min + b
                    * width by {
                assert(d1[lo + j] < min + b * width);
                assert(d1[lo + j] == d2[lo + j]);
            }
        },
        KdNode::Internal { axis, split, mid, left, right } => {
            lemma_tree_wf_frame(*left, lo, mid as int, ids1, d1, ids2, d2, posm, dim);
            lemma_tree_wf_frame(*right, mid as int, hi, ids1, d1, ids2, d2, posm, dim);
            assert forall|i: int| lo <= i < mid implies key_at(posm, ids2, i, axis as int)
                < split by {
                assert(ids1[i] == ids2[i]);
                assert(key_at(posm, ids1, i, axis as int) < split);
            }
            assert forall|i: int| mid <= i < hi implies key_at(posm, ids2, i, axis as int)
                >= split by {
                assert(ids1[i] == ids2[i]);
                assert(key_at(posm, ids1, i, axis as int) >= split);
            }
        },
    }
}

/// Sort the id range `[lo, hi)` in place by the coordinate on `axis`,
/// touching nothing outside the range and permuting nothing away.
fn sort_range(ids: &mut Vec<NodeId>, lo: usize, hi: usize, positions: &Vec<DVec>, axis: usize)
    requires
        lo <= hi <= old(ids)@.len(),
        forall|i: int| 0 <= i < old(ids)@.len() ==> (#[trigger] old(ids)@[i]) < positions@.len(),
        forall|p: int| 0 <= p < positions@.len() ==> axis < (#[trigger] positions@[p])@.len(),
    ensures
        final(ids)@.len() == old(ids)@.len(),
        final(ids)@.to_multiset() == old(ids)@.to_multiset(),
        forall|i: int|
            0 <= i < old(ids)@.len() && !(lo <= i < hi) ==> #[trigger] final(ids)@[i] == old(
                ids,
            )@[i],
        forall|i: int| 0 <= i < old(ids)@.len() ==> (#[trigger] final(ids)@[i]) < positions@.len(),
        forall|a: int, b: int|
            #![trigger final(ids)@[a], final(ids)@[b]]
            lo <= a < b < hi ==> key_at(positions@.map_values(|p: DVec| p@), final(ids)@, a, axis as int)
                <= key_at(positions@.map_values(|p: DVec| p@), final(ids)@, b, axis as int),
{
    let ghost posm = positions@.map_values(|p: DVec| p@);
    if hi - lo <= 1 {
        return ;
    }
    let mut i: usize = lo + 1;
    while i < hi
        invariant
            lo + 1 <= i <= hi <= ids@.len(),
            ids@.len() == old(ids)@.len(),
            ids@.to_multiset() == old(ids)@.to_multiset(),
            posm == positions@.map_values(|p: DVec| p@),
            forall|p: int| 0 <= p < positions@.len() ==> axis < (#[trigger] positions@[p])@.len(),
            forall|j: int|
                0 <= j < ids@.len() && !(lo <= j < hi) ==> #[trigger] ids@[j] == old(ids)@[j],
            forall|j: int| 0 <= j < ids@.len() ==> (#[trigger] ids@[j]) < positions@.len(),
            forall|a: int, b: int|
                #![trigger ids@[a], ids@[b]]
                lo <= a < b < i ==> key_at(posm, ids@, a, axis as int) <= key_at(
                    posm,
                    ids@,
                    b,
                    axis as int,
                ),
        decreases hi - i,
    {
        let mut j: usize = i;
        while j > lo && positions[ids[j - 1]].get(axis) > positions[ids[j]].get(axis)
            invariant
                lo <= j <= i < hi <= ids@.len(),
                ids@.len() == old(ids)@.len(),
                ids@.to_multiset() == old(ids)@.to_multiset(),
                posm == positions@.map_values(|p: DVec| p@),
                forall|p: int|
                    0 <= p < positions@.len() ==> axis < (#[trigger] positions@[p])@.len(),
                forall|jj: int|
                    0 <= jj < ids@.len() && !(lo <= jj < hi) ==> #[trigger] ids@[jj] == old(
                        ids,
                    )@[jj],
                forall|jj: int| 0 <= jj < ids@.len() ==> (#[trigger] ids@[jj]) < positions@.len(),
                forall|a: int, b: int|
                    #![trigger ids@[a], ids@[b]]
                    lo <= a < b <= i && b != j ==> key_at(posm, ids@, a, axis as int) <= key_at(
                        posm,
                        ids@,
                        b,
                        axis as int,
                    ),
            decreases j,
        {
            let ghost pre = ids@;
            let x = ids[j - 1];
            let y = ids[j];
            ids[j - 1] = y;
            ids[j] = x;
            proof {
                broadcast use vstd::seq_lib::group_to_multiset_ensures;

                assert(pre.to_multiset().count(pre[j - 1]) > 0) by {
                    assert(pre.contains(pre[j - 1]));
                }
                assert(pre.update(j - 1, y).to_multiset().count(pre.update(j - 1, y)[j as int])
                    > 0) by {
                    assert(pre.update(j - 1, y).contains(pre.update(j - 1, y)[j as int]));
                }
                assert(ids@ == pre.update(j - 1, y).update(j as int, x));
                assert(pre.update(j - 1, y).to_multiset() == pre.to_multiset().insert(y).remove(
                    pre[j - 1],
                ));
                assert(pre.update(j - 1, y)[j as int] == pre[j as int]);
                assert(ids@.to_multiset() == pre.update(j - 1, y).to_multiset().insert(x).remove(
                    pre.update(j - 1, y)[j as int],
                ));
                assert(ids@.to_multiset() =~= pre.to_multiset());
            }
            j = j - 1;
        }
        i = i + 1;
    }
}

/// Build a leaf over the already sorted range `[lo, hi)`: write the
/// axis coordinates into `d_pos` and compute the bucket lookup table.
fn make_leaf(
    ids: &Vec<NodeId>,
    d_pos: &mut Vec<i32>,
    positions: &Vec<DVec>,
    lo: usize,
    hi: usize,
    axis: usize,
) -> (node: KdNode)
    requires
        lo <= hi <= ids@.len(),
        ids@.len() == old(d_pos)@.len(),
        forall|i: int| 0 <= i < ids@.len() ==> (#[trigger] ids@[i]) < positions@.len(),
        forall|p: int| 0 <= p < positions@.len() ==> axis < (#[trigger] positions@[p])@.len(),
        forall|a: int, b: int|
            #![trigger ids@[a], ids@[b]]
            lo <= a < b < hi ==> key_at(positions@.map_values(|p: DVec| p@), ids@, a, axis as int)
                <= key_at(positions@.map_values(|p: DVec| p@), ids@, b, axis as int),
    ensures
        final(d_pos)@.len() == old(d_pos)@.len(),
        forall|i: int|
            0 <= i < old(d_pos)@.len() && !(lo <= i < hi) ==> #[trigger] final(d_pos)@[i] == old(
                d_pos,
            )@[i],
        tree_wf(
            node,
            lo as int,
            hi as int,
            ids@,
            final(d_pos)@.map_values(|x: i32| x as int),
            positions@.map_values(|p: DVec| p@),
            axis as nat + 1,
        ),
        node matches KdNode::Leaf { axis: a, .. } && a == axis,
{
    let ghost posm = positions@.map_values(|p: DVec| p@);
    let mut i: usize = lo;
    while i < hi
        invariant
            lo <= i <= hi <= ids@.len(),
            ids@.len() == d_pos@.len(),
            posm == positions@.map_values(|p: DVec| p@),
            forall|k: int| 0 <= k < ids@.len() ==> (#[trigger] ids@[k]) < positions@.len(),
            forall|p: int| 0 <= p < positions@.len() ==> axis < (#[trigger] positions@[p])@.len(),
            forall|k: int|
                0 <= k < d_pos@.len() && !(lo <= k < i) ==> #[trigger] d_pos@[k] == old(
                    d_pos,
                )@[k],
            forall|k: int|
                lo <= k < i ==> #[trigger] d_pos@[k] as int == key_at(posm, ids@, k, axis as int),
        decreases hi - i,
    {
        let c = positions[ids[i]].get(axis);
        d_pos[i] = c;
        i = i + 1;
    }
    let minv: i32 = if hi > lo {
        d_pos[lo]
    } else {
        0
    };
    let maxv: i32 = if hi > lo {
        d_pos[hi - 1]
    } else {
        0
    };
    proof {
        if hi > lo + 1 {
            assert(key_at(posm, ids@, lo as int, axis as int) <= key_at(
                posm,
                ids@,
                hi - 1,
                axis as int,
            ));
        }
    }
    proof {
        assert(maxv >= minv);
    }
    let span: u64 = ((maxv as i64) - (minv as i64)) as u64;
    let width: u64 = span / (LUT_SIZE as u64) + 1;
    proof {
        assert(span <= 0xffff_ffffu64);
        assert(width <= 0x1_0000_0000u64);
    }
    let mut lut: Vec<usize> = Vec::new();
    let mut b: usize = 0;
    while b < LUT_SIZE
        invariant
            b <= LUT_SIZE,
            lo <= hi <= ids@.len(),
            ids@.len() == d_pos@.len(),
            1 <= width <= 0x1_0000_0000u64,
            lut@.len() == b,
            posm == positions@.map_values(|p: DVec| p@),
            forall|k: int|
                lo <= k < hi ==> #[trigger] d_pos@[k] as int == key_at(posm, ids@, k, axis as int),
            forall|bb: int, j: int|
                #![trigger lut@[bb], d_pos@[lo + j]]
                0 <= bb < b && 0 <= j < lut@[bb] ==> lo + j < hi && (d_pos@[lo + j] as int) < minv
                    + bb * width,
            forall|bb: int| 0 <= bb < b ==> #[trigger] lut@[bb] <= hi - lo,
        decreases LUT_SIZE - b,
    {
        proof {
            assert((b as int) * (width as int) <= 50 * 0x2_0000_0000i64) by (nonlinear_arith)
                requires
                    0 <= b <= 50,
                    1 <= width <= 0x1_0000_0000u64,
            ;
        }
        let bound: i64 = (minv as i64) + (b as u64 * width) as i64;
        let mut j: usize = lo;
        while j < hi && (d_pos[j] as i64) < bound
            invariant
                lo <= j <= hi <= d_pos@.len(),
                forall|k: int| lo <= k < j ==> (#[trigger] d_pos@[k] as int) < bound,
            decreases hi - j,
        {
            j = j + 1;
        }
        lut.push(j - lo);
        b = b + 1;
    }
    let node = KdNode::Leaf { offset: lo, len: hi - lo, axis, lut, min: minv, width };
    proof {
        let d2 = d_pos@.map_values(|x: i32| x as int);
        assert forall|a: int, c: int|
            #![trigger ids@[a], ids@[c]]
            lo <= a < c < hi implies key_at(posm, ids@, a, axis as int) <= key_at(
            posm,
            ids@,
            c,
            axis as int,
        ) by {}
        assert forall|k: int| lo <= k < hi implies #[trigger] d2[k] == key_at(
            posm,
            ids@,
            k,
            axis as int,
        ) by {
            assert(d_pos@[k] as int == key_at(posm, ids@, k, axis as int));
        }
    }
    node
}

/// Multiset cancellation over a three-way split: equal outer parts and
/// equal whole multisets force equal subrange multisets.
proof fn lemma_subrange_multiset(s1: Seq<NodeId>, s2: Seq<NodeId>, lo: int, hi: int)
    requires
        s1.len() == s2.len(),
        0 <= lo <= hi <= s1.len(),
        s1.to_multiset() == s2.to_multiset(),
        forall|i: int| 0 <= i < s1.len() && !(lo <= i < hi) ==> #[trigger] s1[i] == s2[i],
    ensures
        s1.subrange(lo, hi).to_multiset() == s2.subrange(lo, hi).to_multiset(),
{
    broadcast use vstd::seq_lib::group_to_multiset_ensures;

    let a1 = s1.subrange(0, lo);
    let b1 = s1.subrange(lo, hi);
    let c1 = s1.subrange(hi, s1.len() as int);
    let a2 = s2.subrange(0, lo);
    let b2 = s2.subrange(lo, hi);
    let c2 = s2.subrange(hi, s2.len() as int);
    assert(a1 =~= a2);
    assert(c1 =~= c2);
    assert(s1 =~= a1 + b1 + c1);
    assert(s2 =~= a2 + b2 + c2);
    vstd::seq_lib::lemma_multiset_commutative(a1 + b1, c1);
    vstd::seq_lib::lemma_multiset_commutative(a1, b1);
    vstd::seq_lib::lemma_multiset_commutative(a2 + b2, c2);
    vstd::seq_lib::lemma_multiset_commutative(a2, b2);
    assert(s1.to_multiset() == a1.to_multiset().add(b1.to_multiset()).add(c1.to_multiset()));
    assert(s2.to_multiset() == a2.to_multiset().add(b2.to_multiset()).add(c2.to_multiset()));
    assert(b1.to_multiset() =~= b2.to_multiset()) by {
        assert forall|x: NodeId| #[trigger] b1.to_multiset().count(x) == b2.to_multiset().count(
            x,
        ) by {
            assert(s1.to_multiset().count(x) == a1.to_multiset().count(x) + b1.to_multiset().count(
                x,
            ) + c1.to_multiset().count(x));
            assert(s2.to_multiset().count(x) == a2.to_multiset().count(x) + b2.to_multiset().count(
                x,
            ) + c2.to_multiset().count(x));
        }
    }
}

/// Build the subtree over `[lo, hi)`, sorting the ids of the range and
/// recording leaf data; the ids stay a permutation of what they were
/// and nothing outside the range moves.
fn build_node(
    ids: &mut Vec<NodeId>,
    d_pos: &mut Vec<i32>,
    positions: &Vec<DVec>,
    lo: usize,
    hi: usize,
    axis: usize,
    dim: usize,
) -> (node: KdNode)
    requires
        lo <= hi <= old(ids)@.len(),
        old(ids)@.len() == old(d_pos)@.len(),
        axis < dim,
        forall|i: int| 0 <= i < old(ids)@.len() ==> (#[trigger] old(ids)@[i]) < positions@.len(),
        forall|p: int| 0 <= p < positions@.len() ==> dim == (#[trigger] positions@[p])@.len(),
    ensures
        final(ids)@.len() == old(ids)@.len(),
        final(d_pos)@.len() == old(d_pos)@.len(),
        final(ids)@.to_multiset() == old(ids)@.to_multiset(),
        forall|i: int|
            0 <= i < old(ids)@.len() && !(lo <= i < hi) ==> #[trigger] final(ids)@[i] == old(
                ids,
            )@[i],
        forall|i: int|
            0 <= i < old(d_pos)@.len() && !(lo <= i < hi) ==> #[trigger] final(d_pos)@[i] == old(
                d_pos,
            )@[i],
        forall|i: int| 0 <= i < old(ids)@.len() ==> (#[trigger] final(ids)@[i]) < positions@.len(),
        tree_wf(
            node,
            lo as int,
            hi as int,
            final(ids)@,
            final(d_pos)@.map_values(|x: i32| x as int),
            positions@.map_values(|p: DVec| p@),
            dim as nat,
        ),
    decreases hi - lo,
{
    let ghost posm = positions@.map_values(|p: DVec| p@);
    sort_range(ids, lo, hi, positions, axis);
    if hi - lo <= LEAF_SIZE {
        let node = make_leaf(ids, d_pos, positions, lo, hi, axis);
        proof {
            lemma_leaf_wf_widen(
                node,
                lo as int,
                hi as int,
                ids@,
                d_pos@.map_values(|x: i32| x as int),
                posm,
                (axis + 1) as nat,
                dim as nat,
            );
        }
        return node;
    }
    let mut split_pos: usize = lo + (hi - lo) / 2;
    let split: i32 = positions[ids[split_pos]].get(axis);
    while split_pos > lo && positions[ids[split_pos - 1]].get(axis) == split
        invariant
            lo <= split_pos <= lo + (hi - lo) / 2 < hi,
            hi <= ids@.len(),
            axis < dim,
            ids@.len() == d_pos@.len(),
            posm == positions@.map_values(|p: DVec| p@),
            forall|i: int| 0 <= i < ids@.len() ==> (#[trigger] ids@[i]) < positions@.len(),
            forall|p: int| 0 <= p < positions@.len() ==> dim == (#[trigger] positions@[p])@.len(),
            forall|a: int, b: int|
                #![trigger ids@[a], ids@[b]]
                lo <= a < b < hi ==> key_at(posm, ids@, a, axis as int) <= key_at(
                    posm,
                    ids@,
                    b,
                    axis as int,
                ),
            forall|i: int|
                split_pos <= i < hi ==> key_at(posm, ids@, i, axis as int) >= split,
            split == key_at(posm, ids@, lo + (hi - lo) / 2, axis as int),
        decreases split_pos,
    {
        proof {
            assert forall|i: int| split_pos - 1 <= i < hi implies key_at(
                posm,
                ids@,
                i,
                axis as int,
            ) >= split by {
                if i > split_pos - 1 {
                } else {
                    assert(key_at(posm, ids@, split_pos - 1, axis as int) == split);
                }
            }
        }
        split_pos = split_pos - 1;
    }
    if split_pos == lo {
        // every id up to the middle shares the split coordinate: the
        // range cannot be divided on this axis, so it becomes one leaf
        let node = make_leaf(ids, d_pos, positions, lo, hi, axis);
        proof {
            lemma_leaf_wf_widen(
                node,
                lo as int,
                hi as int,
                ids@,
                d_pos@.map_values(|x: i32| x as int),
                posm,
                (axis + 1) as nat,
                dim as nat,
            );
        }
        return node;
    }
    proof {
        assert(split_pos > lo ==> key_at(posm, ids@, split_pos - 1, axis as int) < split) by {
            if split_pos > lo {
                assert(key_at(posm, ids@, split_pos - 1, axis as int) <= key_at(
                    posm,
                    ids@,
                    lo + (hi - lo) / 2,
                    axis as int,
                ));
            }
        }
        assert forall|i: int| lo <= i < split_pos implies key_at(posm, ids@, i, axis as int)
            < split by {
            if i < split_pos - 1 {
                assert(key_at(posm, ids@, i, axis as int) <= key_at(
                    posm,
                    ids@,
                    split_pos - 1,
                    axis as int,
                ));
            }
        }
    }
    let next_axis: usize = if axis + 1 < dim {
        axis + 1
    } else {
        0
    };
    let ghost ids_sorted = ids@;
    let ghost split_keys_low = split;
    let left = build_node(ids, d_pos, positions, lo, split_pos, next_axis, dim);
    let ghost ids_after_left = ids@;
    let ghost d_after_left = d_pos@;
    let right = build_node(ids, d_pos, positions, split_pos, hi, next_axis, dim);
    proof {
        // the left subtree's shape survives the right build untouched
        lemma_tree_wf_frame(
            left,
            lo as int,
            split_pos as int,
            ids_after_left,
            d_after_left.map_values(|x: i32| x as int),
            ids@,
            d_pos@.map_values(|x: i32| x as int),
            posm,
            dim as nat,
        );
        // separation transfers through the two permutations
        broadcast use vstd::seq_lib::group_to_multiset_ensures;

        lemma_subrange_multiset(ids_sorted, ids_after_left, lo as int, split_pos as int);
        lemma_subrange_multiset(ids_after_left, ids@, split_pos as int, hi as int);
        assert forall|i: int| lo <= i < split_pos implies key_at(posm, ids@, i, axis as int)
            < split by {
            assert(ids@[i] == ids_after_left[i]);
            let sub_new = ids_after_left.subrange(lo as int, split_pos as int);
            assert(sub_new[i - lo] == ids_after_left[i]);
            assert(sub_new.to_multiset().count(ids_after_left[i]) > 0) by {
                assert(sub_new.contains(ids_after_left[i]));
            }
            let sub_old = ids_sorted.subrange(lo as int, split_pos as int);
            assert(sub_old.to_multiset().count(ids_after_left[i]) > 0);
            assert(sub_old.contains(ids_after_left[i]));
            let k = choose|k: int| 0 <= k < sub_old.len() && sub_old[k] == ids_after_left[i];
            assert(ids_sorted[lo + k] == ids_after_left[i]);
            assert(key_at(posm, ids_sorted, lo + k, axis as int) < split);
        }
        assert forall|i: int| split_pos <= i < hi implies key_at(posm, ids@, i, axis as int)
            >= split by {
            let sub_new = ids@.subrange(split_pos as int, hi as int);
            assert(sub_new[i - split_pos] == ids@[i]);
            assert(sub_new.to_multiset().count(ids@[i]) > 0) by {
                assert(sub_new.contains(ids@[i]));
            }
            let sub_mid = ids_after_left.subrange(split_pos as int, hi as int);
            assert(sub_mid.to_multiset().count(ids@[i]) > 0);
            assert(sub_mid.contains(ids@[i]));
            let k = choose|k: int| 0 <= k < sub_mid.len() && sub_mid[k] == ids@[i];
            assert(ids_after_left[split_pos + k] == ids@[i]);
            assert(ids_after_left[split_pos + k] == ids_sorted[split_pos + k]);
            assert(key_at(posm, ids_sorted, split_pos + k, axis as int) >= split);
        }
    }
    KdNode::Internal {
        axis,
        split,
        mid: split_pos,
        left: Box::new(left),
        right: Box::new(right),
    }
}

/// A leaf well-formed at one dimension bound stays well-formed at any
/// larger bound.
proof fn lemma_leaf_wf_widen(
    node: KdNode,
    lo: int,
    hi: int,
    ids: Seq<NodeId>,
    d_pos: Seq<int>,
    posm: Seq<Seq<int>>,
    dim1: nat,
    dim2: nat,
)
    requires
        tree_wf(node, lo, hi, ids, d_pos, posm, dim1),
        dim1 <= dim2,
        node matches KdNode::Leaf { .. },
    ensures
        tree_wf(node, lo, hi, ids, d_pos, posm, dim2),
{
}

/// Sum of the squares of the first `k` entries.
pub open spec fn sum_squares(s: Seq<int>, k: nat) -> int
    decreases k,
{
    if k == 0 {
        0
    } else {
        sum_squares(s, (k - 1) as nat) + s[k - 1] * s[k - 1]
    }
}

proof fn lemma_sum_squares_bound(s: Seq<int>, k: nat)
    requires
        forall|i: int| 0 <= i < k ==> -0x1_0000_0000 <= #[trigger] s[i] <= 0x1_0000_0000,
    ensures
        0 <= sum_squares(s, k) <= k * 0x1_0000_0000_0000_0000_0000i128,
    decreases k,
{
    if k > 0 {
        lemma_sum_squares_bound(s, (k - 1) as nat);
        assert(0 <= s[k - 1] * s[k - 1] <= 0x1_0000_0000_0000_0000_0000i128) by (nonlinear_arith)
            requires
                -0x1_0000_0000 <= s[k - 1] <= 0x1_0000_0000,
        ;
        assert((k - 1) * 0x1_0000_0000_0000_0000_0000i128 + 0x1_0000_0000_0000_0000_0000i128 == k
            * 0x1_0000_0000_0000_0000_0000i128) by (nonlinear_arith);
    }
}

/// Pointwise domination: when every axis offset of `a` against `b` is
/// at least the recorded displacement, the squared distance dominates
/// the squared displacement sum; exempting one axis leaves the true
/// offset of that axis in place.
proof fn lemma_dist_dominates(a: Seq<int>, b: Seq<int>, d: Seq<int>, ax: int, n: nat)
    requires
        0 <= ax < n,
        forall|k: int|
            0 <= k < n ==> abs_int(a[k] - b[k]) >= abs_int(#[trigger] d[k]),
    ensures
        crate::dvec::sum_sq_diff(a, b, n) >= sum_squares(d, n) - d[ax] * d[ax] + (a[ax] - b[ax]) * (
        a[ax] - b[ax]),
        crate::dvec::sum_sq_diff(a, b, n) >= sum_squares(d, n),
    decreases n,
{
    let da = a[n - 1] - b[n - 1];
    assert(da * da >= d[n - 1] * d[n - 1]) by (nonlinear_arith)
        requires
            abs_int(da) >= abs_int(d[n - 1]),
    ;
    if n - 1 == ax {
        lemma_dist_dominates_plain(a, b, d, (n - 1) as nat);
    } else {
        lemma_dist_dominates(a, b, d, ax, (n - 1) as nat);
    }
}

proof fn lemma_dist_dominates_plain(a: Seq<int>, b: Seq<int>, d: Seq<int>, n: nat)
    requires
        forall|k: int|
            0 <= k < n ==> abs_int(a[k] - b[k]) >= abs_int(#[trigger] d[k]),
    ensures
        crate::dvec::sum_sq_diff(a, b, n) >= sum_squares(d, n),
    decreases n,
{
    if n > 0 {
        lemma_dist_dominates_plain(a, b, d, (n - 1) as nat);
        let da = a[n - 1] - b[n - 1];
        assert(da * da >= d[n - 1] * d[n - 1]) by (nonlinear_arith)
            requires
                abs_int(da) >= abs_int(d[n - 1]),
        ;
    }
}

/// Filtering a duplicate-free sequence keeps it duplicate-free.
proof fn lemma_filter_no_dup(s: Seq<NodeId>, pred: spec_fn(NodeId) -> bool)
    requires
        s.no_duplicates(),
    ensures
        s.filter(pred).no_duplicates(),
    decreases s.len(),
{
    reveal(Seq::filter);
    if s.len() > 0 {
        let rest = s.drop_last();
        lemma_filter_no_dup(rest, pred);
        if pred(s.last()) {
            assert(s.filter(pred) == rest.filter(pred).push(s.last()));
            if rest.filter(pred).contains(s.last()) {
                rest.lemma_filter_contains_rev(pred, s.last());
                assert(rest.contains(s.last()));
                let j = choose|j: int| 0 <= j < rest.len() && rest[j] == s.last();
                assert(s[j] == s[s.len() - 1]);
                assert(false);
            }
            vstd::seq_lib::lemma_no_dup_in_concat(rest.filter(pred), seq![s.last()]);
            assert(rest.filter(pred).push(s.last()) =~= rest.filter(pred) + seq![s.last()]);
        }
    }
}

/// The query predicate of one radius query: a strict weighted-radius
/// neighbor of `v`, other than `v` itself.
pub open spec fn qpred(
    g: Graph,
    posm: Seq<Seq<int>>,
    v: int,
    radius: RadiusSq,
) -> spec_fn(NodeId) -> bool {
    |u: NodeId|
        u as int != v && within_weighted_radius(
            posm[u as int],
            posm[v],
            g.weight_of(u as int),
            g.weight_of(v),
            radius.num as nat,
            radius.den as nat,
        )
}

/// One radius query, descending the tree with the remaining squared
/// budget and the per-axis accumulated displacements. Appends exactly
/// the strict weighted-radius neighbors of `v` among the ids of the
/// covered range.
#[verifier::rlimit(50)]
fn query_rec(
    node: &KdNode,
    ids: &Vec<NodeId>,
    d_pos: &Vec<i32>,
    positions: &Vec<DVec>,
    graph: &Graph,
    v: NodeId,
    vpos: &DVec,
    vweight: u64,
    radius: RadiusSq,
    budget: i128,
    deltas: &Vec<i64>,
    results: &mut Vec<NodeId>,
    Ghost(lo): Ghost<int>,
    Ghost(hi): Ghost<int>,
    Ghost(b0): Ghost<int>,
)
    requires
        graph.wf(),
        positions@.len() == graph.n(),
        forall|p: int|
            0 <= p < positions@.len() ==> (#[trigger] positions@[p])@.len() == vpos@.len(),
        1 <= vpos@.len() <= MAX_DIM,
        v < positions@.len(),
        vpos@ == positions@.map_values(|p: DVec| p@)[v as int],
        vweight == graph.weight_of(v as int),
        radius.wf(),
        ids@.len() == d_pos@.len(),
        0 <= lo <= hi <= ids@.len(),
        forall|i: int| 0 <= i < ids@.len() ==> (#[trigger] ids@[i]) < positions@.len(),
        tree_wf(
            *node,
            lo,
            hi,
            ids@,
            d_pos@.map_values(|x: i32| x as int),
            positions@.map_values(|p: DVec| p@),
            vpos@.len(),
        ),
        deltas@.len() == vpos@.len(),
        forall|k: int|
            0 <= k < deltas@.len() ==> -0x1_0000_0000 <= (#[trigger] deltas@[k]) <= 0x1_0000_0000,
        forall|i: int, k: int|
            #![trigger ids@[i], deltas@[k]]
            lo <= i < hi && 0 <= k < deltas@.len() ==> abs_int(
                positions@.map_values(|p: DVec| p@)[ids@[i] as int][k] - vpos@[k],
            ) >= abs_int(deltas@[k] as int),
        budget == b0 - sum_squares(deltas@.map_values(|x: i64| x as int), deltas@.len()),
        0 <= b0 <= 0x8_0000_0000_0000_0000_0000i128,
        forall|u: NodeId|
            #![trigger positions@[u as int]]
            u < positions@.len() && qpred(
                *graph,
                positions@.map_values(|p: DVec| p@),
                v as int,
                radius,
            )(u) ==> dist_sq_spec(positions@.map_values(|p: DVec| p@)[u as int], vpos@) < b0,
    ensures
        final(results)@.len() >= old(results)@.len(),
        final(results)@.subrange(0, old(results)@.len() as int) == old(results)@,
        final(results)@.subrange(
            old(results)@.len() as int,
            final(results)@.len() as int,
        ).to_multiset() == ids@.subrange(lo, hi).filter(
            qpred(*graph, positions@.map_values(|p: DVec| p@), v as int, radius),
        ).to_multiset(),
    decreases *node,
{
    let ghost posm = positions@.map_values(|p: DVec| p@);
    let ghost pred = qpred(*graph, posm, v as int, radius);
    let ghost dvals = deltas@.map_values(|x: i64| x as int);
    let ghost dim = vpos@.len();
    proof {
        lemma_sum_squares_bound(dvals, dim);
        assert((dim as int) * 0x1_0000_0000_0000_0000_0000i128 <= 1024
            * 0x1_0000_0000_0000_0000_0000i128) by (nonlinear_arith)
            requires
                dim <= 1024,
        ;
    }
    if budget <= 0 {
        // every point of this range lies at least the accumulated
        // displacement away, which already exhausts the budget
        proof {
            assert forall|i: int| lo <= i < hi implies !pred(ids@[i]) by {
                if pred(ids@[i]) {
                    let u = ids@[i];
                    lemma_dist_dominates_plain(posm[u as int], vpos@, dvals, dim);
                    assert(dist_sq_spec(posm[u as int], vpos@) < b0);
                    assert(crate::dvec::sum_sq_diff(posm[u as int], vpos@, dim) >= sum_squares(
                        dvals,
                        dim,
                    ));
                }
            }
            let sub = ids@.subrange(lo, hi);
            assert forall|i: int| 0 <= i < sub.len() implies !pred(#[trigger] sub[i]) by {
                assert(sub[i] == ids@[lo + i]);
            }
            sub.lemma_all_neg_filter_empty(pred);
            assert(final(results)@.subrange(
                old(results)@.len() as int,
                final(results)@.len() as int,
            ) =~= Seq::<NodeId>::empty());
            assert(sub.filter(pred) =~= Seq::<NodeId>::empty());
            assert(Seq::<NodeId>::empty().to_multiset() == sub.filter(pred).to_multiset());
            assert(results@.subrange(0, results@.len() as int) =~= results@);
        }
        return ;
    }
    match node {
        KdNode::Leaf { offset, len, axis, lut, min, width } => {
            let ghost sub = ids@.subrange(lo, hi);
            if *len == 0 {
                proof {
                    assert(sub =~= Seq::<NodeId>::empty());
                    reveal(Seq::filter);
                    assert(final(results)@.subrange(
                        old(results)@.len() as int,
                        final(results)@.len() as int,
                    ) =~= Seq::<NodeId>::empty());
                    assert(results@.subrange(0, results@.len() as int) =~= results@);
                }
                return ;
            }
            let ax = *axis;
            let m: i64 = deltas[ax];
            proof {
                assert(0 <= (m as i128) * (m as i128) <= 0x1_0000_0000_0000_0000_0000i128)
                    by (nonlinear_arith)
                    requires
                        -0x1_0000_0000 <= m <= 0x1_0000_0000,
                ;
            }
            let rho2: i128 = budget + (m as i128) * (m as i128);
            let rho: u64 = crate::math::isqrt_ceil(rho2 as u128);
            proof {
                assert((rho2 as u128) < 0x10_0000_0000_0000_0000_0000_0000u128);
                // any in-range candidate has its axis coordinate within
                // rho of the query point
                assert forall|i: int|
                    lo <= i < hi && pred(ids@[i]) implies abs_int(
                    key_at(posm, ids@, i, ax as int) - vpos@[ax as int],
                ) <= rho by {
                    let u = ids@[i];
                    lemma_dist_dominates(posm[u as int], vpos@, dvals, ax as int, dim);
                    assert(dist_sq_spec(posm[u as int], vpos@) < b0);
                    let diff = posm[u as int][ax as int] - vpos@[ax as int];
                    assert(diff * diff < rho2) by {
                        assert(crate::dvec::sum_sq_diff(posm[u as int], vpos@, dim) >= sum_squares(
                            dvals,
                            dim,
                        ) - dvals[ax as int] * dvals[ax as int] + diff * diff);
                    }
                    assert(abs_int(diff) <= rho) by (nonlinear_arith)
                        requires
                            diff * diff < rho2,
                            rho2 <= (rho as int) * (rho as int),
                            rho >= 0,
                    ;
                }
            }
            let vcoord: i64 = vpos.get(ax) as i64;
            let lo_val: i64 = vcoord - (rho as i64);
            let hi_val: i64 = vcoord + (rho as i64);
            // lookup-table start: the first bucket whose bound may reach
            // the lower bracket
            let start: usize = if lo_val <= (*min as i64) {
                0
            } else {
                let diff: u64 = ((lo_val - (*min as i64)) as u64);
                let b: u64 = diff / *width;
                let bidx: usize = if b >= (LUT_SIZE as u64) {
                    LUT_SIZE - 1
                } else {
                    b as usize
                };
                lut[bidx]
            };
            proof {
                // everything before the start index sits below the
                // bracket, hence cannot match
                let minv = *min as int;
                let wid = *width as int;
                assert forall|j: int| 0 <= j < start implies !pred(#[trigger] ids@[lo + j]) by {
                    let bidx_g: int = if lo_val <= minv {
                        0
                    } else {
                        let b = (((lo_val as int) - minv) as nat) / (wid as nat);
                        if b >= LUT_SIZE {
                            (LUT_SIZE - 1) as int
                        } else {
                            b as int
                        }
                    };
                    assert(d_pos@.map_values(|x: i32| x as int)[lo + j] < minv + bidx_g * wid);
                    assert(minv + bidx_g * wid <= lo_val as int) by {
                        if lo_val > minv {
                            let diff_g = (lo_val as int) - minv;
                            let bb = (diff_g as nat) / (wid as nat);
                            vstd::arithmetic::div_mod::lemma_fundamental_div_mod(diff_g, wid);
                            if bb >= LUT_SIZE {
                                assert(((LUT_SIZE - 1) as int) * wid <= diff_g)
                                    by (nonlinear_arith)
                                    requires
                                        bb >= LUT_SIZE,
                                        wid >= 1,
                                        diff_g == wid * (bb as int) + (diff_g % wid),
                                        0 <= diff_g % wid,
                                        LUT_SIZE == 50,
                                ;
                            } else {
                                assert((bb as int) * wid <= diff_g) by (nonlinear_arith)
                                    requires
                                        diff_g == wid * (bb as int) + (diff_g % wid),
                                        0 <= diff_g % wid,
                                ;
                            }
                        } else {
                            assert(bidx_g * wid == 0) by (nonlinear_arith)
                                requires
                                    bidx_g == 0,
                            ;
                        }
                    }
                    if pred(ids@[lo + j]) {
                        assert(abs_int(key_at(posm, ids@, lo + j, ax as int) - vpos@[ax as int])
                            <= rho);
                        assert(d_pos@.map_values(|x: i32| x as int)[lo + j] == key_at(
                            posm,
                            ids@,
                            lo + j,
                            ax as int,
                        ));
                    }
                }
            }
            let total = ids.len();
            proof {
                assert forall|i: int| lo <= i < hi implies (#[trigger] d_pos@[i]) as int == key_at(
                    posm,
                    ids@,
                    i,
                    ax as int,
                ) by {
                    assert(d_pos@.map_values(|x: i32| x as int)[i] == key_at(
                        posm,
                        ids@,
                        i,
                        ax as int,
                    ));
                }
            }
            let mut j: usize = start;
            let ghost startg = start as int;
            proof {
                assert(start <= *len) by {
                    if lo_val > (*min as i64) {
                    }
                }
                let done = ids@.subrange(lo, lo + startg);
                assert forall|i: int| 0 <= i < done.len() implies !pred(#[trigger] done[i]) by {
                    assert(done[i] == ids@[lo + i]);
                }
                done.lemma_all_neg_filter_empty(pred);
                assert(done.filter(pred) =~= Seq::<NodeId>::empty());
                assert(results@.subrange(old(results)@.len() as int, results@.len() as int)
                    =~= Seq::<NodeId>::empty());
                assert(results@.subrange(
                    old(results)@.len() as int,
                    results@.len() as int,
                ).to_multiset() == done.filter(pred).to_multiset());
            }
            while j < *len
                invariant
                    startg <= j <= *len,
                    *offset == lo,
                    lo + *len == hi,
                    0 <= lo <= hi <= ids@.len(),
                    hi <= total,
                    total == ids@.len(),
                    ids@.len() == d_pos@.len(),
                    graph.wf(),
                    positions@.len() == graph.n(),
                    posm == positions@.map_values(|p: DVec| p@),
                    pred == qpred(*graph, posm, v as int, radius),
                    forall|p: int|
                        0 <= p < positions@.len() ==> (#[trigger] positions@[p])@.len() == dim,
                    dim == vpos@.len(),
                    1 <= dim <= MAX_DIM,
                    v < positions@.len(),
                    vpos@ == posm[v as int],
                    vweight == graph.weight_of(v as int),
                    radius.wf(),
                    ax < dim,
                    forall|i: int| 0 <= i < ids@.len() ==> (#[trigger] ids@[i]) < positions@.len(),
                    forall|i: int|
                        lo <= i < hi ==> (#[trigger] d_pos@[i]) as int == key_at(
                            posm,
                            ids@,
                            i,
                            ax as int,
                        ),
                    forall|a: int, b2: int|
                        #![trigger ids@[a], ids@[b2]]
                        lo <= a < b2 < hi ==> key_at(posm, ids@, a, ax as int) <= key_at(
                            posm,
                            ids@,
                            b2,
                            ax as int,
                        ),
                    forall|i: int|
                        lo <= i < hi && pred(ids@[i]) ==> abs_int(
                            key_at(posm, ids@, i, ax as int) - vpos@[ax as int],
                        ) <= rho,
                    hi_val == vpos@[ax as int] + rho,
                    results@.len() >= old(results)@.len(),
                    results@.subrange(0, old(results)@.len() as int) == old(results)@,
                    results@.subrange(
                        old(results)@.len() as int,
                        results@.len() as int,
                    ).to_multiset() == ids@.subrange(lo, lo + j).filter(pred).to_multiset(),
                decreases *len - j,
            {
                let idx = *offset + j;
                proof {
                    assert(idx == lo + j);
                }
                let p = d_pos[idx];
                if (p as i64) > hi_val {
                    // sorted tail: everything from here on exceeds the
                    // bracket, hence cannot match
                    proof {
                        let done = ids@.subrange(lo, lo + j as int);
                        let rest = ids@.subrange(lo + j as int, hi);
                        assert forall|i: int| 0 <= i < rest.len() implies !pred(
                            #[trigger] rest[i],
                        ) by {
                            assert(rest[i] == ids@[lo + j + i]);
                            assert(key_at(posm, ids@, lo + j, ax as int) <= key_at(
                                posm,
                                ids@,
                                lo + j + i,
                                ax as int,
                            ));
                            if pred(ids@[lo + j + i]) {
                                assert(abs_int(
                                    key_at(posm, ids@, lo + j + i, ax as int) - vpos@[ax as int],
                                ) <= rho);
                            }
                        }
                        rest.lemma_all_neg_filter_empty(pred);
                        assert(ids@.subrange(lo, hi) =~= done + rest);
                        Seq::filter_distributes_over_add(done, rest, pred);
                        vstd::seq_lib::lemma_multiset_commutative(
                            done.filter(pred),
                            rest.filter(pred),
                        );
                        assert(done.filter(pred) + rest.filter(pred) =~= done.filter(pred));
                    }
                    return ;
                }
                let u: NodeId = ids[idx];
                let ghost pre = results@;
                let ghost done_pre = ids@.subrange(lo, lo + j as int);
                if u != v {
                    proof {
                        assert(graph.weight_of(u as int) <= WEIGHT_CAP);
                        assert(graph.weight_of(v as int) <= WEIGHT_CAP);
                    }
                    let hit = check_within(
                        &positions[u],
                        vpos,
                        graph.weight(u),
                        vweight,
                        radius,
                    );
                    if hit {
                        results.push(u);
                    }
                }
                proof {
                    let done_now = ids@.subrange(lo, lo + j + 1);
                    assert(done_now =~= done_pre.push(u));
                    done_pre.lemma_filter_push(u, pred);
                    broadcast use vstd::seq_lib::group_to_multiset_ensures;

                    assert(pre.subrange(0, old(results)@.len() as int) == results@.subrange(
                        0,
                        old(results)@.len() as int,
                    ));
                    if u != v && within_weighted_radius(
                        posm[u as int],
                        posm[v as int],
                        graph.weight_of(u as int),
                        graph.weight_of(v as int),
                        radius.num as nat,
                        radius.den as nat,
                    ) {
                        assert(pred(u));
                        assert(results@ == pre.push(u));
                        assert(results@.subrange(
                            old(results)@.len() as int,
                            results@.len() as int,
                        ) =~= pre.subrange(old(results)@.len() as int, pre.len() as int).push(u));
                        assert(done_now.filter(pred) == done_pre.filter(pred).push(u));
                    } else {
                        assert(!pred(u));
                        assert(results@ == pre);
                        assert(done_now.filter(pred) == done_pre.filter(pred));
                    }
                }
                j = j + 1;
            }
            proof {
                assert(ids@.subrange(lo, lo + *len) =~= ids@.subrange(lo, hi));
            }
        },
        KdNode::Internal { axis, split, mid, left, right } => {
            let ax = *axis;
            let vcoord: i32 = vpos.get(ax);
            let ghost mid_g = *mid as int;
            let own_left: bool = vcoord < *split;
            let ghost pre0 = results@;
            if own_left {
                query_rec(
                    left,
                    ids,
                    d_pos,
                    positions,
                    graph,
                    v,
                    vpos,
                    vweight,
                    radius,
                    budget,
                    deltas,
                    results,
                    Ghost(lo),
                    Ghost(mid_g),
                    Ghost(b0),
                );
            } else {
                query_rec(
                    right,
                    ids,
                    d_pos,
                    positions,
                    graph,
                    v,
                    vpos,
                    vweight,
                    radius,
                    budget,
                    deltas,
                    results,
                    Ghost(mid_g),
                    Ghost(hi),
                    Ghost(b0),
                );
            }
            let ghost mid1 = results@;
            // cross the splitting plane: account the new displacement
            // on this axis and recurse into the other half
            let d: i64 = (vcoord as i64) - (*split as i64);
            let m_old: i64 = deltas[ax];
            proof {
                assert(0 <= (d as i128) * (d as i128) <= 0x1_0000_0000_0000_0000_0000i128
                    && 0 <= (m_old as i128) * (m_old as i128)
                    <= 0x1_0000_0000_0000_0000_0000i128) by (nonlinear_arith)
                    requires
                        -0x1_0000_0000 <= d <= 0x1_0000_0000,
                        -0x1_0000_0000 <= m_old <= 0x1_0000_0000,
                ;
            }
            let reduced: i128 = budget - ((d as i128) * (d as i128) - (m_old as i128) * (
            m_old as i128));
            let mut deltas2: Vec<i64> = Vec::new();
            let mut k: usize = 0;
            while k < deltas.len()
                invariant
                    k <= deltas@.len(),
                    deltas2@.len() == k,
                    ax < deltas@.len(),
                    forall|i: int|
                        0 <= i < k && i != ax ==> #[trigger] deltas2@[i] == deltas@[i],
                    forall|i: int| 0 <= i < k && i == ax ==> #[trigger] deltas2@[i] == d,
                decreases deltas@.len() - k,
            {
                if k == ax {
                    deltas2.push(d);
                } else {
                    deltas2.push(deltas[k]);
                }
                k = k + 1;
            }
            let ghost dvals2 = deltas2@.map_values(|x: i64| x as int);
            proof {
                assert(dvals2 =~= dvals.update(ax as int, d as int));
                lemma_sum_squares_update(dvals, ax as int, d as int, dim);
                // the other half is separated from the query point by
                // at least |d| on this axis
                if own_left {
                    assert forall|i: int, k2: int|
                        #![trigger ids@[i], deltas2@[k2]]
                        mid_g <= i < hi && 0 <= k2 < deltas2@.len() implies abs_int(
                        posm[ids@[i] as int][k2] - vpos@[k2],
                    ) >= abs_int(deltas2@[k2] as int) by {
                        if k2 == ax {
                            assert(key_at(posm, ids@, i, ax as int) >= *split);
                        } else {
                            assert(deltas2@[k2] == deltas@[k2]);
                            assert(abs_int(posm[ids@[i] as int][k2] - vpos@[k2]) >= abs_int(
                                deltas@[k2] as int,
                            ));
                        }
                    }
                } else {
                    assert forall|i: int, k2: int|
                        #![trigger ids@[i], deltas2@[k2]]
                        lo <= i < mid_g && 0 <= k2 < deltas2@.len() implies abs_int(
                        posm[ids@[i] as int][k2] - vpos@[k2],
                    ) >= abs_int(deltas2@[k2] as int) by {
                        if k2 == ax {
                            assert(key_at(posm, ids@, i, ax as int) < *split);
                        } else {
                            assert(deltas2@[k2] == deltas@[k2]);
                            assert(abs_int(posm[ids@[i] as int][k2] - vpos@[k2]) >= abs_int(
                                deltas@[k2] as int,
                            ));
                        }
                    }
                }
            }
            if own_left {
                query_rec(
                    right,
                    ids,
                    d_pos,
                    positions,
                    graph,
                    v,
                    vpos,
                    vweight,
                    radius,
                    reduced,
                    &deltas2,
                    results,
                    Ghost(mid_g),
                    Ghost(hi),
                    Ghost(b0),
                );
            } else {
                query_rec(
                    left,
                    ids,
                    d_pos,
                    positions,
                    graph,
                    v,
                    vpos,
                    vweight,
                    radius,
                    reduced,
                    &deltas2,
                    results,
                    Ghost(lo),
                    Ghost(mid_g),
                    Ghost(b0),
                );
            }
            proof {
                broadcast use vstd::seq_lib::group_to_multiset_ensures;

                let app1 = mid1.subrange(pre0.len() as int, mid1.len() as int);
                let app2 = results@.subrange(mid1.len() as int, results@.len() as int);
                let app = results@.subrange(pre0.len() as int, results@.len() as int);
                assert(app =~= app1 + app2) by {
                    assert(mid1.subrange(0, pre0.len() as int) == pre0);
                    assert(results@.subrange(0, mid1.len() as int) == mid1);
                    assert forall|i: int| 0 <= i < app.len() implies app[i] == (app1 + app2)[i]
                        by {
                        if i < app1.len() {
                            assert(results@[pre0.len() + i] == mid1[pre0.len() + i]) by {
                                assert(results@.subrange(0, mid1.len() as int)[pre0.len() + i]
                                    == mid1[pre0.len() + i]);
                            }
                        }
                    }
                }
                vstd::seq_lib::lemma_multiset_commutative(app1, app2);
                let sub_left = ids@.subrange(lo, mid_g);
                let sub_right = ids@.subrange(mid_g, hi);
                assert(ids@.subrange(lo, hi) =~= sub_left + sub_right);
                Seq::filter_distributes_over_add(sub_left, sub_right, pred);
                vstd::seq_lib::lemma_multiset_commutative(
                    sub_left.filter(pred),
                    sub_right.filter(pred),
                );
                assert(results@.subrange(0, old(results)@.len() as int) == old(results)@) by {
                    assert(results@.subrange(0, mid1.len() as int).subrange(
                        0,
                        old(results)@.len() as int,
                    ) == results@.subrange(0, old(results)@.len() as int));
                }
                if own_left {
                    assert(app1.to_multiset() == sub_left.filter(pred).to_multiset());
                    assert(app2.to_multiset() == sub_right.filter(pred).to_multiset());
                } else {
                    assert(app1.to_multiset() == sub_right.filter(pred).to_multiset());
                    assert(app2.to_multiset() == sub_left.filter(pred).to_multiset());
                }
                assert(app.to_multiset() =~= ids@.subrange(lo, hi).filter(pred).to_multiset());
            }
        },
    }
}

/// Updating one entry of a squared sum swaps that entry's square.
proof fn lemma_sum_squares_update(s: Seq<int>, ax: int, val: int, n: nat)
    requires
        0 <= ax < n <= s.len(),
    ensures
        sum_squares(s.update(ax, val), n) == sum_squares(s, n) - s[ax] * s[ax] + val * val,
    decreases n,
{
    let s2 = s.update(ax, val);
    if ax == n - 1 {
        lemma_sum_squares_same(s, s2, (n - 1) as nat);
    } else {
        lemma_sum_squares_update(s, ax, val, (n - 1) as nat);
    }
}

proof fn lemma_sum_squares_same(s1: Seq<int>, s2: Seq<int>, n: nat)
    requires
        n <= s1.len(),
        n <= s2.len(),
        forall|i: int| 0 <= i < n ==> s1[i] == s2[i],
    ensures
        sum_squares(s1, n) == sum_squares(s2, n),
    decreases n,
{
    if n > 0 {
        lemma_sum_squares_same(s1, s2, (n - 1) as nat);
    }
}

/// The identity id sequence of length `n`.
pub open spec fn identity_ids(n: nat) -> Seq<NodeId> {
    Seq::new(n, |i: int| i as NodeId)
}

/// The accelerated index: a graph, the position array, and the tree
/// over a permutation of the vertex ids.
pub struct ATree {
    pub positions: Vec<DVec>,
    pub graph: Graph,
    pub dim: usize,
    pub node_ids: Vec<NodeId>,
    pub d_pos: Vec<i32>,
    root: Box<KdNode>,
    max_weight: u64,
}

impl ATree {
    /// The model of the position array.
    pub closed spec fn positions_view(&self) -> Seq<Seq<int>> {
        self.positions@.map_values(|p: DVec| p@)
    }

    /// Well-formedness: the graph is sound, the ids are a permutation
    /// of `[0, n)`, the tree covers the whole range, and `max_weight`
    /// bounds every node weight.
    pub closed spec fn wf(&self) -> bool {
        &&& self.graph.wf()
        &&& self.positions@.len() == self.graph.n()
        &&& 1 <= self.dim <= MAX_DIM
        &&& forall|i: int|
            0 <= i < self.positions@.len() ==> (#[trigger] self.positions@[i])@.len() == self.dim
        &&& self.node_ids@.len() == self.positions@.len()
        &&& self.d_pos@.len() == self.positions@.len()
        &&& self.node_ids@.to_multiset() == identity_ids(self.positions@.len()).to_multiset()
        &&& forall|i: int|
            0 <= i < self.node_ids@.len() ==> (#[trigger] self.node_ids@[i])
                < self.positions@.len()
        &&& tree_wf(
            *self.root,
            0,
            self.positions@.len() as int,
            self.node_ids@,
            self.d_pos@.map_values(|x: i32| x as int),
            self.positions_view(),
            self.dim as nat,
        )
        &&& forall|v: int|
            0 <= v < self.graph.n() ==> #[trigger] self.graph.weight_of(v) <= self.max_weight
        &&& 1 <= self.max_weight <= WEIGHT_CAP
    }
}

/// Rebuild the permutation, coordinates and tree over `positions`.
fn build_tree(positions: &Vec<DVec>, dim: usize) -> (r: (Vec<NodeId>, Vec<i32>, KdNode))
    requires
        1 <= dim <= MAX_DIM,
        forall|i: int| 0 <= i < positions@.len() ==> (#[trigger] positions@[i])@.len() == dim,
    ensures
        r.0@.len() == positions@.len(),
        r.1@.len() == positions@.len(),
        r.0@.to_multiset() == identity_ids(positions@.len() as nat).to_multiset(),
        forall|i: int| 0 <= i < r.0@.len() ==> (#[trigger] r.0@[i]) < positions@.len(),
        tree_wf(
            r.2,
            0,
            positions@.len() as int,
            r.0@,
            r.1@.map_values(|x: i32| x as int),
            positions@.map_values(|p: DVec| p@),
            dim as nat,
        ),
{
    let n = positions.len();
    let mut ids: Vec<NodeId> = Vec::new();
    let mut d_pos: Vec<i32> = Vec::new();
    let mut i: usize = 0;
    while i < n
        invariant
            i <= n,
            ids@.len() == i,
            d_pos@.len() == i,
            forall|j: int| 0 <= j < i ==> (#[trigger] ids@[j]) == j as NodeId,
        decreases n - i,
    {
        ids.push(i);
        d_pos.push(0);
        i = i + 1;
    }
    proof {
        assert(ids@ =~= identity_ids(n as nat));
    }
    let root = build_node(&mut ids, &mut d_pos, positions, 0, n, 0, dim);
    (ids, d_pos, root)
}

impl SpatialIndex for ATree {
    fn new_index(embedding: &crate::embedding::Embedding) -> (r: Self) {
        let positions = copy_positions(&embedding.positions);
        let graph = embedding.graph.duplicate();
        let n = graph.num_nodes();
        let mut max_weight: u64 = 1;
        let mut v: usize = 0;
        while v < n
            invariant
                v <= n,
                n == graph.n(),
                graph.wf(),
                1 <= max_weight <= WEIGHT_CAP,
                forall|a: int| 0 <= a < v ==> #[trigger] graph.weight_of(a) <= max_weight,
            decreases n - v,
        {
            let w = graph.weight(v);
            if w > max_weight {
                max_weight = w;
            }
            v = v + 1;
        }
        proof {
            assert(positions@.map_values(|p: DVec| p@) =~= embedding.positions_view());
        }
        let (node_ids, d_pos, root) = build_tree(&positions, embedding.dim);
        let r = ATree {
            positions,
            graph,
            dim: embedding.dim,
            node_ids,
            d_pos,
            root: Box::new(root),
            max_weight,
        };
        proof {
            assert(r.pos() =~= embedding.positions_view());
        }
        r
    }

    closed spec fn inv(&self) -> bool {
        self.wf()
    }

    closed spec fn g(&self) -> Graph {
        self.graph
    }

    closed spec fn pos(&self) -> Seq<Seq<int>> {
        self.positions_view()
    }

    closed spec fn dim(&self) -> nat {
        self.dim as nat
    }

    /// The tree answers symmetrically: every in-radius pair, both ways.
    open spec fn policy(&self, v: int, u: int) -> bool {
        true
    }

    open spec fn radius_ok(&self, radius: RadiusSq) -> bool {
        true
    }

    proof fn lemma_wf(&self) {
    }

    proof fn lemma_policy_total(&self, v: int, u: int) {
    }

    fn num_nodes(&self) -> (n: usize) {
        self.positions.len()
    }

    fn dims(&self) -> (d: usize) {
        self.dim
    }

    fn position(&self, index: NodeId) -> (p: &DVec) {
        &self.positions[index]
    }

    fn is_connected(&self, first: NodeId, second: NodeId) -> (b: bool) {
        self.graph.is_connected(first, second)
    }

    fn neighbors(&self, index: NodeId) -> (r: &Vec<NodeId>) {
        self.graph.neighbors(index)
    }

    fn weight(&self, index: NodeId) -> (w: u64) {
        self.graph.weight(index)
    }

    fn update_positions(&mut self, positions: &Vec<DVec>, moved: Option<u64>) {
        self.positions = copy_positions(positions);
        let (node_ids, d_pos, root) = build_tree(&self.positions, self.dim);
        self.node_ids = node_ids;
        self.d_pos = d_pos;
        self.root = Box::new(root);
        proof {
            assert forall|i: int| 0 <= i < positions@.len() implies self.pos()[i] == (
            #[trigger] positions@[i])@ by {
                assert(self.positions@[i]@ == positions@[i]@);
            }
        }
    }

    fn nearest_neighbors(&self, index: NodeId, radius: RadiusSq, results: &mut Vec<NodeId>) {
        let ghost posm = self.positions_view();
        let ghost pred = qpred(self.graph, posm, index as int, radius);
        let ghost old_len = results@.len() as int;
        let n = self.positions.len();
        let dim = self.dim;
        let vpos = &self.positions[index];
        let vweight = self.graph.weight(index);
        // a budget that dominates the pairwise thresholds of every
        // possible partner, capped just above the largest possible
        // squared distance
        proof {
            assert((vweight as int) * (self.max_weight as int) <= 0x200_0000int * 0x200_0000int)
                by (nonlinear_arith)
                requires
                    vweight <= 0x200_0000,
                    self.max_weight <= 0x200_0000,
            ;
        }
        let t: u128 = (vweight as u128) * (self.max_weight as u128);
        proof {
            assert((t as int) * (t as int) <= (0x200_0000int * 0x200_0000int) * (0x200_0000int
                * 0x200_0000int)) by (nonlinear_arith)
                requires
                    0 <= t <= 0x200_0000int * 0x200_0000int,
            ;
            assert((t as int) * (t as int) * (radius.num as int) <= ((0x200_0000int
                * 0x200_0000int) * (0x200_0000int * 0x200_0000int)) * 0x10_0000int)
                by (nonlinear_arith)
                requires
                    0 <= (t as int) * (t as int) <= (0x200_0000int * 0x200_0000int) * (
                    0x200_0000int * 0x200_0000int),
                    radius.num <= 0x10_0000,
            ;
        }
        let t2: u128 = t * t;
        let num128: u128 = t2 * (radius.num as u128);
        let raw: u128 = (num128 + (radius.den as u128) - 1) / (radius.den as u128);
        let b0x: u128 = if raw > 0x8_0000_0000_0000_0000_0000u128 {
            0x8_0000_0000_0000_0000_0000u128
        } else {
            raw
        };
        proof {
            // the cap still dominates every true threshold, because no
            // squared distance can reach it
            vstd::arithmetic::div_mod::lemma_fundamental_div_mod(
                (num128 + radius.den - 1) as int,
                radius.den as int,
            );
            assert((raw as int) * (radius.den as int) >= num128) by (nonlinear_arith)
                requires
                    (num128 + radius.den - 1) as int == (radius.den as int) * (raw as int) + ((
                    num128 + radius.den - 1) as int % (radius.den as int)),
                    0 <= (num128 + radius.den - 1) as int % (radius.den as int) < radius.den,
                    radius.den >= 1,
            ;
            assert forall|u: NodeId|
                #![trigger self.positions@[u as int]]
                u < self.positions@.len() && qpred(self.graph, posm, index as int, radius)(
                    u,
                ) implies dist_sq_spec(posm[u as int], vpos@) < b0x by {
                let wu = self.graph.weight_of(u as int);
                let wv = self.graph.weight_of(index as int);
                assert(dist_sq_spec(posm[u as int], posm[index as int]) * (radius.den as int) < (wu
                    * wv) * (wu * wv) * (radius.num as int));
                assert((wu * wv) * (wu * wv) * (radius.num as int) <= (t2 as int) * (
                radius.num as int)) by (nonlinear_arith)
                    requires
                        0 <= wu <= self.max_weight,
                        wv == vweight,
                        0 <= wv,
                        t == wv * self.max_weight,
                        t2 == (t as int) * (t as int),
                        0 <= radius.num,
                ;
                assert(dist_sq_spec(posm[u as int], posm[index as int]) < raw) by (nonlinear_arith)
                    requires
                        dist_sq_spec(posm[u as int], posm[index as int]) * (radius.den as int) < (
                        t2 as int) * (radius.num as int),
                        (t2 as int) * (radius.num as int) == num128,
                        (raw as int) * (radius.den as int) >= num128,
                        radius.den >= 1,
                ;
                self.positions@[u as int].lemma_in_range();
                self.positions@[index as int].lemma_in_range();
                lemma_sum_sq_diff_bound(posm[u as int], posm[index as int], dim as nat);
                assert((dim as int) * 0xffff_ffff_ffff_ffffu64 <= 1024 * 0xffff_ffff_ffff_ffffu64)
                    by (nonlinear_arith)
                    requires
                        dim <= 1024,
                ;
            }
        }
        let mut deltas: Vec<i64> = Vec::new();
        let mut k: usize = 0;
        while k < dim
            invariant
                k <= dim,
                deltas@.len() == k,
                forall|j: int| 0 <= j < k ==> (#[trigger] deltas@[j]) == 0i64,
            decreases dim - k,
        {
            deltas.push(0);
            k = k + 1;
        }
        proof {
            assert(sum_squares(deltas@.map_values(|x: i64| x as int), dim as nat) == 0) by {
                lemma_sum_squares_zero(deltas@.map_values(|x: i64| x as int), dim as nat);
            }
        }
        query_rec(
            &self.root,
            &self.node_ids,
            &self.d_pos,
            &self.positions,
            &self.graph,
            index,
            vpos,
            vweight,
            radius,
            b0x as i128,
            &deltas,
            results,
            Ghost(0int),
            Ghost(n as int),
            Ghost(b0x as int),
        );
        proof {
            broadcast use vstd::seq_lib::group_to_multiset_ensures;

            let app = results@.subrange(old_len, results@.len() as int);
            let whole = self.node_ids@.subrange(0, n as int);
            assert(whole =~= self.node_ids@);
            let fil = self.node_ids@.filter(pred);
            assert(app.to_multiset() == fil.to_multiset());
            // identity ids are duplicate-free, so the permutation and
            // its filtered image are too
            assert(identity_ids(n as nat).no_duplicates());
            identity_ids(n as nat).lemma_multiset_has_no_duplicates();
            self.node_ids@.lemma_multiset_has_no_duplicates_conv();
            assert(self.node_ids@.no_duplicates());
            lemma_filter_no_dup(self.node_ids@, pred);
            fil.lemma_multiset_has_no_duplicates();
            app.lemma_multiset_has_no_duplicates_conv();
            assert(app.no_duplicates());
            assert forall|k1: int, k2: int|
                old_len <= k1 < k2 < results@.len() implies results@[k1] != results@[k2] by {
                assert(app[k1 - old_len] != app[k2 - old_len]);
            }
            // soundness: whatever was appended satisfies the predicate
            assert forall|kk: int|
                old_len <= kk < results@.len() implies ((#[trigger] results@[kk])
                < self.pos().len() && results@[kk] != index && within_weighted_radius(
                self.pos()[results@[kk] as int],
                self.pos()[index as int],
                self.g().weight_of(results@[kk] as int),
                self.g().weight_of(index as int),
                radius.num as nat,
                radius.den as nat,
            )) by {
                let x = results@[kk];
                assert(app[kk - old_len] == x);
                assert(app.contains(x));
                assert(app.to_multiset().count(x) > 0);
                assert(fil.contains(x));
                self.node_ids@.lemma_filter_contains_rev(pred, x);
                let jj = choose|jj: int|
                    0 <= jj < self.node_ids@.len() && #[trigger] self.node_ids@[jj] == x;
                assert(x < self.positions@.len());
                let ii = choose|ii: int| 0 <= ii < fil.len() && fil[ii] == x;
                self.node_ids@.lemma_filter_pred(pred, ii);
                assert(pred(x));
            }
            // completeness: every in-range other vertex was appended
            assert forall|u: NodeId|
                u < self.pos().len() && u != index && within_weighted_radius(
                    self.pos()[u as int],
                    self.pos()[index as int],
                    self.g().weight_of(u as int),
                    self.g().weight_of(index as int),
                    radius.num as nat,
                    radius.den as nat,
                ) implies final(results)@.subrange(
                old_len,
                final(results)@.len() as int,
            ).contains(u) by {
                assert(pred(u));
                assert(identity_ids(n as nat)[u as int] == u);
                assert(identity_ids(n as nat).contains(u));
                assert(self.node_ids@.to_multiset().count(u) > 0);
                assert(self.node_ids@.contains(u));
                let jj = choose|jj: int|
                    0 <= jj < self.node_ids@.len() && #[trigger] self.node_ids@[jj] == u;
                self.node_ids@.lemma_filter_contains(pred, jj);
                assert(fil.contains(u));
                assert(app.to_multiset().count(u) > 0);
                assert(app.contains(u));
            }
        }
    }
}

proof fn lemma_sum_squares_zero(s: Seq<int>, n: nat)
    requires
        forall|i: int| 0 <= i < n ==> #[trigger] s[i] == 0,
    ensures
        sum_squares(s, n) == 0,
    decreases n,
{
    if n > 0 {
        lemma_sum_squares_zero(s, (n - 1) as nat);
    }
}

} // verus!
