//! The iteration engine: attraction and repulsion forces, the Adam
//! optimizer, and the per-iteration orchestrator that drives a spatial
//! index, accumulates forces, applies the optimizer and tests
//! convergence. All arithmetic is exact fixed-point arithmetic, so the
//! optimizer's contract pins every updated value, and the convergence
//! metric is an exact rational.

use vstd::prelude::*;
use crate::NodeId;
use crate::dvec::{DVec, POS_SCALE, copy_positions, dist_sq_spec, norm_sq_spec};
use crate::graph::{Graph, WEIGHT_CAP};
use crate::math::{
    Ratio, abs_int, clamp32, clamp32_spec, div_trunc, div_trunc_spec, isqrt_ceil, sqrt_floor,
    sqrt_spec,
};
use crate::query::{MAX_DIM, RadiusSq, SpatialIndex, nearest_neighbors_batched, unit_neighbor};
use crate::rng::rng_range;

verus! {

/// Fixed-point scale of the optimizer's dimensionless quantities.
pub const FIX: u64 = 1000000;

/// Magnitude bound on force components handed to the optimizer.
pub const FORCE_CAP: i64 = 0x4000_0000;

/// Magnitude bound on the optimizer's second-moment entries.
pub const MOMENT_CAP: i64 = 0x1000_0000_0000_0000;

/// Magnitude of a jitter component: a hundredth of a geometric unit.
pub const JITTER_CAP: i32 = 655;

/// Configuration of the embedder. Real-valued settings are exact
/// rationals on the `FIX` scale of the optimizer.
#[derive(Clone, Copy, Debug)]
pub struct EmbedderOptions {
    /// Adam step size, in geometric units.
    pub learning_rate: Ratio,
    /// Multiplicative decay of the step size per iteration.
    pub cooling_factor: Ratio,
    /// Iteration cap of `embed`.
    pub max_iterations: usize,
    /// Convergence threshold on the displacement ratio.
    pub min_position_change: Ratio,
    /// Multiplier on attraction magnitudes.
    pub attraction_scale: Ratio,
    /// Multiplier on repulsion magnitudes.
    pub repulsion_scale: Ratio,
}

impl EmbedderOptions {
    /// All ratios sound, and cooling never amplifies.
    pub open spec fn wf(&self) -> bool {
        &&& self.learning_rate.wf()
        &&& self.cooling_factor.wf()
        &&& self.min_position_change.wf()
        &&& self.attraction_scale.wf()
        &&& self.repulsion_scale.wf()
        &&& self.cooling_factor.num <= self.cooling_factor.den
        &&& self.max_iterations <= 0x1000_0000
    }
}

impl Default for EmbedderOptions {
    /// The documented defaults: step size 10, cooling 0.99, at most
    /// 1000 iterations, threshold 1e-8, both force scales 1.
    fn default() -> (r: Self)
        ensures
            r.wf(),
            r.learning_rate == (Ratio { num: 10, den: 1 }),
            r.cooling_factor == (Ratio { num: 99, den: 100 }),
            r.max_iterations == 1000,
            r.min_position_change == (Ratio { num: 1, den: 0x5F5_E100 }),
            r.attraction_scale == (Ratio { num: 1, den: 1 }),
            r.repulsion_scale == (Ratio { num: 1, den: 1 }),
    {
        EmbedderOptions {
            learning_rate: Ratio { num: 10, den: 1 },
            cooling_factor: Ratio { num: 99, den: 100 },
            max_iterations: 1000,
            // 1e8 as the denominator of the 1e-8 threshold
            min_position_change: Ratio { num: 1, den: 0x5F5_E100 },
            attraction_scale: Ratio { num: 1, den: 1 },
            repulsion_scale: Ratio { num: 1, den: 1 },
        }
    }
}

/// The attraction force `u` exerts on `v` when their positions differ:
/// zero once the weighted distance is within one, and otherwise
/// `scale / (dist * w_u * w_v)` along the direction from `v` to `u`.
pub open spec fn attraction_force_spec(
    pv: Seq<int>,
    pu: Seq<int>,
    wv: nat,
    wu: nat,
    scale: Ratio,
) -> Seq<int> {
    let d2 = dist_sq_spec(pu, pv);
    let w = wv * wu;
    Seq::new(
        pv.len(),
        |i: int|
            if d2 <= w * w {
                0
            } else {
                div_trunc_spec(
                    (pu[i] - pv[i]) * (scale.num as int) * (POS_SCALE as int) * (POS_SCALE as int),
                    (scale.den as int) * (sqrt_spec(d2 as nat) as int) * (w as int),
                )
            },
    )
}

/// The repulsion force `u` exerts on `v` when their positions differ:
/// zero once the weighted distance reaches one, and otherwise
/// `scale / (dist * w_u * w_v)` along the direction from `u` to `v`.
pub open spec fn repulsion_force_spec(
    pv: Seq<int>,
    pu: Seq<int>,
    wv: nat,
    wu: nat,
    scale: Ratio,
) -> Seq<int> {
    let d2 = dist_sq_spec(pu, pv);
    let w = wv * wu;
    Seq::new(
        pv.len(),
        |i: int|
            if d2 >= w * w {
                0
            } else {
                div_trunc_spec(
                    (pv[i] - pu[i]) * (scale.num as int) * (POS_SCALE as int) * (POS_SCALE as int),
                    (scale.den as int) * (sqrt_spec(d2 as nat) as int) * (w as int),
                )
            },
    )
}

/// The repulsive force `v` exerts on `u` is the exact negation of the
/// force `u` exerts on `v`, whenever the two positions differ.
pub proof fn lemma_repulsion_antisymmetric(
    pv: Seq<int>,
    pu: Seq<int>,
    wv: nat,
    wu: nat,
    scale: Ratio,
)
    requires
        pv.len() == pu.len(),
        pv != pu,
        scale.wf(),
    ensures
        repulsion_force_spec(pv, pu, wv, wu, scale) == repulsion_force_spec(pu, pv, wu, wv, scale)
            .map_values(|x: int| -x),
{
    let a = repulsion_force_spec(pv, pu, wv, wu, scale);
    let b = repulsion_force_spec(pu, pv, wu, wv, scale).map_values(|x: int| -x);
    crate::dvec::lemma_sum_sq_diff_sym(pu, pv, pu.len());
    assert(dist_sq_spec(pu, pv) == dist_sq_spec(pv, pu));
    assert(wv * wu == wu * wv) by (nonlinear_arith);
    assert forall|i: int| 0 <= i < a.len() implies a[i] == b[i] by {
        let d2 = dist_sq_spec(pu, pv);
        let w = wv * wu;
        if d2 >= w * w {
        } else {
            let num_a = (pv[i] - pu[i]) * (scale.num as int) * (POS_SCALE as int) * (
            POS_SCALE as int);
            let num_b = (pu[i] - pv[i]) * (scale.num as int) * (POS_SCALE as int) * (
            POS_SCALE as int);
            let den = (scale.den as int) * (sqrt_spec(d2 as nat) as int) * (w as int);
            assert(num_a == -num_b) by (nonlinear_arith)
                requires
                    num_a == (pv[i] - pu[i]) * (scale.num as int) * (POS_SCALE as int) * (
                    POS_SCALE as int),
                    num_b == (pu[i] - pv[i]) * (scale.num as int) * (POS_SCALE as int) * (
                    POS_SCALE as int),
            ;
            assert(den >= 1) by {
                crate::dvec::lemma_dist_sq_pos(pu, pv);
                assert(d2 > 0);
                assert(w >= 1) by (nonlinear_arith)
                    requires
                        w * w > d2,
                        d2 >= 0,
                ;
                lemma_sqrt_pos(d2 as nat, w);
                assert((scale.den as int) * (sqrt_spec(d2 as nat) as int) * (w as int) >= 1)
                    by (nonlinear_arith)
                    requires
                        scale.den >= 1,
                        sqrt_spec(d2 as nat) >= 1,
                        w >= 1,
                ;
            }
            crate::math::lemma_div_trunc_odd(num_b, den);
        }
    }
    assert(a =~= b);
}

/// A positive squared distance has a positive floor root.
proof fn lemma_sqrt_pos(d2: nat, w: nat)
    requires
        0 < d2,
    ensures
        sqrt_spec(d2) >= 1,
{
    crate::math::lemma_sqrt_spec_bounds(d2);
    let r = sqrt_spec(d2);
    assert(d2 < (r + 1) * (r + 1));
    if r == 0 {
        assert((r + 1) * (r + 1) == 1) by (nonlinear_arith)
            requires
                r == 0,
        ;
        assert(false);
    }
}

/// One force evaluation shared by attraction and repulsion: the scaled
/// direction over `dist * w`, truncated toward zero, or a fresh jitter
/// vector when the two positions coincide.
#[allow(unused_variables)]
fn force_kernel(
    pv: &DVec,
    pu: &DVec,
    wv: u64,
    wu: u64,
    scale: Ratio,
    attract: bool,
    rng: &mut rand::rngs::SmallRng,
) -> (f: Vec<i64>)
    requires
        pv@.len() == pu@.len() <= MAX_DIM,
        1 <= wv <= WEIGHT_CAP,
        1 <= wu <= WEIGHT_CAP,
        scale.wf(),
    ensures
        f@.len() == pv@.len(),
        pv@ != pu@ && attract ==> f@.map_values(|x: i64| x as int) == attraction_force_spec(
            pv@,
            pu@,
            wv as nat,
            wu as nat,
            scale,
        ),
        pv@ != pu@ && !attract ==> f@.map_values(|x: i64| x as int) == repulsion_force_spec(
            pv@,
            pu@,
            wv as nat,
            wu as nat,
            scale,
        ),
        pv@ == pu@ ==> forall|i: int|
            0 <= i < f@.len() ==> -(JITTER_CAP as int) <= #[trigger] f@[i] <= JITTER_CAP as int,
        forall|i: int|
            0 <= i < f@.len() ==> abs_int(#[trigger] f@[i] as int) <= 0x2000_0000_0000_0000i64,
{
    let dim = pv.dim();
    let d2: u128 = pu.distance_squared(pv);
    proof {
        pu.lemma_in_range();
        pv.lemma_in_range();
        crate::dvec::lemma_sum_sq_diff_bound(pu@, pv@, pu@.len());
        assert((pu@.len() as int) * 0xffff_ffff_ffff_ffffu64 <= 1024 * 0xffff_ffff_ffff_ffffu64)
            by (nonlinear_arith)
            requires
                pu@.len() <= 1024,
        ;
    }
    if d2 == 0 {
        proof {
            crate::dvec::lemma_sum_sq_diff_zero(pu@, pv@, pu@.len());
            assert(pv@ =~= pu@);
        }
        let mut f: Vec<i64> = Vec::new();
        let mut i: usize = 0;
        while i < dim
            invariant
                i <= dim,
                f@.len() == i,
                forall|j: int|
                    0 <= j < i ==> -(JITTER_CAP as int) <= #[trigger] f@[j] <= JITTER_CAP as int,
            decreases dim - i,
        {
            let jit = rng_range(rng, -JITTER_CAP, JITTER_CAP + 1);
            f.push(jit as i64);
            i = i + 1;
        }
        return f;
    }
    proof {
        if pv@ == pu@ {
            assert(dist_sq_spec(pu@, pv@) == 0) by {
                crate::dvec::lemma_sum_sq_diff_sym(pu@, pv@, pu@.len());
                lemma_self_dist_zero(pu@);
            }
        }
    }
    proof {
        assert(1 <= (wv as int) * (wu as int) <= 0x200_0000int * 0x200_0000int)
            by (nonlinear_arith)
            requires
                1 <= wv <= 0x200_0000,
                1 <= wu <= 0x200_0000,
        ;
    }
    let w: u64 = wv * wu;
    proof {
        assert((w as int) * (w as int) <= (0x200_0000int * 0x200_0000int) * (0x200_0000int
            * 0x200_0000int)) by (nonlinear_arith)
            requires
                0 <= w <= 0x200_0000int * 0x200_0000int,
        ;
    }
    let wsq: u128 = (w as u128) * (w as u128);
    let inactive = if attract {
        d2 <= wsq
    } else {
        d2 >= wsq
    };
    if inactive {
        let mut f: Vec<i64> = Vec::new();
        let mut i: usize = 0;
        while i < dim
            invariant
                i <= dim,
                f@.len() == i,
                forall|j: int| 0 <= j < i ==> #[trigger] f@[j] == 0i64,
            decreases dim - i,
        {
            f.push(0);
            i = i + 1;
        }
        proof {
            let spec_f = if attract {
                attraction_force_spec(pv@, pu@, wv as nat, wu as nat, scale)
            } else {
                repulsion_force_spec(pv@, pu@, wv as nat, wu as nat, scale)
            };
            assert(f@.map_values(|x: i64| x as int) =~= spec_f);
        }
        return f;
    }
    let s: u64 = sqrt_floor(d2);
    proof {
        assert(s >= 1) by {
            if s == 0 {
                assert(d2 < (s + 1) * (s + 1));
            }
        }
        // the root is far smaller than its generic cap: the squared
        // distance itself is at most `1024 * 2^64`
        assert(s <= 0x20_0000_0000u64) by (nonlinear_arith)
            requires
                (s as int) * (s as int) <= d2,
                d2 <= 1024 * 0xffff_ffff_ffff_ffffu64,
        ;
    }
    let mut f: Vec<i64> = Vec::new();
    let mut i: usize = 0;
    while i < dim
        invariant
            i <= dim,
            dim == pv@.len() == pu@.len(),
            f@.len() == i,
            1 <= wv <= WEIGHT_CAP,
            1 <= wu <= WEIGHT_CAP,
            w == wv * wu,
            1 <= w <= 0x4_0000_0000_0000u64,
            scale.wf(),
            1 <= s <= 0x20_0000_0000u64,
            s as nat == sqrt_spec(dist_sq_spec(pu@, pv@) as nat),
            d2 as int == dist_sq_spec(pu@, pv@),
            d2 > 0,
            (attract && d2 > wsq) || (!attract && d2 < wsq),
            wsq == (w as int) * (w as int),
            forall|j: int|
                0 <= j < i ==> #[trigger] f@[j] as int == (if attract {
                    attraction_force_spec(pv@, pu@, wv as nat, wu as nat, scale)[j]
                } else {
                    repulsion_force_spec(pv@, pu@, wv as nat, wu as nat, scale)[j]
                }),
            forall|j: int|
                0 <= j < i ==> abs_int(#[trigger] f@[j] as int) <= 0x2000_0000_0000_0000i64,
        decreases dim - i,
    {
        let dir: i64 = if attract {
            (pu.get(i) as i64) - (pv.get(i) as i64)
        } else {
            (pv.get(i) as i64) - (pu.get(i) as i64)
        };
        proof {
            // the per-axis offset never exceeds the floor root of the
            // full squared distance
            crate::math::lemma_sqrt_spec_bounds(d2 as nat);
            let da = pu@[i as int] - pv@[i as int];
            crate::dvec::lemma_axis_lower_bound(pu@, pv@, pu@.len(), i as nat);
            assert(abs_int(dir as int) <= s) by (nonlinear_arith)
                requires
                    da * da <= d2,
                    d2 < ((s + 1) as int) * ((s + 1) as int),
                    dir == da || dir == -da,
                    s >= 0,
            ;
            assert(abs_int((dir as int) * (scale.num as int)) <= 0x4_0000_0000_0000i64
                * 0x1000_0000i64 && abs_int((dir as int) * (scale.num as int) * (POS_SCALE as int))
                <= (0x4_0000_0000_0000i64 * 0x1000_0000i64) * 65536int && abs_int(
                (dir as int) * (scale.num as int) * (POS_SCALE as int) * (POS_SCALE as int),
            ) <= ((0x4_0000_0000_0000i64 * 0x1000_0000i64) * 65536int) * 65536int)
                by (nonlinear_arith)
                requires
                    abs_int(dir as int) <= 0x4_0000_0000_0000i64,
                    1 <= scale.num <= 0x1000_0000,
                    POS_SCALE == 65536,
            ;
        }
        let num: i128 = (dir as i128) * (scale.num as i128) * (POS_SCALE as i128) * (
        POS_SCALE as i128);
        proof {
            assert((scale.den as int) * (s as int) <= 0x1000_0000i64 * 0x20_0000_0000i64 && 1
                <= (scale.den as int) * (s as int) * (w as int) <= (0x1000_0000i64
                * 0x20_0000_0000i64) * 0x4_0000_0000_0000i64) by (nonlinear_arith)
                requires
                    1 <= scale.den <= 0x1000_0000,
                    1 <= s <= 0x20_0000_0000u64,
                    1 <= w <= 0x4_0000_0000_0000i64,
            ;
        }
        let den: i128 = (scale.den as i128) * (s as i128) * (w as i128);
        proof {
            // |num| <= den * (scale.num * POS_SCALE * POS_SCALE)
            assert(abs_int(num as int) <= (den as int) * (0x1000_0000i64 * (65536int * 65536int)))
                by (nonlinear_arith)
                requires
                    num == (dir as int) * (scale.num as int) * (POS_SCALE as int) * (
                    POS_SCALE as int),
                    den == (scale.den as int) * (s as int) * (w as int),
                    abs_int(dir as int) <= s,
                    1 <= scale.num <= 0x1000_0000,
                    1 <= scale.den,
                    1 <= w,
                    1 <= s,
                    POS_SCALE == 65536,
            ;
            crate::math::lemma_div_trunc_le(
                num as int,
                den as int,
                0x1000_0000i64 * (65536int * 65536int),
            );
        }
        let q: i128 = div_trunc(num, den);
        f.push(q as i64);
        i = i + 1;
    }
    proof {
        let spec_f = if attract {
            attraction_force_spec(pv@, pu@, wv as nat, wu as nat, scale)
        } else {
            repulsion_force_spec(pv@, pu@, wv as nat, wu as nat, scale)
        };
        assert(f@.map_values(|x: i64| x as int) =~= spec_f);
    }
    f
}

/// The distance from a point to itself is zero.
proof fn lemma_self_dist_zero(a: Seq<int>)
    ensures
        dist_sq_spec(a, a) == 0,
{
    lemma_self_dist_zero_rec(a, a.len());
}

proof fn lemma_self_dist_zero_rec(a: Seq<int>, n: nat)
    ensures
        crate::dvec::sum_sq_diff(a, a, n) == 0,
    decreases n,
{
    if n > 0 {
        lemma_self_dist_zero_rec(a, (n - 1) as nat);
    }
}

/// The attraction force a neighbor exerts: the exact formula when the
/// positions differ, a bounded jitter vector when they coincide.
pub fn attraction_force(
    pv: &DVec,
    pu: &DVec,
    wv: u64,
    wu: u64,
    scale: Ratio,
    rng: &mut rand::rngs::SmallRng,
) -> (f: Vec<i64>)
    requires
        pv@.len() == pu@.len() <= MAX_DIM,
        1 <= wv <= WEIGHT_CAP,
        1 <= wu <= WEIGHT_CAP,
        scale.wf(),
    ensures
        f@.len() == pv@.len(),
        pv@ != pu@ ==> f@.map_values(|x: i64| x as int) == attraction_force_spec(
            pv@,
            pu@,
            wv as nat,
            wu as nat,
            scale,
        ),
        pv@ == pu@ ==> forall|i: int|
            0 <= i < f@.len() ==> -(JITTER_CAP as int) <= #[trigger] f@[i] <= JITTER_CAP as int,
        forall|i: int|
            0 <= i < f@.len() ==> abs_int(#[trigger] f@[i] as int) <= 0x2000_0000_0000_0000i64,
{
    force_kernel(pv, pu, wv, wu, scale, true, rng)
}

/// The repulsion force a close non-neighbor exerts: the exact formula
/// when the positions differ, a bounded jitter vector when they
/// coincide.
pub fn repulsion_force(
    pv: &DVec,
    pu: &DVec,
    wv: u64,
    wu: u64,
    scale: Ratio,
    rng: &mut rand::rngs::SmallRng,
) -> (f: Vec<i64>)
    requires
        pv@.len() == pu@.len() <= MAX_DIM,
        1 <= wv <= WEIGHT_CAP,
        1 <= wu <= WEIGHT_CAP,
        scale.wf(),
    ensures
        f@.len() == pv@.len(),
        pv@ != pu@ ==> f@.map_values(|x: i64| x as int) == repulsion_force_spec(
            pv@,
            pu@,
            wv as nat,
            wu as nat,
            scale,
        ),
        pv@ == pu@ ==> forall|i: int|
            0 <= i < f@.len() ==> -(JITTER_CAP as int) <= #[trigger] f@[i] <= JITTER_CAP as int,
        forall|i: int|
            0 <= i < f@.len() ==> abs_int(#[trigger] f@[i] as int) <= 0x2000_0000_0000_0000i64,
{
    force_kernel(pv, pu, wv, wu, scale, false, rng)
}

/// A table of `num` zero rows of width `dim`.
fn zero_rows(num: usize, dim: usize) -> (r: Vec<Vec<i64>>)
    ensures
        r@.len() == num,
        forall|a: int| 0 <= a < num ==> (#[trigger] r@[a])@.len() == dim,
        forall|a: int, i: int| 0 <= a < num && 0 <= i < dim ==> (#[trigger] r@[a]@[i]) == 0i64,
{
    let mut r: Vec<Vec<i64>> = Vec::new();
    let mut w: usize = 0;
    while w < num
        invariant
            w <= num,
            r@.len() == w,
            forall|a: int| 0 <= a < w ==> (#[trigger] r@[a])@.len() == dim,
            forall|a: int, i: int| 0 <= a < w && 0 <= i < dim ==> (#[trigger] r@[a]@[i]) == 0i64,
        decreases num - w,
    {
        let mut row: Vec<i64> = Vec::new();
        let mut i: usize = 0;
        while i < dim
            invariant
                i <= dim,
                row@.len() == i,
                forall|j: int| 0 <= j < i ==> (#[trigger] row@[j]) == 0i64,
            decreases dim - i,
        {
            row.push(0);
            i = i + 1;
        }
        r.push(row);
        w = w + 1;
    }
    r
}

/// First-moment recurrence: `m <- 0.9 m + 0.1 g`, on tenths.
pub open spec fn adam_m_next(m: int, g: int) -> int {
    div_trunc_spec(9 * m + g, 10)
}

/// Second-moment recurrence: `v <- 0.999 v + 0.001 g^2`, on thousandths.
pub open spec fn adam_v_next(v: int, g: int) -> int {
    (999 * v + g * g) / 1000
}

/// The position step for one coordinate: bias-correct both moments by
/// the decayed factors `b1`, `b2` (on the `FIX` scale), cool the
/// learning rate by `ct / FIX`, and divide the corrected first moment
/// by the root of the corrected second moment plus one minimal unit.
pub open spec fn adam_delta(m1: int, v1: int, b1: int, b2: int, ct: int, lr: Ratio) -> int
    recommends
        b1 < FIX,
        b2 < FIX,
        v1 >= 0,
        lr.wf(),
{
    let mh = div_trunc_spec(m1 * (FIX as int), (FIX as int) - b1);
    let vh = (v1 * (FIX as int)) / ((FIX as int) - b2);
    div_trunc_spec(
        mh * (lr.num as int) * ct * (POS_SCALE as int),
        ((sqrt_spec(vh as nat) as int) + 1) * (FIX as int) * (lr.den as int),
    )
}

/// Adam optimizer state: per-coordinate moment estimates, the timestep,
/// and the running decayed factors `0.9^t`, `0.999^t` and `cool^t` on
/// the `FIX` scale.
#[derive(Debug)]
pub struct AdamOptimizer {
    m: Vec<Vec<i64>>,
    v: Vec<Vec<i64>>,
    t: u64,
    b1t: u64,
    b2t: u64,
    coolt: u64,
    learning_rate: Ratio,
    cooling_factor: Ratio,
}

impl AdamOptimizer {
    /// Number of nodes covered.
    pub closed spec fn n(&self) -> nat {
        self.m@.len()
    }

    /// The first-moment table.
    pub closed spec fn m_model(&self) -> Seq<Seq<int>> {
        self.m@.map_values(|r: Vec<i64>| r@.map_values(|x: i64| x as int))
    }

    /// The second-moment table.
    pub closed spec fn v_model(&self) -> Seq<Seq<int>> {
        self.v@.map_values(|r: Vec<i64>| r@.map_values(|x: i64| x as int))
    }

    /// The timestep.
    pub closed spec fn t_model(&self) -> nat {
        self.t as nat
    }

    /// The decayed factors.
    pub closed spec fn factors(&self) -> (int, int, int) {
        (self.b1t as int, self.b2t as int, self.coolt as int)
    }

    /// The configured rates.
    pub closed spec fn rates(&self) -> (Ratio, Ratio) {
        (self.learning_rate, self.cooling_factor)
    }

    /// Well-formedness for `n` nodes in `dim` dimensions.
    pub closed spec fn wf(&self, dim: nat) -> bool {
        &&& self.m@.len() == self.v@.len()
        &&& forall|w: int| 0 <= w < self.n() ==> (#[trigger] self.m@[w])@.len() == dim
        &&& forall|w: int| 0 <= w < self.n() ==> (#[trigger] self.v@[w])@.len() == dim
        &&& forall|w: int, i: int|
            0 <= w < self.n() && 0 <= i < dim ==> abs_int((#[trigger] self.m@[w]@[i]) as int)
                <= FORCE_CAP
        &&& forall|w: int, i: int|
            0 <= w < self.n() && 0 <= i < dim ==> 0 <= (#[trigger] self.v@[w]@[i]) <= MOMENT_CAP
        &&& self.b1t <= FIX
        &&& self.b2t <= FIX
        &&& self.coolt <= FIX
        &&& self.learning_rate.wf()
        &&& self.cooling_factor.wf()
        &&& self.cooling_factor.num <= self.cooling_factor.den
    }

    /// A fresh optimizer: zero moments, timestep zero, factors one.
    pub fn new(num_nodes: usize, dim: usize, learning_rate: Ratio, cooling_factor: Ratio) -> (r:
        AdamOptimizer)
        requires
            learning_rate.wf(),
            cooling_factor.wf(),
            cooling_factor.num <= cooling_factor.den,
        ensures
            r.wf(dim as nat),
            r.n() == num_nodes,
            r.t_model() == 0,
            r.factors() == (FIX as int, FIX as int, FIX as int),
            r.rates() == (learning_rate, cooling_factor),
            forall|w: int, i: int|
                0 <= w < num_nodes && 0 <= i < dim ==> #[trigger] r.m_model()[w][i] == 0,
            forall|w: int, i: int|
                0 <= w < num_nodes && 0 <= i < dim ==> #[trigger] r.v_model()[w][i] == 0,
    {
        let m = zero_rows(num_nodes, dim);
        let v = zero_rows(num_nodes, dim);
        AdamOptimizer {
            m,
            v,
            t: 0,
            b1t: FIX,
            b2t: FIX,
            coolt: FIX,
            learning_rate,
            cooling_factor,
        }
    }

    /// Zero both moment tables and the timestep.
    pub fn reset(&mut self)
        requires
            old(self).wf(old(self).dim_of()),
        ensures
            final(self).wf(old(self).dim_of()),
            final(self).n() == old(self).n(),
            final(self).t_model() == 0,
            final(self).factors() == (FIX as int, FIX as int, FIX as int),
            final(self).rates() == old(self).rates(),
            forall|w: int, i: int|
                0 <= w < final(self).n() && 0 <= i < old(self).dim_of()
                    ==> #[trigger] final(self).m_model()[w][i] == 0 && final(self).v_model()[w][i]
                    == 0,
    {
        let n = self.m.len();
        let dim = if n == 0 {
            0
        } else {
            self.m[0].len()
        };
        self.m = zero_rows(n, dim);
        self.v = zero_rows(n, dim);
        self.t = 0;
        self.b1t = FIX;
        self.b2t = FIX;
        self.coolt = FIX;
    }

    /// The dimension the tables were allocated with (the row width of
    /// node zero, or zero when there are no nodes).
    pub closed spec fn dim_of(&self) -> nat {
        if self.n() == 0 {
            0
        } else {
            self.m@[0]@.len()
        }
    }
}

impl AdamOptimizer {
    /// One optimizer step: advance the timestep, decay the factors,
    /// update both moments per coordinate and move every position by
    /// the bias-corrected step, saturating at the coordinate range.
    /// Every output is pinned exactly, so the update is a function of
    /// the previous state and the forces alone.
    pub fn update(&mut self, positions: &mut Vec<DVec>, forces: &Vec<Vec<i64>>)
        requires
            old(self).wf(old(self).dim_of()),
            old(self).t_model() < 0x1000_0000,
            old(positions)@.len() == old(self).n(),
            forces@.len() == old(self).n(),
            forall|w: int|
                0 <= w < old(self).n() ==> (#[trigger] old(positions)@[w])@.len() == old(
                    self,
                ).dim_of(),
            forall|w: int|
                0 <= w < old(self).n() ==> (#[trigger] forces@[w])@.len() == old(self).dim_of(),
            forall|w: int, i: int|
                0 <= w < old(self).n() && 0 <= i < old(self).dim_of() ==> abs_int(
                    (#[trigger] forces@[w]@[i]) as int,
                ) <= FORCE_CAP,
        ensures
            final(self).wf(old(self).dim_of()),
            final(self).n() == old(self).n(),
            final(self).dim_of() == old(self).dim_of(),
            final(self).rates() == old(self).rates(),
            final(self).t_model() == old(self).t_model() + 1,
            final(self).factors().0 == (old(self).factors().0 * 9) / 10,
            final(self).factors().1 == (old(self).factors().1 * 999) / 1000,
            final(self).factors().2 == (old(self).factors().2 * old(self).rates().1.num as int)
                / (old(self).rates().1.den as int),
            forall|w: int, i: int|
                0 <= w < old(self).n() && 0 <= i < old(self).dim_of()
                    ==> #[trigger] final(self).m_model()[w][i] == adam_m_next(
                    old(self).m_model()[w][i],
                    forces@[w]@[i] as int,
                ),
            forall|w: int, i: int|
                0 <= w < old(self).n() && 0 <= i < old(self).dim_of()
                    ==> #[trigger] final(self).v_model()[w][i] == adam_v_next(
                    old(self).v_model()[w][i],
                    forces@[w]@[i] as int,
                ),
            final(positions)@.len() == old(positions)@.len(),
            forall|w: int|
                0 <= w < old(self).n() ==> (#[trigger] final(positions)@[w])@.len() == old(
                    self,
                ).dim_of(),
            forall|w: int, i: int|
                0 <= w < old(self).n() && 0 <= i < old(self).dim_of()
                    ==> #[trigger] final(positions)@[w]@[i] == clamp32_spec(
                    old(positions)@[w]@[i] + adam_delta(
                        final(self).m_model()[w][i],
                        final(self).v_model()[w][i],
                        final(self).factors().0,
                        final(self).factors().1,
                        final(self).factors().2,
                        old(self).rates().0,
                    ),
                ),
    {
        let ghost dim = old(self).dim_of();
        self.t = self.t + 1;
        self.b1t = self.b1t * 9 / 10;
        self.b2t = self.b2t * 999 / 1000;
        proof {
            vstd::arithmetic::div_mod::lemma_div_is_ordered(
                old(self).b1t * 9,
                9 * (FIX as int),
                10,
            );
            assert((9 * (FIX as int)) / 10 == 900000);
            vstd::arithmetic::div_mod::lemma_div_is_ordered(
                old(self).b2t * 999,
                999 * (FIX as int),
                1000,
            );
            assert((999 * (FIX as int)) / 1000 == 999000);
        }
        let cnum = self.cooling_factor.num;
        let cden = self.cooling_factor.den;
        let ghost ct_old = self.coolt as int;
        proof {
            assert(0 <= ct_old * cnum <= 1000000int * 0x1000_0000int) by (nonlinear_arith)
                requires
                    0 <= ct_old <= FIX,
                    1 <= cnum <= 0x1000_0000,
                    FIX == 1000000,
            ;
        }
        self.coolt = self.coolt * cnum / cden;
        proof {
            assert(ct_old * cnum <= (FIX as int) * cden) by (nonlinear_arith)
                requires
                    0 <= ct_old <= FIX,
                    1 <= cnum <= cden,
            ;
            vstd::arithmetic::div_mod::lemma_div_is_ordered(
                ct_old * cnum,
                (FIX as int) * cden,
                cden as int,
            );
            vstd::arithmetic::div_mod::lemma_div_multiples_vanish(FIX as int, cden as int);
            assert(((FIX as int) * cden) / (cden as int) == FIX) by {
                assert((FIX as int) * cden == (cden as int) * (FIX as int)) by (nonlinear_arith);
            }
        }
        let b1n = self.b1t;
        let b2n = self.b2t;
        let ctn = self.coolt;
        let lr = self.learning_rate;
        let n = self.m.len();
        let mut w: usize = 0;
        while w < n
            invariant
                w <= n,
                n == old(self).n(),
                self.m@.len() == n,
                self.v@.len() == n,
                positions@.len() == n,
                forces@.len() == n,
                b1n == self.b1t,
                b2n == self.b2t,
                ctn == self.coolt,
                lr == self.learning_rate,
                self.learning_rate == old(self).learning_rate,
                self.cooling_factor == old(self).cooling_factor,
                self.t == old(self).t + 1,
                b1n <= 900000,
                b2n <= 999000,
                ctn <= FIX,
                lr.wf(),
                forall|a: int|
                    0 <= a < n ==> (#[trigger] forces@[a])@.len() == dim,
                forall|a: int, i: int|
                    0 <= a < n && 0 <= i < dim ==> abs_int((#[trigger] forces@[a]@[i]) as int)
                        <= FORCE_CAP,
                forall|a: int|
                    w <= a < n ==> (#[trigger] self.m@[a])@ == old(self).m@[a]@,
                forall|a: int|
                    w <= a < n ==> (#[trigger] self.v@[a])@ == old(self).v@[a]@,
                forall|a: int|
                    w <= a < n ==> (#[trigger] positions@[a]) == old(positions)@[a],
                forall|a: int|
                    0 <= a < n ==> (#[trigger] old(self).m@[a])@.len() == dim,
                forall|a: int|
                    0 <= a < n ==> (#[trigger] old(self).v@[a])@.len() == dim,
                forall|a: int|
                    0 <= a < n ==> (#[trigger] old(positions)@[a])@.len() == dim,
                forall|a: int, i: int|
                    0 <= a < n && 0 <= i < dim ==> abs_int(
                        (#[trigger] old(self).m@[a]@[i]) as int,
                    ) <= FORCE_CAP,
                forall|a: int, i: int|
                    0 <= a < n && 0 <= i < dim ==> 0 <= (#[trigger] old(self).v@[a]@[i])
                        <= MOMENT_CAP,
                forall|a: int|
                    0 <= a < w ==> (#[trigger] self.m@[a])@.len() == dim,
                forall|a: int|
                    0 <= a < w ==> (#[trigger] self.v@[a])@.len() == dim,
                forall|a: int|
                    0 <= a < w ==> (#[trigger] positions@[a])@.len() == dim,
                forall|a: int, i: int|
                    0 <= a < w && 0 <= i < dim ==> abs_int((#[trigger] self.m@[a]@[i]) as int)
                        <= FORCE_CAP,
                forall|a: int, i: int|
                    0 <= a < w && 0 <= i < dim ==> 0 <= (#[trigger] self.v@[a]@[i]) <= MOMENT_CAP,
                forall|a: int, i: int|
                    0 <= a < w && 0 <= i < dim ==> (#[trigger] self.m@[a]@[i]) as int
                        == adam_m_next(old(self).m@[a]@[i] as int, forces@[a]@[i] as int),
                forall|a: int, i: int|
                    0 <= a < w && 0 <= i < dim ==> (#[trigger] self.v@[a]@[i]) as int
                        == adam_v_next(old(self).v@[a]@[i] as int, forces@[a]@[i] as int),
                forall|a: int, i: int|
                    0 <= a < w && 0 <= i < dim ==> (#[trigger] positions@[a]@[i]) == clamp32_spec(
                        old(positions)@[a]@[i] + adam_delta(
                            self.m@[a]@[i] as int,
                            self.v@[a]@[i] as int,
                            b1n as int,
                            b2n as int,
                            ctn as int,
                            lr,
                        ),
                    ),
            decreases n - w,
        {
            let dimw = self.m[w].len();
            let mut mrow: Vec<i64> = Vec::new();
            let mut vrow: Vec<i64> = Vec::new();
            let mut prow: Vec<i32> = Vec::new();
            let mut i: usize = 0;
            while i < dimw
                invariant
                    i <= dimw,
                    w < n,
                    dimw == dim,
                    n == self.m@.len() == self.v@.len() == positions@.len() == forces@.len(),
                    self.m@[w as int]@ == old(self).m@[w as int]@,
                    self.v@[w as int]@ == old(self).v@[w as int]@,
                    positions@[w as int] == old(positions)@[w as int],
                    old(self).m@[w as int]@.len() == dim,
                    old(self).v@[w as int]@.len() == dim,
                    old(positions)@[w as int]@.len() == dim,
                    forces@[w as int]@.len() == dim,
                    forall|i2: int|
                        0 <= i2 < dim ==> abs_int((#[trigger] forces@[w as int]@[i2]) as int)
                            <= FORCE_CAP,
                    forall|i2: int|
                        0 <= i2 < dim ==> abs_int((#[trigger] old(self).m@[w as int]@[i2]) as int)
                            <= FORCE_CAP,
                    forall|i2: int|
                        0 <= i2 < dim ==> 0 <= (#[trigger] old(self).v@[w as int]@[i2])
                            <= MOMENT_CAP,
                    b1n <= 900000,
                    b2n <= 999000,
                    ctn <= FIX,
                    lr.wf(),
                    mrow@.len() == i,
                    vrow@.len() == i,
                    prow@.len() == i,
                    forall|j: int|
                        0 <= j < i ==> abs_int((#[trigger] mrow@[j]) as int) <= FORCE_CAP,
                    forall|j: int| 0 <= j < i ==> 0 <= (#[trigger] vrow@[j]) <= MOMENT_CAP,
                    forall|j: int|
                        0 <= j < i ==> (#[trigger] mrow@[j]) as int == adam_m_next(
                            old(self).m@[w as int]@[j] as int,
                            forces@[w as int]@[j] as int,
                        ),
                    forall|j: int|
                        0 <= j < i ==> (#[trigger] vrow@[j]) as int == adam_v_next(
                            old(self).v@[w as int]@[j] as int,
                            forces@[w as int]@[j] as int,
                        ),
                    forall|j: int|
                        0 <= j < i ==> (#[trigger] prow@[j]) as int == clamp32_spec(
                            old(positions)@[w as int]@[j] + adam_delta(
                                mrow@[j] as int,
                                vrow@[j] as int,
                                b1n as int,
                                b2n as int,
                                ctn as int,
                                lr,
                            ),
                        ),
                decreases dimw - i,
            {
                let g: i64 = forces[w][i];
                let m0: i64 = self.m[w][i];
                let v0: i64 = self.v[w][i];
                proof {
                    crate::math::lemma_div_trunc_le(
                        9 * (m0 as int) + (g as int),
                        10,
                        FORCE_CAP as int,
                    );
                }
                let m1: i64 = div_trunc(9 * (m0 as i128) + (g as i128), 10) as i64;
                proof {
                    assert(0 <= (g as int) * (g as int) <= (FORCE_CAP as int) * (FORCE_CAP as int))
                        by (nonlinear_arith)
                        requires
                            abs_int(g as int) <= FORCE_CAP,
                    ;
                    assert((FORCE_CAP as int) * (FORCE_CAP as int) == MOMENT_CAP as int);
                    crate::math::lemma_div_trunc_le(
                        999 * (v0 as int) + (g as int) * (g as int),
                        1000,
                        MOMENT_CAP as int,
                    );
                    vstd::arithmetic::div_mod::lemma_div_pos_is_pos(
                        999 * (v0 as int) + (g as int) * (g as int),
                        1000,
                    );
                }
                let v1: i64 = div_trunc(999 * (v0 as i128) + (g as i128) * (g as i128), 1000)
                    as i64;
                let denom1: i128 = (FIX as i128) - (b1n as i128);
                let denom2: i128 = (FIX as i128) - (b2n as i128);
                proof {
                    // |m1 * FIX| <= denom1 * (10 * |m1|)
                    assert(abs_int((m1 as int) * (FIX as int)) <= (denom1 as int) * (10 * (
                    FORCE_CAP as int))) by (nonlinear_arith)
                        requires
                            abs_int(m1 as int) <= FORCE_CAP,
                            denom1 >= 100000,
                            FIX == 1000000,
                    ;
                    crate::math::lemma_div_trunc_le(
                        (m1 as int) * (FIX as int),
                        denom1 as int,
                        10 * (FORCE_CAP as int),
                    );
                }
                let mh: i128 = div_trunc((m1 as i128) * (FIX as i128), denom1);
                proof {
                    assert(0 <= (v1 as int) * (FIX as int) <= (denom2 as int) * (1000 * (
                    MOMENT_CAP as int))) by (nonlinear_arith)
                        requires
                            0 <= v1 <= MOMENT_CAP,
                            denom2 >= 1000,
                            FIX == 1000000,
                    ;
                    crate::math::lemma_div_trunc_le(
                        (v1 as int) * (FIX as int),
                        denom2 as int,
                        1000 * (MOMENT_CAP as int),
                    );
                    vstd::arithmetic::div_mod::lemma_div_pos_is_pos(
                        (v1 as int) * (FIX as int),
                        denom2 as int,
                    );
                }
                let vh: i128 = div_trunc((v1 as i128) * (FIX as i128), denom2);
                let sq: u64 = sqrt_floor(vh as u128);
                proof {
                    assert(abs_int((mh as int) * (lr.num as int)) <= (10 * (FORCE_CAP as int))
                        * 0x1000_0000int && abs_int(
                        (mh as int) * (lr.num as int) * (ctn as int),
                    ) <= ((10 * (FORCE_CAP as int)) * 0x1000_0000int) * (FIX as int) && abs_int(
                        (mh as int) * (lr.num as int) * (ctn as int) * (POS_SCALE as int),
                    ) <= (((10 * (FORCE_CAP as int)) * 0x1000_0000int) * (FIX as int)) * 65536int)
                        by (nonlinear_arith)
                        requires
                            abs_int(mh as int) <= 10 * (FORCE_CAP as int),
                            1 <= lr.num <= 0x1000_0000,
                            0 <= ctn <= FIX,
                            FIX == 1000000,
                            POS_SCALE == 65536,
                    ;
                    assert(1 <= ((sq as int) + 1) * (FIX as int) <= (0x4_0000_0000_0001i128) * (
                    FIX as int) && 1 <= ((sq as int) + 1) * (FIX as int) * (lr.den as int) <= ((
                    0x4_0000_0000_0001i128) * (FIX as int)) * 0x1000_0000int) by (nonlinear_arith)
                        requires
                            0 <= sq <= 0x4_0000_0000_0000u64,
                            1 <= lr.den <= 0x1000_0000,
                            FIX == 1000000,
                    ;
                }
                let dnum: i128 = (mh * (lr.num as i128)) * (ctn as i128) * (POS_SCALE as i128);
                let dden: i128 = ((sq as i128) + 1) * (FIX as i128) * (lr.den as i128);
                let delta: i128 = div_trunc(dnum, dden);
                let p0: i32 = positions[w].get(i);
                let p1: i32 = clamp32((p0 as i128) + delta);
                mrow.push(m1);
                vrow.push(v1);
                prow.push(p1);
                proof {
                    assert((sq as int) == sqrt_spec(((v1 as int) * (FIX as int) / (denom2 as int))
                        as nat)) by {
                        vstd::arithmetic::div_mod::lemma_div_pos_is_pos(
                            (v1 as int) * (FIX as int),
                            denom2 as int,
                        );
                    }
                    assert(prow@[i as int] as int == clamp32_spec(
                        old(positions)@[w as int]@[i as int] + adam_delta(
                            mrow@[i as int] as int,
                            vrow@[i as int] as int,
                            b1n as int,
                            b2n as int,
                            ctn as int,
                            lr,
                        ),
                    ));
                }
                i = i + 1;
            }
            self.m[w] = mrow;
            self.v[w] = vrow;
            positions[w] = DVec::new(prow);
            proof {
                assert(positions@[w as int]@ =~= prow@.map_values(|x: i32| x as int));
            }
            w = w + 1;
        }
        proof {
            assert forall|a: int, i: int|
                0 <= a < n && 0 <= i < dim implies #[trigger] final(self).m_model()[a][i]
                == adam_m_next(old(self).m_model()[a][i], forces@[a]@[i] as int) by {
                assert(self.m@[a]@[i] as int == adam_m_next(
                    old(self).m@[a]@[i] as int,
                    forces@[a]@[i] as int,
                ));
            }
            assert forall|a: int, i: int|
                0 <= a < n && 0 <= i < dim implies #[trigger] final(self).v_model()[a][i]
                == adam_v_next(old(self).v_model()[a][i], forces@[a]@[i] as int) by {
                assert(self.v@[a]@[i] as int == adam_v_next(
                    old(self).v@[a]@[i] as int,
                    forces@[a]@[i] as int,
                ));
            }
        }
    }
}

/// Adam is deterministic: the contract of `update` pins every updated
/// moment and position as a function of the previous state and the
/// forces alone, so any two outcomes of the same update coincide.
pub proof fn lemma_adam_deterministic(
    n: nat,
    dim: nat,
    m0: Seq<Seq<int>>,
    v0: Seq<Seq<int>>,
    p0: Seq<Seq<int>>,
    f: Seq<Seq<int>>,
    b1: int,
    b2: int,
    ct: int,
    lr: Ratio,
    m_a: Seq<Seq<int>>,
    v_a: Seq<Seq<int>>,
    p_a: Seq<Seq<int>>,
    m_b: Seq<Seq<int>>,
    v_b: Seq<Seq<int>>,
    p_b: Seq<Seq<int>>,
)
    requires
        m_a.len() == n && v_a.len() == n && p_a.len() == n,
        m_b.len() == n && v_b.len() == n && p_b.len() == n,
        forall|w: int|
            0 <= w < n ==> (#[trigger] m_a[w]).len() == dim && v_a[w].len() == dim && p_a[w].len()
                == dim,
        forall|w: int|
            0 <= w < n ==> (#[trigger] m_b[w]).len() == dim && v_b[w].len() == dim && p_b[w].len()
                == dim,
        forall|w: int, i: int|
            0 <= w < n && 0 <= i < dim ==> #[trigger] m_a[w][i] == adam_m_next(m0[w][i], f[w][i]),
        forall|w: int, i: int|
            0 <= w < n && 0 <= i < dim ==> #[trigger] v_a[w][i] == adam_v_next(v0[w][i], f[w][i]),
        forall|w: int, i: int|
            0 <= w < n && 0 <= i < dim ==> #[trigger] p_a[w][i] == clamp32_spec(
                p0[w][i] + adam_delta(m_a[w][i], v_a[w][i], b1, b2, ct, lr),
            ),
        forall|w: int, i: int|
            0 <= w < n && 0 <= i < dim ==> #[trigger] m_b[w][i] == adam_m_next(m0[w][i], f[w][i]),
        forall|w: int, i: int|
            0 <= w < n && 0 <= i < dim ==> #[trigger] v_b[w][i] == adam_v_next(v0[w][i], f[w][i]),
        forall|w: int, i: int|
            0 <= w < n && 0 <= i < dim ==> #[trigger] p_b[w][i] == clamp32_spec(
                p0[w][i] + adam_delta(m_b[w][i], v_b[w][i], b1, b2, ct, lr),
            ),
    ensures
        m_a == m_b,
        v_a == v_b,
        p_a == p_b,
{
    assert forall|w: int| 0 <= w < n implies #[trigger] m_a[w] == m_b[w] by {
        assert(m_a[w] =~= m_b[w]);
    }
    assert forall|w: int| 0 <= w < n implies #[trigger] v_a[w] == v_b[w] by {
        assert(m_a[w].len() == dim);
        assert(m_b[w].len() == dim);
        assert(v_a[w] =~= v_b[w]);
    }
    assert forall|w: int| 0 <= w < n implies #[trigger] p_a[w] == p_b[w] by {
        assert(m_a[w].len() == dim);
        assert(m_b[w].len() == dim);
        assert forall|i: int| 0 <= i < dim implies #[trigger] p_a[w][i] == p_b[w][i] by {
            assert(m_a[w][i] == m_b[w][i]);
            assert(v_a[w][i] == v_b[w][i]);
        }
        assert(p_a[w] =~= p_b[w]);
    }
    assert(m_a =~= m_b);
    assert(v_a =~= v_b);
    assert(p_a =~= p_b);
}

/// A zero force on a zero moment pair moves nothing: both next moments
/// are zero and the position step vanishes.
pub proof fn lemma_adam_zero_step(b1: int, b2: int, ct: int, lr: Ratio)
    requires
        0 <= b1 < FIX,
        0 <= b2 < FIX,
        lr.wf(),
    ensures
        adam_m_next(0, 0) == 0,
        adam_v_next(0, 0) == 0,
        adam_delta(0, 0, b1, b2, ct, lr) == 0,
{
    assert(9 * 0int + 0int == 0);
    assert(div_trunc_spec(0int, 10) == 0) by {
        vstd::arithmetic::div_mod::lemma_div_of0(10);
    }
    assert(999 * 0int + 0int * 0int == 0);
    assert(div_trunc_spec(0int, 1000) == 0) by {
        vstd::arithmetic::div_mod::lemma_div_of0(1000);
    }
    assert((999 * 0int + 0int * 0int) / 1000 == 0) by {
        vstd::arithmetic::div_mod::lemma_div_of0(1000);
    }
    let mh = div_trunc_spec(0int * (FIX as int), (FIX as int) - b1);
    assert(0int * (FIX as int) == 0);
    assert(mh == 0) by {
        vstd::arithmetic::div_mod::lemma_div_of0((FIX as int) - b1);
    }
    let vh = (0int * (FIX as int)) / ((FIX as int) - b2);
    assert(vh == 0) by {
        vstd::arithmetic::div_mod::lemma_div_of0((FIX as int) - b2);
    }
    assert(mh * (lr.num as int) * ct * (POS_SCALE as int) == 0) by (nonlinear_arith)
        requires
            mh == 0,
    ;
    assert(adam_delta(0, 0, b1, b2, ct, lr) == 0) by {
        let den = ((sqrt_spec(vh as nat) as int) + 1) * (FIX as int) * (lr.den as int);
        let s0 = sqrt_spec(vh as nat) as int;
        assert((s0 + 1) * (FIX as int) * (lr.den as int) >= 1) by (nonlinear_arith)
            requires
                s0 >= 0,
                FIX == 1000000,
                lr.den >= 1,
        ;
        assert(div_trunc_spec(0int, den) == 0) by {
            vstd::arithmetic::div_mod::lemma_div_of0(den);
        }
    }
}

/// Sum of squared displacements of the first `k` nodes.
pub open spec fn sum_dist_sq(a: Seq<Seq<int>>, b: Seq<Seq<int>>, k: nat) -> int
    decreases k,
{
    if k == 0 {
        0
    } else {
        sum_dist_sq(a, b, (k - 1) as nat) + dist_sq_spec(a[k - 1], b[k - 1])
    }
}

/// Sum of squared norms of the first `k` nodes.
pub open spec fn sum_norm_sq(p: Seq<Seq<int>>, k: nat) -> int
    decreases k,
{
    if k == 0 {
        0
    } else {
        sum_norm_sq(p, (k - 1) as nat) + norm_sq_spec(p[k - 1])
    }
}

/// The convergence decision: old positions not all at the origin, and
/// the displacement ratio strictly below the threshold.
pub open spec fn converged_spec(newp: Seq<Seq<int>>, oldp: Seq<Seq<int>>, thr: Ratio) -> bool {
    let sn = sum_norm_sq(oldp, oldp.len());
    let sd = sum_dist_sq(newp, oldp, newp.len());
    sn != 0 && sd * (thr.den as int) < sn * (thr.num as int)
}

/// Scale every coordinate of every position by `c`.
pub open spec fn scale_positions(p: Seq<Seq<int>>, c: int) -> Seq<Seq<int>> {
    p.map_values(|row: Seq<int>| row.map_values(|x: int| c * x))
}

proof fn lemma_sum_sq_diff_scaled(a: Seq<int>, b: Seq<int>, c: int, n: nat)
    requires
        n <= a.len(),
        n <= b.len(),
    ensures
        crate::dvec::sum_sq_diff(
            a.map_values(|x: int| c * x),
            b.map_values(|x: int| c * x),
            n,
        ) == c * c * crate::dvec::sum_sq_diff(a, b, n),
    decreases n,
{
    let sa = a.map_values(|x: int| c * x);
    let sb = b.map_values(|x: int| c * x);
    if n == 0 {
        assert(c * c * 0 == 0) by (nonlinear_arith);
    } else {
        lemma_sum_sq_diff_scaled(a, b, c, (n - 1) as nat);
        let d = a[n - 1] - b[n - 1];
        assert(sa[n - 1] - sb[n - 1] == c * d) by (nonlinear_arith)
            requires
                sa[n - 1] == c * a[n - 1],
                sb[n - 1] == c * b[n - 1],
                d == a[n - 1] - b[n - 1],
        ;
        assert((c * d) * (c * d) == c * c * (d * d)) by (nonlinear_arith);
        assert(c * c * (crate::dvec::sum_sq_diff(a, b, (n - 1) as nat) + d * d) == c * c
            * crate::dvec::sum_sq_diff(a, b, (n - 1) as nat) + c * c * (d * d))
            by (nonlinear_arith);
    }
}

proof fn lemma_sums_scaled(a: Seq<Seq<int>>, b: Seq<Seq<int>>, c: int, k: nat)
    requires
        k <= a.len(),
        k <= b.len(),
        forall|w: int| 0 <= w < k ==> (#[trigger] a[w]).len() == b[w].len(),
    ensures
        sum_dist_sq(scale_positions(a, c), scale_positions(b, c), k) == c * c * sum_dist_sq(
            a,
            b,
            k,
        ),
    decreases k,
{
    let sa = scale_positions(a, c);
    let sb = scale_positions(b, c);
    if k == 0 {
        assert(c * c * 0 == 0) by (nonlinear_arith);
    } else {
        lemma_sums_scaled(a, b, c, (k - 1) as nat);
        assert(sa[k - 1] == a[k - 1].map_values(|x: int| c * x));
        assert(sb[k - 1] == b[k - 1].map_values(|x: int| c * x));
        lemma_sum_sq_diff_scaled(a[k - 1], b[k - 1], c, a[k - 1].len() as nat);
        assert(dist_sq_spec(sa[k - 1], sb[k - 1]) == c * c * dist_sq_spec(a[k - 1], b[k - 1]));
        assert(c * c * (sum_dist_sq(a, b, (k - 1) as nat) + dist_sq_spec(a[k - 1], b[k - 1])) == c
            * c * sum_dist_sq(a, b, (k - 1) as nat) + c * c * dist_sq_spec(a[k - 1], b[k - 1]))
            by (nonlinear_arith);
    }
}

proof fn lemma_norms_scaled(p: Seq<Seq<int>>, c: int, k: nat)
    requires
        k <= p.len(),
    ensures
        sum_norm_sq(scale_positions(p, c), k) == c * c * sum_norm_sq(p, k),
    decreases k,
{
    let sp = scale_positions(p, c);
    if k == 0 {
        assert(c * c * 0 == 0) by (nonlinear_arith);
    } else {
        lemma_norms_scaled(p, c, (k - 1) as nat);
        let row = p[k - 1];
        let srow = sp[k - 1];
        assert(srow == row.map_values(|x: int| c * x));
        let z = Seq::new(row.len(), |i: int| 0);
        let sz = Seq::new(srow.len(), |i: int| 0);
        assert(sz =~= z.map_values(|x: int| c * x)) by {
            assert forall|i: int| 0 <= i < z.len() implies z.map_values(|x: int| c * x)[i]
                == sz[i] by {
                assert(c * 0 == 0) by (nonlinear_arith);
            }
        }
        lemma_sum_sq_diff_scaled(row, z, c, row.len() as nat);
        assert(norm_sq_spec(srow) == c * c * norm_sq_spec(row));
        assert(c * c * (sum_norm_sq(p, (k - 1) as nat) + norm_sq_spec(row)) == c * c * sum_norm_sq(
            p,
            (k - 1) as nat,
        ) + c * c * norm_sq_spec(row)) by (nonlinear_arith);
    }
}

/// The convergence metric is scale-invariant: multiplying every
/// position, current and old, by a constant `c != 0` leaves the
/// decision unchanged.
pub proof fn lemma_convergence_scale_invariant(
    newp: Seq<Seq<int>>,
    oldp: Seq<Seq<int>>,
    c: int,
    thr: Ratio,
)
    requires
        c != 0,
        newp.len() == oldp.len(),
        forall|w: int| 0 <= w < newp.len() ==> (#[trigger] newp[w]).len() == oldp[w].len(),
    ensures
        converged_spec(scale_positions(newp, c), scale_positions(oldp, c), thr) == converged_spec(
            newp,
            oldp,
            thr,
        ),
{
    lemma_sums_scaled(newp, oldp, c, newp.len() as nat);
    lemma_norms_scaled(oldp, c, oldp.len() as nat);
    let sn = sum_norm_sq(oldp, oldp.len());
    let sd = sum_dist_sq(newp, oldp, newp.len());
    assert(c * c > 0) by (nonlinear_arith)
        requires
            c != 0,
    ;
    assert((c * c * sn == 0) == (sn == 0)) by (nonlinear_arith)
        requires
            c * c > 0,
    ;
    assert(((c * c * sd) * (thr.den as int) < (c * c * sn) * (thr.num as int)) == (sd * (
    thr.den as int) < sn * (thr.num as int))) by (nonlinear_arith)
        requires
            c * c > 0,
    ;
}

/// Add a pair force into an accumulator row, saturating at the force
/// cap in both directions.
fn add_force_sat(acc: &mut Vec<i64>, f: &Vec<i64>)
    requires
        old(acc)@.len() == f@.len(),
    ensures
        final(acc)@.len() == old(acc)@.len(),
        forall|i: int|
            0 <= i < old(acc)@.len() ==> #[trigger] final(acc)@[i] as int
                == crate::math::clamp_mag_spec(
                old(acc)@[i] as int + f@[i] as int,
                FORCE_CAP as int,
            ),
{
    let n = acc.len();
    let mut i: usize = 0;
    while i < n
        invariant
            i <= n,
            n == acc@.len() == f@.len(),
            forall|j: int| i <= j < n ==> #[trigger] acc@[j] == old(acc)@[j],
            forall|j: int|
                0 <= j < i ==> #[trigger] acc@[j] as int == crate::math::clamp_mag_spec(
                    old(acc)@[j] as int + f@[j] as int,
                    FORCE_CAP as int,
                ),
        decreases n - i,
    {
        let s: i128 = (acc[i] as i128) + (f[i] as i128);
        let clipped: i64 = if s > (FORCE_CAP as i128) {
            FORCE_CAP
        } else if s < -(FORCE_CAP as i128) {
            -FORCE_CAP
        } else {
            s as i64
        };
        acc[i] = clipped;
        i = i + 1;
    }
}

/// Whether every moment entry of the first `n` nodes is zero.
pub open spec fn moments_zero(o: AdamOptimizer, n: nat, dim: nat) -> bool {
    forall|w: int, i: int|
        0 <= w < n && 0 <= i < dim ==> #[trigger] o.m_model()[w][i] == 0 && o.v_model()[w][i] == 0
}

/// The raw side of the initial placement cube: the fixed-point
/// evaluation of `n^(1/dim)` geometric units (at an internal root
/// precision of 64, saturated beyond sixteen dimensions), kept within
/// the coordinate range.
pub open spec fn cube_side_spec(n: nat, dim: nat) -> int {
    let p = if dim <= 16 {
        vstd::arithmetic::power::pow(64, dim)
    } else {
        0x1_0000_0000_0000_0000_0000_0000int
    };
    let root = crate::math::kth_root_spec((n * p) as nat, dim) as int;
    let side = root * 1024;
    if side < 1 {
        1
    } else if side > 0x4000_0000 {
        0x4000_0000
    } else {
        side
    }
}

/// The weighted embedder: positions, per-node weights, forces, the
/// spatial index, the optimizer, and the iteration bookkeeping.
pub struct WEmbedder<SI: SpatialIndex> {
    positions: Vec<DVec>,
    weights: Vec<u64>,
    forces: Vec<Vec<i64>>,
    old_positions: Vec<DVec>,
    positions_log: Vec<(u64, Vec<DVec>)>,
    pub spatial_index: SI,
    optimizer: AdamOptimizer,
    options: EmbedderOptions,
    iteration: usize,
    last_relative_change: Option<u64>,
    rng: rand::rngs::SmallRng,
    dim: usize,
}

impl<SI: SpatialIndex> WEmbedder<SI> {
    /// Number of embedded vertices.
    pub closed spec fn n(&self) -> nat {
        self.positions@.len()
    }

    /// The embedding dimension.
    pub closed spec fn dim_model(&self) -> nat {
        self.dim as nat
    }

    /// The current positions.
    pub closed spec fn positions_model(&self) -> Seq<Seq<int>> {
        self.positions@.map_values(|p: DVec| p@)
    }

    /// The positions at the start of the current iteration.
    pub closed spec fn old_positions_model(&self) -> Seq<Seq<int>> {
        self.old_positions@.map_values(|p: DVec| p@)
    }

    /// The sampled history: iteration numbers with snapshots.
    pub closed spec fn history_model(&self) -> Seq<(u64, Seq<Seq<int>>)> {
        self.positions_log@.map_values(
            |e: (u64, Vec<DVec>)| (e.0, e.1@.map_values(|p: DVec| p@)),
        )
    }

    /// The iteration counter.
    pub closed spec fn iteration_model(&self) -> nat {
        self.iteration as nat
    }

    /// The configuration.
    pub closed spec fn options_model(&self) -> EmbedderOptions {
        self.options
    }

    /// The optimizer state.
    pub closed spec fn optimizer_model(&self) -> AdamOptimizer {
        self.optimizer
    }

    /// The accumulated force table.
    pub closed spec fn forces_model(&self) -> Seq<Seq<int>> {
        self.forces@.map_values(|r: Vec<i64>| r@.map_values(|x: i64| x as int))
    }

    /// The graph the engine embeds.
    pub closed spec fn g(&self) -> Graph {
        self.spatial_index.g()
    }

    /// The spatial index.
    pub closed spec fn index_model(&self) -> SI {
        self.spatial_index
    }

    /// Structural well-formedness: everything except the link between
    /// the engine's positions and the index's copy.
    pub closed spec fn wf_core(&self) -> bool {
        &&& self.spatial_index.inv()
        &&& 1 <= self.n() <= 0x100_0000
        &&& self.spatial_index.pos().len() == self.n()
        &&& self.weights@.len() == self.n()
        &&& self.forces@.len() == self.n()
        &&& self.old_positions@.len() == self.n()
        &&& 1 <= self.dim <= MAX_DIM
        &&& self.spatial_index.dim() == self.dim_model()
        &&& self.optimizer.wf(self.dim_model())
        &&& self.optimizer.n() == self.n()
        &&& self.optimizer.dim_of() == self.dim_model()
        &&& self.optimizer.rates() == (self.options.learning_rate, self.options.cooling_factor)
        &&& self.optimizer.t_model() <= self.iteration_model()
        &&& self.options.wf()
        &&& self.iteration <= 0x1000_0000
        &&& forall|v: int|
            0 <= v < self.n() ==> (#[trigger] self.positions@[v])@.len() == self.dim_model()
        &&& forall|v: int|
            0 <= v < self.n() ==> (#[trigger] self.old_positions@[v])@.len() == self.dim_model()
        &&& forall|v: int|
            0 <= v < self.n() ==> (#[trigger] self.forces@[v])@.len() == self.dim_model()
        &&& forall|v: int|
            0 <= v < self.n() ==> #[trigger] self.weights@[v] == self.spatial_index.g().weight_of(
                v,
            )
        &&& forall|v: int| 0 <= v < self.n() ==> 1 <= #[trigger] self.weights@[v]
    }

    /// The index holds positions within the promised drift bound of the
    /// engine's: exactly equal right after an update, and within the
    /// last recorded displacement bound otherwise.
    pub closed spec fn drift_ok(&self) -> bool {
        match self.last_relative_change {
            Option::Some(d) => forall|v: int|
                0 <= v < self.n() ==> dist_sq_spec(
                    (#[trigger] self.positions@[v])@,
                    self.spatial_index.pos()[v],
                ) <= (d as int) * (d as int),
            Option::None => forall|v: int|
                0 <= v < self.n() ==> (#[trigger] self.positions@[v])@
                    == self.spatial_index.pos()[v],
        }
    }

    /// Full well-formedness.
    pub closed spec fn wf(&self) -> bool {
        self.wf_core() && self.drift_ok()
    }

    /// Wrap an index into an embedder, copying its positions and
    /// weights. The jitter generator is seeded with zero; use `random`
    /// for a caller-chosen seed.
    pub fn new(spatial_index: SI, options: EmbedderOptions) -> (r: WEmbedder<SI>)
        requires
            spatial_index.inv(),
            options.wf(),
            1 <= spatial_index.pos().len() <= 0x100_0000,
            forall|v: int|
                0 <= v < spatial_index.pos().len() ==> #[trigger] spatial_index.g().weight_of(v)
                    >= 1,
        ensures
            r.wf(),
            r.n() == spatial_index.pos().len(),
            r.dim_model() == spatial_index.dim(),
            r.g() == spatial_index.g(),
            r.iteration_model() == 0,
            r.history_model().len() == 0,
            r.options_model() == options,
            forall|v: int|
                0 <= v < r.n() ==> #[trigger] r.positions_model()[v] == spatial_index.pos()[v],
            moments_zero(r.optimizer_model(), r.n(), r.dim_model()),
            r.optimizer_model().t_model() == 0,
            r.last_delta_model() == Option::<u64>::None,
            forall|v: int, i: int|
                0 <= v < r.n() && 0 <= i < r.dim_model() ==> #[trigger] r.forces_model()[v][i]
                    == 0,
    {
        proof {
            spatial_index.lemma_wf();
        }
        let n = spatial_index.num_nodes();
        let dim = spatial_index.position(0).dim();
        let mut positions: Vec<DVec> = Vec::new();
        let mut weights: Vec<u64> = Vec::new();
        let mut v: usize = 0;
        while v < n
            invariant
                v <= n,
                spatial_index.inv(),
                n == spatial_index.pos().len(),
                dim == spatial_index.dim(),
                positions@.len() == v,
                weights@.len() == v,
                forall|a: int|
                    0 <= a < v ==> (#[trigger] positions@[a])@ == spatial_index.pos()[a],
                forall|a: int|
                    0 <= a < v ==> (#[trigger] positions@[a])@.len() == dim,
                forall|a: int|
                    0 <= a < v ==> #[trigger] weights@[a] == spatial_index.g().weight_of(a),
            decreases n - v,
        {
            proof {
                spatial_index.lemma_wf();
            }
            positions.push(spatial_index.position(v).clone());
            weights.push(spatial_index.weight(v));
            v = v + 1;
        }
        let forces = zero_rows(n, dim);
        let old_positions = copy_positions(&positions);
        let optimizer = AdamOptimizer::new(n, dim, options.learning_rate, options.cooling_factor);
        let rng = crate::rng::rng_from_seed(0);
        let r = WEmbedder {
            positions,
            weights,
            forces,
            old_positions,
            positions_log: Vec::new(),
            spatial_index,
            optimizer,
            options,
            iteration: 0,
            last_relative_change: None,
            rng,
            dim,
        };
        proof {
            r.spatial_index.lemma_wf();
            assert forall|a: int| 0 <= a < r.n() implies #[trigger] r.positions_model()[a]
                == r.spatial_index.pos()[a] by {
                assert(r.positions@[a]@ == r.spatial_index.pos()[a]);
            }
            assert forall|a: int, i: int|
                0 <= a < r.n() && 0 <= i < r.dim_model() implies #[trigger] r.forces_model()[a][i]
                == 0 by {
                assert(r.forces@[a]@[i] == 0i64);
            }
        }
        r
    }

    /// The current positions.
    pub fn positions(&self) -> (r: &Vec<DVec>)
        ensures
            r@.map_values(|p: DVec| p@) == self.positions_model(),
    {
        &self.positions
    }

    /// The sampled history of positions, one entry per ten iterations.
    pub fn history(&self) -> (r: &Vec<(u64, Vec<DVec>)>)
        ensures
            r@.map_values(|e: (u64, Vec<DVec>)| (e.0, e.1@.map_values(|p: DVec| p@)))
                == self.history_model(),
    {
        &self.positions_log
    }

    /// The iteration counter.
    pub fn iteration(&self) -> (r: usize)
        ensures
            r == self.iteration_model(),
    {
        self.iteration
    }

    /// The displacement bound recorded by the last convergence test.
    pub fn last_pos_delta(&self) -> (r: Option<u64>)
        ensures
            r == self.last_delta_model(),
    {
        self.last_relative_change
    }

    /// The recorded displacement bound.
    pub closed spec fn last_delta_model(&self) -> Option<u64> {
        self.last_relative_change
    }
}

impl<SI: SpatialIndex> WEmbedder<SI> {
    /// Decide convergence of the last step and record the displacement
    /// bound for the next index update: true when the summed squared
    /// displacement, relative to the summed squared norms of the old
    /// positions, falls below the configured threshold.
    fn check_convergence(&mut self) -> (r: bool)
        requires
            old(self).wf_core(),
            forall|v: int|
                0 <= v < old(self).n() ==> (#[trigger] old(self).old_positions@[v])@ == old(
                    self,
                ).spatial_index.pos()[v],
        ensures
            final(self).wf(),
            r == converged_spec(
                old(self).positions_model(),
                old(self).old_positions_model(),
                old(self).options_model().min_position_change,
            ),
            final(self).positions_model() == old(self).positions_model(),
            final(self).old_positions_model() == old(self).old_positions_model(),
            final(self).history_model() == old(self).history_model(),
            final(self).iteration_model() == old(self).iteration_model(),
            final(self).options_model() == old(self).options_model(),
            final(self).optimizer_model() == old(self).optimizer_model(),
            final(self).spatial_index == old(self).spatial_index,
            final(self).forces_model() == old(self).forces_model(),
            final(self).n() == old(self).n(),
            final(self).dim_model() == old(self).dim_model(),
    {
        let n = self.positions.len();
        let ghost pm = self.positions_model();
        let ghost om = self.old_positions_model();
        let mut sn: u128 = 0;
        let mut sd: u128 = 0;
        let mut maxsq: u128 = 0;
        let mut v: usize = 0;
        while v < n
            invariant
                v <= n,
                n == self.positions@.len() == self.old_positions@.len(),
                n <= 0x100_0000,
                pm == self.positions_model(),
                om == self.old_positions_model(),
                forall|a: int|
                    0 <= a < n ==> (#[trigger] self.positions@[a])@.len() == self.dim_model(),
                forall|a: int|
                    0 <= a < n ==> (#[trigger] self.old_positions@[a])@.len() == self.dim_model(),
                self.dim_model() <= 1024,
                sn as int == sum_norm_sq(om, v as nat),
                sd as int == sum_dist_sq(pm, om, v as nat),
                sn <= (v as int) * (1024 * 0xffff_ffff_ffff_ffffu64),
                sd <= (v as int) * (1024 * 0xffff_ffff_ffff_ffffu64),
                maxsq <= 1024 * 0xffff_ffff_ffff_ffffu64,
                forall|a: int|
                    0 <= a < v ==> dist_sq_spec(
                        (#[trigger] self.positions@[a])@,
                        self.old_positions@[a]@,
                    ) <= maxsq,
            decreases n - v,
        {
            proof {
                self.positions@[v as int].lemma_in_range();
                self.old_positions@[v as int].lemma_in_range();
                crate::dvec::lemma_sum_sq_diff_bound(
                    self.positions@[v as int]@,
                    self.old_positions@[v as int]@,
                    self.positions@[v as int]@.len(),
                );
                crate::dvec::lemma_sum_sq_diff_bound(
                    self.old_positions@[v as int]@,
                    Seq::new(self.old_positions@[v as int]@.len(), |i: int| 0),
                    self.old_positions@[v as int]@.len(),
                );
                assert((self.positions@[v as int]@.len() as int) * 0xffff_ffff_ffff_ffffu64 <= 1024
                    * 0xffff_ffff_ffff_ffffu64) by (nonlinear_arith)
                    requires
                        self.positions@[v as int]@.len() <= 1024,
                ;
                assert(((v + 1) as int) * (1024 * 0xffff_ffff_ffff_ffffu64) == (v as int) * (1024
                    * 0xffff_ffff_ffff_ffffu64) + 1024 * 0xffff_ffff_ffff_ffffu64)
                    by (nonlinear_arith);
                assert((v as int) * (1024 * 0xffff_ffff_ffff_ffffu64) <= 0x100_0000int * (1024
                    * 0xffff_ffff_ffff_ffffu64)) by (nonlinear_arith)
                    requires
                        0 <= v <= 0x100_0000,
                ;
            }
            let d2 = self.positions[v].distance_squared(&self.old_positions[v]);
            let nrm = self.old_positions[v].magnitude_squared();
            proof {
                assert(pm[v as int] == self.positions@[v as int]@);
                assert(om[v as int] == self.old_positions@[v as int]@);
            }
            sd = sd + d2;
            sn = sn + nrm;
            if d2 > maxsq {
                maxsq = d2;
            }
            v = v + 1;
        }
        let d = isqrt_ceil(maxsq);
        self.last_relative_change = Some(d);
        proof {
            assert forall|a: int|
                0 <= a < self.n() implies dist_sq_spec(
                (#[trigger] self.positions@[a])@,
                self.spatial_index.pos()[a],
            ) <= (d as int) * (d as int) by {
                assert(self.spatial_index.pos()[a] == self.old_positions@[a]@);
                assert(dist_sq_spec(self.positions@[a]@, self.old_positions@[a]@) <= maxsq);
            }
            assert(final(self).wf());
        }
        let thr = self.options.min_position_change;
        proof {
            assert((sd as int) * (thr.den as int) <= (0x100_0000int * (1024
                * 0xffff_ffff_ffff_ffffu64)) * 0x1000_0000int) by (nonlinear_arith)
                requires
                    0 <= sd <= 0x100_0000int * (1024 * 0xffff_ffff_ffff_ffffu64),
                    0 <= thr.den <= 0x1000_0000,
            ;
            assert((sn as int) * (thr.num as int) <= (0x100_0000int * (1024
                * 0xffff_ffff_ffff_ffffu64)) * 0x1000_0000int) by (nonlinear_arith)
                requires
                    0 <= sn <= 0x100_0000int * (1024 * 0xffff_ffff_ffff_ffffu64),
                    0 <= thr.num <= 0x1000_0000,
            ;
        }
        sn != 0 && sd * (thr.den as u128) < sn * (thr.num as u128)
    }
}

impl<SI: SpatialIndex> WEmbedder<SI> {
    /// One iteration: save the old positions (sampling the history
    /// every tenth iteration), push the positions into the index,
    /// accumulate attraction forces from graph neighbors and repulsion
    /// forces from the symmetrized repelling sets, apply the optimizer,
    /// and decide convergence. With a single vertex and zeroed moments
    /// the step provably moves nothing.
    pub fn calculate_step(&mut self) -> (converged: bool)
        requires
            old(self).wf(),
            old(self).iteration_model() < 0x1000_0000,
        ensures
            final(self).wf(),
            final(self).n() == old(self).n(),
            final(self).dim_model() == old(self).dim_model(),
            final(self).options_model() == old(self).options_model(),
            final(self).iteration_model() == old(self).iteration_model() + 1,
            final(self).optimizer_model().t_model() == old(self).optimizer_model().t_model() + 1,
            final(self).optimizer_model().rates() == old(self).optimizer_model().rates(),
            final(self).old_positions_model() == old(self).positions_model(),
            old(self).iteration_model() % 10 == 0 ==> final(self).history_model() == old(
                self,
            ).history_model().push(
                (old(self).iteration_model() as u64, old(self).positions_model()),
            ),
            old(self).iteration_model() % 10 != 0 ==> final(self).history_model() == old(
                self,
            ).history_model(),
            forall|v: int|
                0 <= v < old(self).n() ==> #[trigger] final(self).index_model().pos()[v] == old(
                    self,
                ).positions_model()[v],
            converged == converged_spec(
                final(self).positions_model(),
                old(self).positions_model(),
                old(self).options_model().min_position_change,
            ),
            final(self).g() == old(self).g(),
            exists|reps_all: Seq<Seq<NodeId>>|
                #[trigger] step_outcome_ok(
                    reps_all,
                    final(self).forces_model(),
                    old(self).g(),
                    old(self).positions_model(),
                    old(self).options_model().attraction_scale,
                    old(self).options_model().repulsion_scale,
                    old(self).dim_model(),
                ),
            forall|w: int, i: int|
                0 <= w < old(self).n() && 0 <= i < old(self).dim_model()
                    ==> #[trigger] final(self).optimizer_model().m_model()[w][i] == adam_m_next(
                    old(self).optimizer_model().m_model()[w][i],
                    final(self).forces_model()[w][i],
                ),
            forall|w: int, i: int|
                0 <= w < old(self).n() && 0 <= i < old(self).dim_model()
                    ==> #[trigger] final(self).optimizer_model().v_model()[w][i] == adam_v_next(
                    old(self).optimizer_model().v_model()[w][i],
                    final(self).forces_model()[w][i],
                ),
            final(self).optimizer_model().factors().0 == (old(self).optimizer_model().factors().0
                * 9) / 10,
            final(self).optimizer_model().factors().1 == (old(self).optimizer_model().factors().1
                * 999) / 1000,
            final(self).optimizer_model().factors().2 == (old(self).optimizer_model().factors().2
                * old(self).optimizer_model().rates().1.num as int) / (
            old(self).optimizer_model().rates().1.den as int),
            forall|w: int, i: int|
                0 <= w < old(self).n() && 0 <= i < old(self).dim_model()
                    ==> #[trigger] final(self).positions_model()[w][i] == clamp32_spec(
                    old(self).positions_model()[w][i] + adam_delta(
                        final(self).optimizer_model().m_model()[w][i],
                        final(self).optimizer_model().v_model()[w][i],
                        final(self).optimizer_model().factors().0,
                        final(self).optimizer_model().factors().1,
                        final(self).optimizer_model().factors().2,
                        old(self).optimizer_model().rates().0,
                    ),
                ),
            (old(self).n() == 1 && moments_zero(
                old(self).optimizer_model(),
                1,
                old(self).dim_model(),
            )) ==> final(self).positions_model() == old(self).positions_model(),
    {
        let ghost pre = *self;
        let n = self.positions.len();
        let dim = self.dim;
        // save the old positions; sample the history every tenth pass
        self.old_positions = copy_positions(&self.positions);
        if self.iteration % 10 == 0 {
            let snap = copy_positions(&self.positions);
            self.positions_log.push((self.iteration as u64, snap));
            proof {
                assert(self.history_model() =~= pre.history_model().push(
                    (pre.iteration_model() as u64, pre.positions_model()),
                )) by {
                    assert(snap@.map_values(|p: DVec| p@) =~= pre.positions_model());
                }
            }
        }
        proof {
            assert(self.old_positions_model() =~= pre.positions_model());
        }
        let ghost log_after = self.positions_log@;
        // clear the forces
        self.forces = zero_rows(n, dim);
        // push the positions into the index, with the drift bound
        let moved = self.last_relative_change;
        proof {
            self.spatial_index.lemma_wf();
        }
        self.spatial_index.update_positions(&self.positions, moved);
        proof {
            assert forall|v: int| 0 <= v < n implies #[trigger] self.spatial_index.pos()[v]
                == self.positions@[v]@ by {
                assert(self.spatial_index.pos()[v] == self.positions@[v]@);
            }
            self.spatial_index.lemma_wf();
        }
        let ghost posm = pre.positions_model();
        let ghost g_spec = pre.spatial_index.g();
        let ghost att_sc = pre.options_model().attraction_scale;
        let ghost rep_sc = pre.options_model().repulsion_scale;
        let ghost mut contribs_all: Seq<Seq<Seq<int>>> = Seq::new(
            n as nat,
            |a: int| Seq::<Seq<int>>::empty(),
        );
        proof {
            assert forall|a: int| 0 <= a < n implies self.forces_model()[a] == fold_sat(
                #[trigger] contribs_all[a],
                dim as nat,
            ) by {
                assert(contribs_all[a].len() == 0);
                assert(self.forces_model()[a] =~= fold_sat(contribs_all[a], dim as nat)) by {
                    assert(fold_sat(contribs_all[a], dim as nat) == Seq::new(
                        dim as nat,
                        |i: int| 0int,
                    ));
                    assert forall|i: int| 0 <= i < dim implies self.forces_model()[a][i] == 0 by {
                        assert(self.forces@[a]@[i] == 0i64);
                    }
                }
            }
        }
        // attraction pass
        let mut v: usize = 0;
        while v < n
            invariant
                v <= n,
                n == self.positions@.len(),
                dim == self.dim,
                self.wf_core(),
                self.n() == n,
                self.dim_model() == dim,
                self.weights@ == pre.weights@,
                self.positions_model() == pre.positions_model(),
                self.spatial_index.g() == pre.spatial_index.g(),
                self.iteration_model() == pre.iteration_model(),
                self.options_model() == pre.options_model(),
                self.optimizer_model() == pre.optimizer_model(),
                self.old_positions_model() == pre.positions_model(),
                self.positions_log@ == log_after,
                posm == self.positions_model(),
                g_spec == self.spatial_index.g(),
                att_sc == self.options_model().attraction_scale,
                contribs_all.len() == n,
                forall|a: int|
                    0 <= a < n ==> self.forces_model()[a] == fold_sat(
                        #[trigger] contribs_all[a],
                        dim as nat,
                    ),
                forall|a: int|
                    0 <= a < v ==> (#[trigger] contribs_all[a]).len() == g_spec.neighbors_of(
                        a,
                    ).len(),
                forall|a: int, j2: int|
                    #![trigger contribs_all[a][j2]]
                    0 <= a < v && 0 <= j2 < contribs_all[a].len() ==> pair_force_ok(
                        contribs_all[a][j2],
                        posm[a],
                        posm[g_spec.neighbors_of(a)[j2] as int],
                        g_spec.weight_of(a),
                        g_spec.weight_of(g_spec.neighbors_of(a)[j2] as int),
                        att_sc,
                        true,
                    ),
                forall|a: int| v <= a < n ==> (#[trigger] contribs_all[a]).len() == 0,
                forall|a: int|
                    0 <= a < n ==> #[trigger] self.spatial_index.pos()[a] == self.positions@[a]@,
                n == 1 ==> forall|i: int|
                    0 <= i < dim ==> #[trigger] self.forces@[0]@[i] == 0i64,
                forall|a: int, i: int|
                    0 <= a < n && 0 <= i < dim ==> abs_int((#[trigger] self.forces@[a]@[i]) as int)
                        <= FORCE_CAP,
            decreases n - v,
        {
            proof {
                self.spatial_index.lemma_wf();
            }
            let deg = self.spatial_index.neighbors(v).len();
            let mut j: usize = 0;
            while j < deg
                invariant
                    v < n,
                    j <= deg,
                    n == self.positions@.len(),
                    dim == self.dim,
                    self.wf_core(),
                    self.n() == n,
                    self.dim_model() == dim,
                    self.weights@ == pre.weights@,
                    self.positions_model() == pre.positions_model(),
                    self.spatial_index.g() == pre.spatial_index.g(),
                    self.iteration_model() == pre.iteration_model(),
                    self.options_model() == pre.options_model(),
                    self.optimizer_model() == pre.optimizer_model(),
                    self.old_positions_model() == pre.positions_model(),
                    self.positions_log@ == log_after,
                    posm == self.positions_model(),
                    g_spec == self.spatial_index.g(),
                    att_sc == self.options_model().attraction_scale,
                    deg == self.spatial_index.g().neighbors_of(v as int).len(),
                    contribs_all.len() == n,
                    forall|a: int|
                        0 <= a < n ==> self.forces_model()[a] == fold_sat(
                            #[trigger] contribs_all[a],
                            dim as nat,
                        ),
                    forall|a: int|
                        0 <= a < v ==> (#[trigger] contribs_all[a]).len() == g_spec.neighbors_of(
                            a,
                        ).len(),
                    contribs_all[v as int].len() == j,
                    forall|a: int, j2: int|
                        #![trigger contribs_all[a][j2]]
                        0 <= a <= v && 0 <= j2 < contribs_all[a].len() ==> pair_force_ok(
                            contribs_all[a][j2],
                            posm[a],
                            posm[g_spec.neighbors_of(a)[j2] as int],
                            g_spec.weight_of(a),
                            g_spec.weight_of(g_spec.neighbors_of(a)[j2] as int),
                            att_sc,
                            true,
                        ),
                    forall|a: int| v < a < n ==> (#[trigger] contribs_all[a]).len() == 0,
                    forall|a: int|
                        0 <= a < n ==> #[trigger] self.spatial_index.pos()[a] == self.positions@[
                        a]@,
                    n == 1 ==> forall|i: int|
                        0 <= i < dim ==> #[trigger] self.forces@[0]@[i] == 0i64,
                    forall|a: int, i: int|
                        0 <= a < n && 0 <= i < dim ==> abs_int(
                            (#[trigger] self.forces@[a]@[i]) as int,
                        ) <= FORCE_CAP,
                decreases deg - j,
            {
                proof {
                    self.spatial_index.lemma_wf();
                    assert(self.spatial_index.g().neighbors_of(v as int)[j as int]
                        < self.spatial_index.g().n());
                }
                let u: NodeId = self.spatial_index.neighbors(v)[j];
                let f = attraction_force(
                    &self.positions[v],
                    &self.positions[u],
                    self.weights[v],
                    self.weights[u],
                    self.options.attraction_scale,
                    &mut self.rng,
                );
                let ghost fpre = self.forces@;
                let ghost fm_pre = self.forces_model();
                let ghost row_pre = self.forces_model()[v as int];
                add_force_sat(&mut self.forces[v], &f);
                proof {
                    let fv = f@.map_values(|x: i64| x as int);
                    let ghost cv_pre = contribs_all[v as int];
                    let ghost call_pre = contribs_all;
                    contribs_all = contribs_all.update(
                        v as int,
                        contribs_all[v as int].push(fv),
                    );
                    assert(contribs_all[v as int].drop_last() =~= cv_pre);
                    assert(self.forces_model()[v as int] =~= sat_add_row(row_pre, fv));
                    assert(row_pre == fm_pre[v as int]);
                    assert(fm_pre[v as int] == fold_sat(cv_pre, dim as nat));
                    assert forall|a: int|
                        0 <= a < n implies self.forces_model()[a] == fold_sat(
                        #[trigger] contribs_all[a],
                        dim as nat,
                    ) by {
                        if a == v {
                            assert(fold_sat(contribs_all[a], dim as nat) == sat_add_row(
                                fold_sat(cv_pre, dim as nat),
                                fv,
                            ));
                        } else {
                            assert(self.forces@[a] == fpre[a]);
                            assert(self.forces_model()[a] =~= fm_pre[a]);
                            assert(fm_pre[a] == fold_sat(call_pre[a], dim as nat));
                            assert(contribs_all[a] == call_pre[a]);
                        }
                    }
                    assert(pair_force_ok(
                        fv,
                        posm[v as int],
                        posm[u as int],
                        g_spec.weight_of(v as int),
                        g_spec.weight_of(u as int),
                        att_sc,
                        true,
                    )) by {
                        assert(posm[v as int] == self.positions@[v as int]@);
                        assert(posm[u as int] == self.positions@[u as int]@);
                        assert(self.weights@[v as int] == g_spec.weight_of(v as int));
                        assert(self.weights@[u as int] == g_spec.weight_of(u as int));
                    }
                    assert(u == g_spec.neighbors_of(v as int)[j as int]);
                    assert forall|a: int, i: int|
                        0 <= a < n && 0 <= i < dim implies abs_int(
                        (#[trigger] self.forces@[a]@[i]) as int,
                    ) <= FORCE_CAP by {
                        if a == v {
                        } else {
                            assert(self.forces@[a] == fpre[a]);
                        }
                    }
                    if n == 1 {
                        // a single vertex has no neighbors at all
                        assert(self.spatial_index.g().wf());
                        assert(false) by {
                            assert(self.spatial_index.g().neighbors_of(0)[0]
                                < self.spatial_index.g().n());
                        }
                    }
                }
                j = j + 1;
            }
            v = v + 1;
        }
        // repulsion pass over the symmetrized repelling sets
        let rows = nearest_neighbors_batched(&self.spatial_index);
        let ghost rows_snap = rows@;
        let ghost mut reps_all: Seq<Seq<NodeId>> = Seq::new(n as nat, |a: int| Seq::<NodeId>::empty());
        let mut v: usize = 0;
        while v < n
            invariant
                v <= n,
                n == self.positions@.len(),
                dim == self.dim,
                self.wf_core(),
                self.n() == n,
                self.dim_model() == dim,
                self.weights@ == pre.weights@,
                self.positions_model() == pre.positions_model(),
                self.spatial_index.g() == pre.spatial_index.g(),
                self.iteration_model() == pre.iteration_model(),
                self.options_model() == pre.options_model(),
                self.optimizer_model() == pre.optimizer_model(),
                self.old_positions_model() == pre.positions_model(),
                self.positions_log@ == log_after,
                posm == self.positions_model(),
                g_spec == self.spatial_index.g(),
                att_sc == self.options_model().attraction_scale,
                rep_sc == self.options_model().repulsion_scale,
                rows@ == rows_snap,
                rows@.len() == n,
                contribs_all.len() == n,
                reps_all.len() == n,
                forall|a: int, b: NodeId|
                    0 <= a < n ==> ((#[trigger] rows@[a]@.contains(b)) <==> unit_neighbor(
                        &self.spatial_index,
                        a,
                        b as int,
                    )),
                forall|a: int| 0 <= a < n ==> crate::graph::strictly_sorted((#[trigger] rows@[a])@),
                forall|a: int|
                    0 <= a < n ==> self.forces_model()[a] == fold_sat(
                        #[trigger] contribs_all[a],
                        dim as nat,
                    ),
                forall|a: int|
                    0 <= a < n ==> (#[trigger] contribs_all[a]).len() == g_spec.neighbors_of(
                        a,
                    ).len() + reps_all[a].len(),
                forall|a: int, j2: int|
                    #![trigger contribs_all[a][j2]]
                    0 <= a < n && 0 <= j2 < g_spec.neighbors_of(a).len() ==> pair_force_ok(
                        contribs_all[a][j2],
                        posm[a],
                        posm[g_spec.neighbors_of(a)[j2] as int],
                        g_spec.weight_of(a),
                        g_spec.weight_of(g_spec.neighbors_of(a)[j2] as int),
                        att_sc,
                        true,
                    ),
                forall|a: int, j2: int|
                    #![trigger reps_all[a][j2]]
                    0 <= a < n && 0 <= j2 < reps_all[a].len() ==> pair_force_ok(
                        contribs_all[a][g_spec.neighbors_of(a).len() + j2],
                        posm[a],
                        posm[reps_all[a][j2] as int],
                        g_spec.weight_of(a),
                        g_spec.weight_of(reps_all[a][j2] as int),
                        rep_sc,
                        false,
                    ) && reps_all[a][j2] < n,
                forall|a: int| v <= a < n ==> (#[trigger] reps_all[a]).len() == 0,
                forall|a: int|
                    0 <= a < v ==> crate::graph::strictly_sorted(#[trigger] reps_all[a]),
                forall|a: int, u: NodeId|
                    0 <= a < v ==> ((#[trigger] reps_all[a].contains(u)) <==> repelling_pred(
                        g_spec,
                        posm,
                        a,
                        u as int,
                    )),
                forall|a: int|
                    0 <= a < n ==> #[trigger] self.spatial_index.pos()[a] == self.positions@[a]@,
                n == 1 ==> forall|i: int|
                    0 <= i < dim ==> #[trigger] self.forces@[0]@[i] == 0i64,
                forall|a: int, i: int|
                    0 <= a < n && 0 <= i < dim ==> abs_int((#[trigger] self.forces@[a]@[i]) as int)
                        <= FORCE_CAP,
            decreases n - v,
        {
            let row_len = rows[v].len();
            let mut j: usize = 0;
            while j < row_len
                invariant
                    v < n,
                    j <= row_len,
                    n == self.positions@.len(),
                    dim == self.dim,
                    self.wf_core(),
                    self.n() == n,
                    self.dim_model() == dim,
                    self.weights@ == pre.weights@,
                    self.positions_model() == pre.positions_model(),
                    self.spatial_index.g() == pre.spatial_index.g(),
                    self.iteration_model() == pre.iteration_model(),
                    self.options_model() == pre.options_model(),
                    self.optimizer_model() == pre.optimizer_model(),
                    self.old_positions_model() == pre.positions_model(),
                    self.positions_log@ == log_after,
                    posm == self.positions_model(),
                    g_spec == self.spatial_index.g(),
                    att_sc == self.options_model().attraction_scale,
                    rep_sc == self.options_model().repulsion_scale,
                    rows@ == rows_snap,
                    rows@.len() == n,
                    row_len == rows@[v as int]@.len(),
                    contribs_all.len() == n,
                    reps_all.len() == n,
                    forall|a: int, b: NodeId|
                        0 <= a < n ==> ((#[trigger] rows@[a]@.contains(b)) <==> unit_neighbor(
                            &self.spatial_index,
                            a,
                            b as int,
                        )),
                    forall|a: int|
                        0 <= a < n ==> crate::graph::strictly_sorted((#[trigger] rows@[a])@),
                    forall|a: int|
                        0 <= a < n ==> self.forces_model()[a] == fold_sat(
                            #[trigger] contribs_all[a],
                            dim as nat,
                        ),
                    forall|a: int|
                        0 <= a < n ==> (#[trigger] contribs_all[a]).len() == g_spec.neighbors_of(
                            a,
                        ).len() + reps_all[a].len(),
                    forall|a: int, j2: int|
                        #![trigger contribs_all[a][j2]]
                        0 <= a < n && 0 <= j2 < g_spec.neighbors_of(a).len() ==> pair_force_ok(
                            contribs_all[a][j2],
                            posm[a],
                            posm[g_spec.neighbors_of(a)[j2] as int],
                            g_spec.weight_of(a),
                            g_spec.weight_of(g_spec.neighbors_of(a)[j2] as int),
                            att_sc,
                            true,
                        ),
                    forall|a: int, j2: int|
                        #![trigger reps_all[a][j2]]
                        0 <= a < n && 0 <= j2 < reps_all[a].len() ==> pair_force_ok(
                            contribs_all[a][g_spec.neighbors_of(a).len() + j2],
                            posm[a],
                            posm[reps_all[a][j2] as int],
                            g_spec.weight_of(a),
                            g_spec.weight_of(reps_all[a][j2] as int),
                            rep_sc,
                            false,
                        ) && reps_all[a][j2] < n,
                    forall|a: int| v < a < n ==> (#[trigger] reps_all[a]).len() == 0,
                    forall|a: int|
                        0 <= a < v ==> crate::graph::strictly_sorted(#[trigger] reps_all[a]),
                    forall|a: int, u: NodeId|
                        0 <= a < v ==> ((#[trigger] reps_all[a].contains(u)) <==> repelling_pred(
                            g_spec,
                            posm,
                            a,
                            u as int,
                        )),
                    crate::graph::strictly_sorted(reps_all[v as int]),
                    forall|u: NodeId|
                        (#[trigger] reps_all[v as int].contains(u)) <==> (exists|k2: int|
                            0 <= k2 < j && #[trigger] rows@[v as int]@[k2] == u
                                && !g_spec.adj(v as int, u as int)),
                    forall|jj: int|
                        0 <= jj < reps_all[v as int].len() ==> exists|k2: int|
                            0 <= k2 < j && #[trigger] rows@[v as int]@[k2] == (
                            #[trigger] reps_all[v as int][jj]),
                    forall|a: int|
                        0 <= a < n ==> #[trigger] self.spatial_index.pos()[a] == self.positions@[
                        a]@,
                    n == 1 ==> forall|i: int|
                        0 <= i < dim ==> #[trigger] self.forces@[0]@[i] == 0i64,
                    forall|a: int, i: int|
                        0 <= a < n && 0 <= i < dim ==> abs_int(
                            (#[trigger] self.forces@[a]@[i]) as int,
                        ) <= FORCE_CAP,
                decreases row_len - j,
            {
                let u: NodeId = rows[v][j];
                proof {
                    assert(rows@[v as int]@.contains(rows@[v as int]@[j as int]));
                    assert(unit_neighbor(&self.spatial_index, v as int, u as int));
                    self.spatial_index.lemma_wf();
                }
                let connected = self.spatial_index.is_connected(v, u);
                if !connected {
                    let f = repulsion_force(
                        &self.positions[v],
                        &self.positions[u],
                        self.weights[v],
                        self.weights[u],
                        self.options.repulsion_scale,
                        &mut self.rng,
                    );
                    let ghost fpre = self.forces@;
                    let ghost fm_pre = self.forces_model();
                    let ghost row_pre = self.forces_model()[v as int];
                    add_force_sat(&mut self.forces[v], &f);
                    proof {
                        let fv = f@.map_values(|x: i64| x as int);
                        let ghost cv_pre = contribs_all[v as int];
                        let ghost call_pre = contribs_all;
                        let ghost rv_pre = reps_all[v as int];
                        contribs_all = contribs_all.update(
                            v as int,
                            contribs_all[v as int].push(fv),
                        );
                        reps_all = reps_all.update(v as int, reps_all[v as int].push(u));
                        assert(contribs_all[v as int].drop_last() =~= cv_pre);
                        assert(self.forces_model()[v as int] =~= sat_add_row(row_pre, fv));
                        assert(row_pre == fm_pre[v as int]);
                        assert(fm_pre[v as int] == fold_sat(cv_pre, dim as nat));
                        assert forall|a: int|
                            0 <= a < n implies self.forces_model()[a] == fold_sat(
                            #[trigger] contribs_all[a],
                            dim as nat,
                        ) by {
                            if a == v {
                                assert(fold_sat(contribs_all[a], dim as nat) == sat_add_row(
                                    fold_sat(cv_pre, dim as nat),
                                    fv,
                                ));
                            } else {
                                assert(self.forces@[a] == fpre[a]);
                                assert(self.forces_model()[a] =~= fm_pre[a]);
                                assert(fm_pre[a] == fold_sat(call_pre[a], dim as nat));
                                assert(contribs_all[a] == call_pre[a]);
                            }
                        }
                        assert(pair_force_ok(
                            fv,
                            posm[v as int],
                            posm[u as int],
                            g_spec.weight_of(v as int),
                            g_spec.weight_of(u as int),
                            rep_sc,
                            false,
                        )) by {
                            assert(posm[v as int] == self.positions@[v as int]@);
                            assert(posm[u as int] == self.positions@[u as int]@);
                            assert(self.weights@[v as int] == g_spec.weight_of(v as int));
                            assert(self.weights@[u as int] == g_spec.weight_of(u as int));
                        }
                        // sortedness: the new id exceeds every earlier
                        // one, because the source row is sorted and the
                        // earlier entries came from earlier indices
                        assert forall|a2: int, b2: int|
                            0 <= a2 < b2 < reps_all[v as int].len() implies reps_all[v as int][a2]
                            < reps_all[v as int][b2] by {
                            if b2 == reps_all[v as int].len() - 1 {
                                let kk = choose|kk: int|
                                    0 <= kk < j && #[trigger] rows@[v as int]@[kk] == rv_pre[a2];
                                assert(rows@[v as int]@[kk] < rows@[v as int]@[j as int]);
                            }
                        }
                        assert forall|u2: NodeId|
                            (#[trigger] reps_all[v as int].contains(u2)) implies (exists|k2: int|
                            0 <= k2 < j + 1 && #[trigger] rows@[v as int]@[k2] == u2 && !g_spec.adj(
                            v as int,
                            u2 as int,
                        )) by {
                            let jj = choose|jj: int|
                                0 <= jj < reps_all[v as int].len() && reps_all[v as int][jj] == u2;
                            if jj < rv_pre.len() {
                                assert(rv_pre.contains(u2)) by {
                                    assert(rv_pre[jj] == u2);
                                }
                                let k2 = choose|k2: int|
                                    0 <= k2 < j && #[trigger] rows@[v as int]@[k2] == u2
                                        && !g_spec.adj(v as int, u2 as int);
                                assert(rows@[v as int]@[k2] == u2);
                            } else {
                                assert(u2 == u);
                                assert(rows@[v as int]@[j as int] == u2);
                            }
                        }
                        assert forall|u2: NodeId|
                            (exists|k2: int|
                                0 <= k2 < j + 1 && #[trigger] rows@[v as int]@[k2] == u2
                                    && !g_spec.adj(v as int, u2 as int)) implies (
                        #[trigger] reps_all[v as int].contains(u2)) by {
                            let k2 = choose|k2: int|
                                0 <= k2 < j + 1 && #[trigger] rows@[v as int]@[k2] == u2
                                    && !g_spec.adj(v as int, u2 as int);
                            if k2 < j {
                                assert(rv_pre.contains(u2));
                                let jj = choose|jj: int|
                                    0 <= jj < rv_pre.len() && rv_pre[jj] == u2;
                                assert(reps_all[v as int][jj] == u2);
                            } else {
                                assert(u2 == u);
                                assert(reps_all[v as int].last() == u2);
                            }
                        }
                        assert forall|jj: int|
                            0 <= jj < reps_all[v as int].len() implies exists|k2: int|
                                0 <= k2 < j + 1 && #[trigger] rows@[v as int]@[k2] == (
                                #[trigger] reps_all[v as int][jj]) by {
                            if jj < rv_pre.len() {
                                let k2 = choose|k2: int|
                                    0 <= k2 < j && #[trigger] rows@[v as int]@[k2] == rv_pre[jj];
                                assert(rows@[v as int]@[k2] == reps_all[v as int][jj]);
                            } else {
                                assert(rows@[v as int]@[j as int] == reps_all[v as int][jj]);
                            }
                        }
                        assert forall|a: int, i: int|
                            0 <= a < n && 0 <= i < dim implies abs_int(
                            (#[trigger] self.forces@[a]@[i]) as int,
                        ) <= FORCE_CAP by {
                            if a == v {
                            } else {
                                assert(self.forces@[a] == fpre[a]);
                            }
                        }
                        if n == 1 {
                            assert(false) by {
                                assert(unit_neighbor(&self.spatial_index, 0, u as int));
                            }
                        }
                    }
                } else {
                    proof {
                        assert(g_spec.adj(v as int, u as int));
                        assert forall|u2: NodeId|
                            (#[trigger] reps_all[v as int].contains(u2)) implies (exists|k2: int|
                            0 <= k2 < j + 1 && #[trigger] rows@[v as int]@[k2] == u2 && !g_spec.adj(
                            v as int,
                            u2 as int,
                        )) by {
                            let k2 = choose|k2: int|
                                0 <= k2 < j && #[trigger] rows@[v as int]@[k2] == u2 && !g_spec.adj(
                                v as int,
                                u2 as int,
                            );
                            assert(rows@[v as int]@[k2] == u2);
                        }
                        assert forall|u2: NodeId|
                            (exists|k2: int|
                                0 <= k2 < j + 1 && #[trigger] rows@[v as int]@[k2] == u2
                                    && !g_spec.adj(v as int, u2 as int)) implies (
                        #[trigger] reps_all[v as int].contains(u2)) by {
                            let k2 = choose|k2: int|
                                0 <= k2 < j + 1 && #[trigger] rows@[v as int]@[k2] == u2
                                    && !g_spec.adj(v as int, u2 as int);
                            assert(k2 != j);
                            assert(exists|k3: int|
                                0 <= k3 < j && #[trigger] rows@[v as int]@[k3] == u2 && !g_spec.adj(
                                    v as int,
                                    u2 as int,
                                ));
                        }
                    }
                }
                j = j + 1;
            }
            proof {
                // at the end of the row, membership is exactly the
                // repelling predicate at the step's position snapshot
                assert forall|u2: NodeId|
                    (#[trigger] reps_all[v as int].contains(u2)) <==> repelling_pred(
                    g_spec,
                    posm,
                    v as int,
                    u2 as int,
                ) by {
                    if reps_all[v as int].contains(u2) {
                        let k2 = choose|k2: int|
                            0 <= k2 < row_len && #[trigger] rows@[v as int]@[k2] == u2
                                && !g_spec.adj(v as int, u2 as int);
                        assert(rows@[v as int]@.contains(u2)) by {
                            assert(rows@[v as int]@[k2] == u2);
                        }
                        assert(unit_neighbor(&self.spatial_index, v as int, u2 as int));
                    }
                    if repelling_pred(g_spec, posm, v as int, u2 as int) {
                        assert(unit_neighbor(&self.spatial_index, v as int, u2 as int)) by {
                            assert(self.spatial_index.pos()[v as int] == posm[v as int]);
                            assert(self.spatial_index.pos()[u2 as int] == posm[u2 as int]);
                        }
                        assert(rows@[v as int]@.contains(u2));
                        let k2 = choose|k2: int|
                            0 <= k2 < row_len && #[trigger] rows@[v as int]@[k2] == u2;
                        assert(exists|k3: int|
                            0 <= k3 < row_len && #[trigger] rows@[v as int]@[k3] == u2
                                && !g_spec.adj(v as int, u2 as int));
                    }
                }
            }
            v = v + 1;
        }
        proof {
            assert(posm.len() == n);
            assert(self.forces_model().len() == n);
            assert(reps_all.len() == posm.len());
            assert forall|a: int|
                0 <= a < posm.len() implies crate::graph::strictly_sorted(
                #[trigger] reps_all[a],
            ) by {
                assert(0 <= a < n);
            }
            assert forall|a: int, u: NodeId|
                0 <= a < posm.len() implies ((#[trigger] reps_all[a].contains(u))
                <==> repelling_pred(g_spec, posm, a, u as int)) by {
                assert(0 <= a < n);
            }
            assert forall|a: int|
                0 <= a < posm.len() implies #[trigger] step_force_ok(
                self.forces_model()[a],
                g_spec,
                posm,
                a,
                reps_all[a],
                att_sc,
                rep_sc,
                dim as nat,
            ) by {
                assert(self.forces_model()[a] == fold_sat(contribs_all[a], dim as nat));
                assert(step_contribs_ok(
                    contribs_all[a],
                    self.forces_model()[a],
                    g_spec,
                    posm,
                    a,
                    reps_all[a],
                    att_sc,
                    rep_sc,
                    dim as nat,
                ));
            }
            assert(step_outcome_ok(
                reps_all,
                self.forces_model(),
                g_spec,
                posm,
                att_sc,
                rep_sc,
                dim as nat,
            ));
        }
        let ghost forces_final = self.forces_model();
        let ghost forces_vec = self.forces@;
        let ghost reps_witness = reps_all;
        // optimizer step
        proof {
            assert(self.optimizer.dim_of() == dim);
            assert(self.optimizer.t_model() < 0x1000_0000);
        }
        let ghost fac_before = self.optimizer.factors();
        let ghost m_before = self.optimizer.m_model();
        let ghost v_before = self.optimizer.v_model();
        let ghost p_before = self.positions_model();
        let ghost f_ghost = self.forces@;
        self.optimizer.update(&mut self.positions, &self.forces);
        self.iteration = self.iteration + 1;
        proof {
            assert(self.old_positions_model() =~= pre.positions_model());
            assert forall|v2: int|
                0 <= v2 < self.n() implies (#[trigger] self.old_positions@[v2])@
                == self.spatial_index.pos()[v2] by {
                assert(self.old_positions_model()[v2] == pre.positions_model()[v2]);
                assert(self.spatial_index.pos()[v2] == p_before[v2]);
            }
            if pre.n() == 1 && moments_zero(pre.optimizer_model(), 1, pre.dim_model()) {
                assert(m_before == pre.optimizer_model().m_model());
                assert(v_before == pre.optimizer_model().v_model());
                assert(self.optimizer.factors().0 < FIX && self.optimizer.factors().1 < FIX) by {
                    vstd::arithmetic::div_mod::lemma_div_is_ordered(
                        fac_before.0 * 9,
                        (FIX as int) * 9,
                        10,
                    );
                    assert(((FIX as int) * 9) / 10 == 900000);
                    vstd::arithmetic::div_mod::lemma_div_is_ordered(
                        fac_before.1 * 999,
                        (FIX as int) * 999,
                        1000,
                    );
                    assert(((FIX as int) * 999) / 1000 == 999000);
                }
                assert forall|i: int| 0 <= i < dim implies #[trigger] self.positions_model()[0][i]
                    == p_before[0][i] by {
                    assert(f_ghost[0]@[i] == 0i64);
                    assert(self.optimizer.m_model()[0][i] == adam_m_next(m_before[0][i], 0));
                    assert(self.optimizer.v_model()[0][i] == adam_v_next(v_before[0][i], 0));
                    lemma_adam_zero_step(
                        self.optimizer.factors().0,
                        self.optimizer.factors().1,
                        self.optimizer.factors().2,
                        self.options.learning_rate,
                    );
                    assert(self.positions_model()[0][i] == clamp32_spec(p_before[0][i] + 0));
                    assert(p_before[0][i] == pre.positions@[0]@[i]);
                    pre.positions@[0].lemma_in_range();
                }
                assert(self.positions_model()[0] =~= p_before[0]);
                assert(self.positions_model() =~= p_before);
            }
        }
        proof {
            assert(self.forces@ == forces_vec);
            assert(self.forces_model() =~= forces_final);
            assert(step_outcome_ok(
                reps_witness,
                self.forces_model(),
                pre.g(),
                pre.positions_model(),
                pre.options_model().attraction_scale,
                pre.options_model().repulsion_scale,
                pre.dim_model(),
            ));
        }
        let converged = self.check_convergence();
        proof {
            assert(self.forces_model() == forces_final);
            assert(step_outcome_ok(
                reps_witness,
                self.forces_model(),
                pre.g(),
                pre.positions_model(),
                pre.options_model().attraction_scale,
                pre.options_model().repulsion_scale,
                pre.dim_model(),
            ));
        }
        converged
    }
}

impl<SI: SpatialIndex> WEmbedder<SI> {
    /// Run the embedding: reset the optimizer, then step until the
    /// convergence test passes or the iteration cap is reached. The
    /// optimizer's timestep afterwards counts exactly the steps this
    /// run performed, and the run only stops at the cap or right after
    /// a converged step. A caller that wants a per-iteration hook
    /// drives `calculate_step` in its own loop instead.
    pub fn embed(&mut self) -> (r: Vec<DVec>)
        requires
            old(self).wf(),
            old(self).iteration_model() == 0,
        ensures
            final(self).wf(),
            final(self).n() == old(self).n(),
            final(self).options_model() == old(self).options_model(),
            final(self).iteration_model() <= final(self).options_model().max_iterations,
            final(self).optimizer_model().t_model() == final(self).iteration_model(),
            final(self).iteration_model() == final(self).options_model().max_iterations
                || (final(self).iteration_model() >= 1 && converged_spec(
                final(self).positions_model(),
                final(self).old_positions_model(),
                final(self).options_model().min_position_change,
            )),
            old(self).options_model().max_iterations >= 1 ==> final(self).iteration_model() >= 1,
            r@.map_values(|p: DVec| p@) == final(self).positions_model(),
    {
        self.optimizer.reset();
        proof {
            assert(self.wf());
        }
        let max = self.options.max_iterations;
        let mut done = false;
        while !done && self.iteration < max
            invariant
                self.wf(),
                self.iteration_model() <= max,
                max == self.options_model().max_iterations,
                self.options_model().wf(),
                self.n() == old(self).n(),
                self.options_model() == old(self).options_model(),
                self.optimizer_model().t_model() == self.iteration_model(),
                done ==> self.iteration_model() >= 1 && converged_spec(
                    self.positions_model(),
                    self.old_positions_model(),
                    self.options_model().min_position_change,
                ),
            decreases max - self.iteration_model(),
        {
            let converged = self.calculate_step();
            if converged {
                done = true;
            }
        }
        let r = copy_positions(&self.positions);
        proof {
            assert(r@.map_values(|p: DVec| p@) =~= self.positions_model());
        }
        r
    }

    /// Build an embedder over a deterministically seeded random start:
    /// every coordinate is drawn uniformly from `[0, side)`, where
    /// `side` is the fixed-point evaluation of `n^(1/dim)` geometric
    /// units, capped at the coordinate range.
    pub fn random(seed: u64, graph: &Graph, dim: usize, options: EmbedderOptions) -> (r: WEmbedder<
        SI,
    >)
        requires
            graph.wf(),
            1 <= graph.n() <= 0x100_0000,
            1 <= dim <= MAX_DIM,
            options.wf(),
            forall|v: int| 0 <= v < graph.n() ==> #[trigger] graph.weight_of(v) >= 1,
        ensures
            r.wf(),
            r.n() == graph.n(),
            r.iteration_model() == 0,
            r.options_model() == options,
            moments_zero(r.optimizer_model(), r.n(), r.dim_model()),
            r.optimizer_model().t_model() == 0,
            r.last_delta_model() == Option::<u64>::None,
            forall|v: int, i: int|
                0 <= v < r.n() && 0 <= i < dim ==> 0 <= #[trigger] r.positions_model()[v][i]
                    < cube_side_spec(graph.n(), dim as nat),
    {
        let n = graph.num_nodes();
        let mut rng = crate::rng::rng_from_seed(seed);
        // side = 64 * n^(1/dim) at an internal precision of 64, then
        // rescaled to raw coordinates and kept within the i32 range
        let p_d = pow64x(dim);
        proof {
            assert((n as int) * (p_d as int) < 0x1000_0000_0000_0000_0000_0000_0000_0000int)
                by (nonlinear_arith)
                requires
                    n <= 0x100_0000,
                    p_d <= 0x1_0000_0000_0000_0000_0000_0000u128,
            ;
        }
        proof {
            if dim == 1 {
                assert(p_d == 64) by {
                    vstd::arithmetic::power::lemma_pow1(64);
                }
                assert((n as int) * 64 <= 0x100_0000int * 64);
            }
        }
        let root = crate::math::kth_root((n as u128) * p_d, dim);
        let side128: u128 = (root as u128) * 1024;
        let side: i32 = if side128 < 1 {
            1
        } else if side128 > 0x4000_0000u128 {
            0x4000_0000i32
        } else {
            side128 as i32
        };
        proof {
            assert(side as int == cube_side_spec(graph.n(), dim as nat));
        }
        let mut positions: Vec<DVec> = Vec::new();
        let mut v: usize = 0;
        while v < n
            invariant
                v <= n,
                1 <= side,
                side as int == cube_side_spec(graph.n(), dim as nat),
                positions@.len() == v,
                forall|a: int| 0 <= a < v ==> (#[trigger] positions@[a])@.len() == dim,
                forall|a: int, i: int|
                    0 <= a < v && 0 <= i < dim ==> 0 <= #[trigger] positions@[a]@[i] < side,
            decreases n - v,
        {
            let mut c: Vec<i32> = Vec::new();
            let mut i: usize = 0;
            while i < dim
                invariant
                    i <= dim,
                    1 <= side,
                    c@.len() == i,
                    forall|j: int| 0 <= j < i ==> 0 <= #[trigger] c@[j] < side,
                decreases dim - i,
            {
                c.push(rng_range(&mut rng, 0, side));
                i = i + 1;
            }
            positions.push(DVec::new(c));
            v = v + 1;
        }
        let graph_copy = graph.duplicate();
        let embedding = crate::embedding::Embedding::new(positions, graph_copy, dim);
        let si = SI::new_index(&embedding);
        proof {
            assert forall|a: int| 0 <= a < si.pos().len() implies #[trigger] si.g().weight_of(a)
                >= 1 by {
                assert(si.g().weight_of(a) == embedding.graph.weight_of(a));
                assert(embedding.graph.weight_of(a) == graph.weight_of(a));
            }
        }
        let r = WEmbedder::new(si, options);
        proof {
            assert forall|v2: int, i: int|
                0 <= v2 < r.n() && 0 <= i < dim implies 0 <= #[trigger] r.positions_model()[v2][i]
                < cube_side_spec(graph.n(), dim as nat) by {
                assert(r.positions_model()[v2] == si.pos()[v2]);
                assert(si.pos()[v2] == embedding.positions_view()[v2]);
                assert(embedding.positions_view()[v2] == positions@[v2]@);
                assert(0 <= positions@[v2]@[i] < side);
            }
        }
        r
    }
}

/// `64^k` for `k <= 1024`, capped: beyond `k == 16` the loop result is
/// only used to seed the cube-side estimate, so the cap keeps the
/// arithmetic exact where it matters and saturates elsewhere.
fn pow64x(k: usize) -> (r: u128)
    ensures
        r <= 0x1_0000_0000_0000_0000_0000_0000u128,
        1 <= r,
        k <= 16 ==> r as int == vstd::arithmetic::power::pow(64, k as nat),
        k > 16 ==> r == 0x1_0000_0000_0000_0000_0000_0000u128,
{
    if k <= 16 {
        let r = crate::graph::pow64(k);
        proof {
            vstd::arithmetic::power::lemma_pow_positive(64, k as nat);
        }
        r
    } else {
        0x1_0000_0000_0000_0000_0000_0000u128
    }
}

/// Pointwise saturated accumulation of one contribution row.
pub open spec fn sat_add_row(acc: Seq<int>, f: Seq<int>) -> Seq<int> {
    Seq::new(acc.len(), |i: int| crate::math::clamp_mag_spec(acc[i] + f[i], FORCE_CAP as int))
}

/// Fold a contribution table into a force row of width `dim`,
/// saturating after every contribution, exactly as the engine
/// accumulates.
pub open spec fn fold_sat(contribs: Seq<Seq<int>>, dim: nat) -> Seq<int>
    decreases contribs.len(),
{
    if contribs.len() == 0 {
        Seq::new(dim, |i: int| 0)
    } else {
        sat_add_row(fold_sat(contribs.drop_last(), dim), contribs.last())
    }
}

/// One admissible pair force: the exact attraction or repulsion
/// formula when the two positions differ, and any jitter-bounded
/// vector when they coincide.
pub open spec fn pair_force_ok(
    f: Seq<int>,
    pv: Seq<int>,
    pu: Seq<int>,
    wv: nat,
    wu: nat,
    scale: Ratio,
    attract: bool,
) -> bool {
    &&& f.len() == pv.len()
    &&& (pv != pu ==> f == if attract {
        attraction_force_spec(pv, pu, wv, wu, scale)
    } else {
        repulsion_force_spec(pv, pu, wv, wu, scale)
    })
    &&& (pv == pu ==> forall|i: int|
        0 <= i < f.len() ==> -(JITTER_CAP as int) <= #[trigger] f[i] <= JITTER_CAP as int)
}

/// Whether `u` belongs to the repelling set of `v` under positions
/// `posm`: a distinct non-adjacent vertex within weighted radius one.
pub open spec fn repelling_pred(g: Graph, posm: Seq<Seq<int>>, v: int, u: int) -> bool {
    &&& 0 <= u < posm.len()
    &&& 0 <= v < posm.len()
    &&& u != v
    &&& crate::query::within_weighted_radius(
        posm[u],
        posm[v],
        g.weight_of(u),
        g.weight_of(v),
        1,
        1,
    )
    &&& !g.adj(v, u)
}

/// A witnessed force accumulation for one vertex: one admissible
/// attraction contribution per graph neighbor, in list order, followed
/// by one admissible repulsion contribution per member of `reps`, and
/// the row is their saturated fold.
pub open spec fn step_contribs_ok(
    contribs: Seq<Seq<int>>,
    f: Seq<int>,
    g: Graph,
    posm: Seq<Seq<int>>,
    v: int,
    reps: Seq<NodeId>,
    att: Ratio,
    rep: Ratio,
    dim: nat,
) -> bool {
    let nbrs = g.neighbors_of(v);
    &&& contribs.len() == nbrs.len() + reps.len()
    &&& forall|j: int|
        0 <= j < nbrs.len() ==> pair_force_ok(
            #[trigger] contribs[j],
            posm[v],
            posm[nbrs[j] as int],
            g.weight_of(v),
            g.weight_of(nbrs[j] as int),
            att,
            true,
        )
    &&& forall|j: int|
        0 <= j < reps.len() ==> pair_force_ok(
            #[trigger] contribs[nbrs.len() + j],
            posm[v],
            posm[reps[j] as int],
            g.weight_of(v),
            g.weight_of(reps[j] as int),
            rep,
            false,
        )
    &&& f == fold_sat(contribs, dim)
}

/// The outcome of one step's force passes: `reps_all` lists, sorted
/// and duplicate-free, exactly the repelling set of every vertex, and
/// every force row is a witnessed accumulation over graph neighbors
/// and that set.
pub open spec fn step_outcome_ok(
    reps_all: Seq<Seq<NodeId>>,
    forces: Seq<Seq<int>>,
    g: Graph,
    posm: Seq<Seq<int>>,
    att: Ratio,
    rep: Ratio,
    dim: nat,
) -> bool {
    &&& reps_all.len() == posm.len()
    &&& forces.len() == posm.len()
    &&& forall|v: int| 0 <= v < posm.len() ==> crate::graph::strictly_sorted(#[trigger] reps_all[v])
    &&& forall|v: int, u: NodeId|
        0 <= v < posm.len() ==> ((#[trigger] reps_all[v].contains(u)) <==> repelling_pred(
            g,
            posm,
            v,
            u as int,
        ))
    &&& forall|v: int|
        0 <= v < posm.len() ==> #[trigger] step_force_ok(
            forces[v],
            g,
            posm,
            v,
            reps_all[v],
            att,
            rep,
            dim,
        )
}

/// Some admissible contribution table accumulates to this force row.
pub open spec fn step_force_ok(
    f: Seq<int>,
    g: Graph,
    posm: Seq<Seq<int>>,
    v: int,
    reps: Seq<NodeId>,
    att: Ratio,
    rep: Ratio,
    dim: nat,
) -> bool {
    exists|contribs: Seq<Seq<int>>|
        step_contribs_ok(contribs, f, g, posm, v, reps, att, rep, dim)
}

} // verus!
