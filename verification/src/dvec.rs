//! The position vector primitive: a runtime-dimension vector of
//! fixed-point coordinates. A coordinate of `POS_SCALE` stands for one
//! geometric unit, so squared distances are exact integers and the hot
//! weighted-radius comparison needs no rounding at all.

use vstd::prelude::*;

verus! {

/// Fixed-point coordinate scale: this many raw coordinate steps make one
/// geometric unit. Chosen as `WEIGHT_SCALE * WEIGHT_SCALE` so that the
/// weighted-distance predicate compares raw squared distances directly
/// against products of raw weights.
pub const POS_SCALE: i64 = 65536;

/// A point of the embedding space.
#[derive(Debug, PartialEq, Eq)]
pub struct DVec {
    components: Vec<i32>,
}

impl Clone for DVec {
    /// Cloning a point preserves its coordinates exactly.
    fn clone(&self) -> (r: Self)
        ensures
            r@ == self@,
    {
        let c = self.components.clone();
        proof {
            assert(c@ =~= self.components@);
            assert(c@.map_values(|x: i32| x as int) =~= self.components@.map_values(
                |x: i32| x as int,
            ));
        }
        DVec { components: c }
    }
}

impl View for DVec {
    type V = Seq<int>;

    closed spec fn view(&self) -> Seq<int> {
        self.components@.map_values(|x: i32| x as int)
    }
}

/// Sum of the squared differences of the first `n` coordinates.
pub open spec fn sum_sq_diff(a: Seq<int>, b: Seq<int>, n: nat) -> int
    decreases n,
{
    if n == 0 {
        0
    } else {
        sum_sq_diff(a, b, (n - 1) as nat) + (a[n - 1] - b[n - 1]) * (a[n - 1] - b[n - 1])
    }
}

/// The squared Euclidean distance of two points, as a mathematical value.
pub open spec fn dist_sq_spec(a: Seq<int>, b: Seq<int>) -> int
    recommends
        a.len() == b.len(),
{
    sum_sq_diff(a, b, a.len())
}

/// The squared Euclidean norm of a point.
pub open spec fn norm_sq_spec(a: Seq<int>) -> int {
    dist_sq_spec(a, Seq::new(a.len(), |i: int| 0))
}

/// Squared distances are non-negative.
pub proof fn lemma_sum_sq_diff_nonneg(a: Seq<int>, b: Seq<int>, n: nat)
    ensures
        sum_sq_diff(a, b, n) >= 0,
    decreases n,
{
    if n > 0 {
        lemma_sum_sq_diff_nonneg(a, b, (n - 1) as nat);
        let d = a[n - 1] - b[n - 1];
        assert(d * d >= 0) by (nonlinear_arith);
    }
}

/// Squared distance is symmetric in its two points.
pub proof fn lemma_sum_sq_diff_sym(a: Seq<int>, b: Seq<int>, n: nat)
    ensures
        sum_sq_diff(a, b, n) == sum_sq_diff(b, a, n),
    decreases n,
{
    if n > 0 {
        lemma_sum_sq_diff_sym(a, b, (n - 1) as nat);
        let d = a[n - 1] - b[n - 1];
        let e = b[n - 1] - a[n - 1];
        assert(d * d == e * e) by (nonlinear_arith)
            requires
                d == -e,
        ;
    }
}

/// A point whose coordinates differ at axis `k` by `d` in absolute value
/// lies at squared distance at least `d * d`: one axis alone already
/// contributes that much.
pub proof fn lemma_axis_lower_bound(a: Seq<int>, b: Seq<int>, n: nat, k: nat)
    requires
        k < n,
    ensures
        sum_sq_diff(a, b, n) >= (a[k as int] - b[k as int]) * (a[k as int] - b[k as int]),
    decreases n,
{
    lemma_sum_sq_diff_nonneg(a, b, (n - 1) as nat);
    let d = a[n - 1] - b[n - 1];
    assert(d * d >= 0) by (nonlinear_arith);
    if k < n - 1 {
        lemma_axis_lower_bound(a, b, (n - 1) as nat, k);
    }
}

/// Each term of `sum_sq_diff` over `i32` coordinates is below `2^64`.
proof fn lemma_term_bound(x: int, y: int)
    requires
        -0x8000_0000 <= x < 0x8000_0000,
        -0x8000_0000 <= y < 0x8000_0000,
    ensures
        0 <= (x - y) * (x - y) < 0xffff_ffff_ffff_ffffu64,
{
    let d = x - y;
    assert(0 <= d * d < 0xffff_ffff_ffff_ffffu64) by (nonlinear_arith)
        requires
            -0x1_0000_0000 < d < 0x1_0000_0000,
    ;
}

/// `sum_sq_diff` over `i32` coordinates grows by less than `2^64` per axis.
pub proof fn lemma_sum_sq_diff_bound(a: Seq<int>, b: Seq<int>, n: nat)
    requires
        forall|i: int| 0 <= i < n ==> -0x8000_0000 <= #[trigger] a[i] < 0x8000_0000,
        forall|i: int| 0 <= i < n ==> -0x8000_0000 <= #[trigger] b[i] < 0x8000_0000,
    ensures
        0 <= sum_sq_diff(a, b, n) <= n * 0xffff_ffff_ffff_ffffu64,
    decreases n,
{
    if n == 0 {
    } else {
        lemma_sum_sq_diff_bound(a, b, (n - 1) as nat);
        lemma_term_bound(a[n - 1], b[n - 1]);
        assert((n - 1) * 0xffff_ffff_ffff_ffffu64 + 0xffff_ffff_ffff_ffffu64 == n
            * 0xffff_ffff_ffff_ffffu64) by (nonlinear_arith);
    }
}

impl DVec {
    /// Wrap raw fixed-point coordinates as a point.
    pub fn new(components: Vec<i32>) -> (r: DVec)
        ensures
            r@.len() == components@.len(),
            forall|i: int| 0 <= i < r@.len() ==> r@[i] == components@[i] as int,
    {
        DVec { components }
    }

    /// The origin of a `dim`-dimensional space.
    pub fn zero(dim: usize) -> (r: DVec)
        ensures
            r@.len() == dim,
            forall|i: int| 0 <= i < dim ==> r@[i] == 0,
    {
        let mut components: Vec<i32> = Vec::new();
        let mut i: usize = 0;
        while i < dim
            invariant
                i <= dim,
                components@.len() == i,
                forall|j: int| 0 <= j < i ==> components@[j] == 0i32,
            decreases dim - i,
        {
            components.push(0);
            i = i + 1;
        }
        DVec { components }
    }

    /// The dimension of the point.
    pub fn dim(&self) -> (d: usize)
        ensures
            d == self@.len(),
    {
        self.components.len()
    }

    /// The coordinate on axis `i`.
    pub fn get(&self, i: usize) -> (c: i32)
        requires
            i < self@.len(),
        ensures
            c as int == self@[i as int],
    {
        self.components[i]
    }

    /// Every coordinate of a point is an `i32` value.
    pub proof fn lemma_in_range(&self)
        ensures
            forall|i: int|
                0 <= i < self@.len() ==> -0x8000_0000 <= #[trigger] self@[i] < 0x8000_0000,
    {
    }

    /// Overwrite the coordinate on axis `i`.
    pub fn set(&mut self, i: usize, val: i32)
        requires
            i < old(self)@.len(),
        ensures
            final(self)@ == old(self)@.update(i as int, val as int),
    {
        self.components[i] = val;
        proof {
            assert(self@ =~= old(self)@.update(i as int, val as int));
        }
    }

    /// The squared Euclidean distance to `other`, exactly.
    pub fn distance_squared(&self, other: &DVec) -> (r: u128)
        requires
            self@.len() == other@.len(),
        ensures
            r as int == dist_sq_spec(self@, other@),
    {
        proof {
            self.lemma_in_range();
            other.lemma_in_range();
        }
        let n = self.components.len();
        let mut sum: u128 = 0;
        let mut i: usize = 0;
        while i < n
            invariant
                i <= n,
                n == self@.len() == other@.len(),
                forall|j: int|
                    0 <= j < n ==> -0x8000_0000 <= #[trigger] self@[j] < 0x8000_0000,
                forall|j: int|
                    0 <= j < n ==> -0x8000_0000 <= #[trigger] other@[j] < 0x8000_0000,
                sum as int == sum_sq_diff(self@, other@, i as nat),
                sum <= (i as int) * 0xffff_ffff_ffff_ffffu64,
            decreases n - i,
        {
            let d: i64 = (self.components[i] as i64) - (other.components[i] as i64);
            proof {
                lemma_term_bound(self@[i as int], other@[i as int]);
                let sd = self@[i as int] - other@[i as int];
                assert((d as int) * (d as int) == sd * sd);
                assert((i + 1) * 0xffff_ffff_ffff_ffffu64 == (i as int) * 0xffff_ffff_ffff_ffffu64
                    + 0xffff_ffff_ffff_ffffu64) by (nonlinear_arith);
                assert((i as int) * 0xffff_ffff_ffff_ffffu64 <= (
                0xffff_ffff_ffff_ffff_0000_0000_0000_0000u128)) by (nonlinear_arith)
                    requires
                        0 <= i < 0x1_0000_0000_0000_0000,
                ;
            }
            let sq: i128 = (d as i128) * (d as i128);
            sum = sum + (sq as u128);
            i = i + 1;
        }
        sum
    }

    /// The squared Euclidean norm, exactly.
    pub fn magnitude_squared(&self) -> (r: u128)
        ensures
            r as int == norm_sq_spec(self@),
    {
        let z = DVec::zero(self.components.len());
        proof {
            assert(z@ =~= Seq::new(self@.len(), |i: int| 0));
        }
        self.distance_squared(&z)
    }
}

/// Copy a position array, coordinate for coordinate.
pub fn copy_positions(src: &Vec<DVec>) -> (r: Vec<DVec>)
    ensures
        r@.len() == src@.len(),
        forall|i: int| 0 <= i < src@.len() ==> (#[trigger] r@[i])@ == (src@[i])@,
{
    let mut r: Vec<DVec> = Vec::new();
    let mut i: usize = 0;
    while i < src.len()
        invariant
            i <= src@.len(),
            r@.len() == i,
            forall|j: int| 0 <= j < i ==> (#[trigger] r@[j])@ == (src@[j])@,
        decreases src@.len() - i,
    {
        r.push(src[i].clone());
        i = i + 1;
    }
    r
}

/// A zero squared distance forces equality coordinate by coordinate.
pub proof fn lemma_sum_sq_diff_zero(a: Seq<int>, b: Seq<int>, n: nat)
    requires
        sum_sq_diff(a, b, n) == 0,
    ensures
        forall|i: int| 0 <= i < n ==> a[i] == b[i],
    decreases n,
{
    if n > 0 {
        lemma_sum_sq_diff_nonneg(a, b, (n - 1) as nat);
        let d = a[n - 1] - b[n - 1];
        assert(d * d >= 0) by (nonlinear_arith);
        assert(d * d == 0);
        assert(d == 0) by (nonlinear_arith)
            requires
                d * d == 0,
        ;
        lemma_sum_sq_diff_zero(a, b, (n - 1) as nat);
    }
}

/// Distinct points lie at a positive squared distance.
pub proof fn lemma_dist_sq_pos(a: Seq<int>, b: Seq<int>)
    requires
        a.len() == b.len(),
        a != b,
    ensures
        dist_sq_spec(a, b) > 0,
{
    lemma_sum_sq_diff_nonneg(a, b, a.len());
    if dist_sq_spec(a, b) == 0 {
        lemma_sum_sq_diff_zero(a, b, a.len());
        assert(a =~= b);
    }
}

} // verus!
