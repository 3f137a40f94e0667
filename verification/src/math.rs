//! Exact integer helpers for the fixed-point arithmetic of the library:
//! powers, floor/ceiling square roots, floor k-th roots, and truncating
//! ratio scaling. Every routine carries a contract that pins its result.

use vstd::prelude::*;
use vstd::arithmetic::power::{pow, lemma_pow_strictly_increases, lemma_pow_increases};

verus! {

/// `pow(b, k) <= pow(c, k)` when `b <= c`: `pow` is monotone in its base.
pub proof fn lemma_pow_base_monotone(b: nat, c: nat, k: nat)
    requires
        b <= c,
    ensures
        pow(b as int, k) <= pow(c as int, k),
    decreases k,
{
    reveal(pow);
    if k > 0 {
        lemma_pow_base_monotone(b, c, (k - 1) as nat);
        lemma_pow_nonneg(b, (k - 1) as nat);
        lemma_pow_nonneg(c, (k - 1) as nat);
        assert(pow(b as int, k) == b * pow(b as int, (k - 1) as nat));
        assert(pow(c as int, k) == c * pow(c as int, (k - 1) as nat));
        assert(b * pow(b as int, (k - 1) as nat) <= c * pow(c as int, (k - 1) as nat))
            by (nonlinear_arith)
            requires
                0 <= b <= c,
                0 <= pow(b as int, (k - 1) as nat) <= pow(c as int, (k - 1) as nat),
        ;
    }
}

/// `pow` of a natural number is a natural number.
pub proof fn lemma_pow_nonneg(b: nat, k: nat)
    ensures
        pow(b as int, k) >= 0,
    decreases k,
{
    reveal(pow);
    if k > 0 {
        lemma_pow_nonneg(b, (k - 1) as nat);
        assert(pow(b as int, k) == b * pow(b as int, (k - 1) as nat));
        assert(b * pow(b as int, (k - 1) as nat) >= 0) by (nonlinear_arith)
            requires
                b >= 0,
                pow(b as int, (k - 1) as nat) >= 0,
        ;
    }
}

/// `pow(1, k) == 1`.
pub proof fn lemma_pow_one_base(k: nat)
    ensures
        pow(1int, k) == 1,
    decreases k,
{
    reveal(pow);
    if k > 0 {
        lemma_pow_one_base((k - 1) as nat);
        assert(pow(1int, k) == 1 * pow(1int, (k - 1) as nat));
    }
}

/// `pow(b, k) >= b` for `k >= 1`.
pub proof fn lemma_pow_at_least_base(b: nat, k: nat)
    requires
        k >= 1,
    ensures
        pow(b as int, k) >= b,
    decreases k,
{
    reveal_with_fuel(pow, 2);
    if k == 1 {
        assert(pow(b as int, 0) == 1);
        assert(pow(b as int, 1) == b * pow(b as int, 0));
    } else {
        lemma_pow_at_least_base(b, (k - 1) as nat);
        assert(pow(b as int, k) == b * pow(b as int, (k - 1) as nat));
        if b == 0 {
            assert(pow(b as int, k) == 0 * pow(b as int, (k - 1) as nat));
        } else {
            vstd::arithmetic::power::lemma_pow_positive(b as int, (k - 1) as nat);
            assert(b * pow(b as int, (k - 1) as nat) >= b) by (nonlinear_arith)
                requires
                    b >= 1,
                    pow(b as int, (k - 1) as nat) >= 1,
            ;
        }
    }
}

/// The floor `k`-th root of `x`, as a mathematical value: the unique `r`
/// with `r^k <= x < (r+1)^k`.
pub open spec fn kth_root_spec(x: nat, k: nat) -> nat {
    choose|r: nat| #[trigger] pow(r as int, k) <= x < pow((r + 1) as int, k)
}

/// Any `r` with `r^k <= x < (r+1)^k` equals `kth_root_spec(x, k)`.
pub proof fn lemma_kth_root_unique(x: nat, k: nat, r: nat)
    requires
        k >= 1,
        pow(r as int, k) <= x < pow((r + 1) as int, k),
    ensures
        r == kth_root_spec(x, k),
{
    assert(pow(r as int, k) <= x < pow((r + 1) as int, k));
    let w = kth_root_spec(x, k);
    assert(pow(w as int, k) <= x < pow((w + 1) as int, k));
    if w < r {
        lemma_pow_base_monotone((w + 1) as nat, r, k);
    }
    if r < w {
        lemma_pow_base_monotone((r + 1) as nat, w, k);
    }
}

/// Whether `b^k <= x`, decided without overflow.
fn pow_le(b: u128, k: usize, x: u128) -> (res: bool)
    requires
        k >= 1,
    ensures
        res == (pow(b as int, k as nat) <= x),
{
    proof {
        reveal(pow);
    }
    if b == 0 {
        proof {
            reveal(pow);
            lemma_pow_nonneg(0, k as nat);
            assert(pow(0int, k as nat) == 0 * pow(0int, (k - 1) as nat));
        }
        return true;
    }
    if b == 1 {
        proof {
            assert(pow(1int, k as nat) == 1) by {
                vstd::arithmetic::power::lemma_pow1(1int);
                lemma_pow_one_base(k as nat);
            }
        }
        return x >= 1;
    }
    if x == 0 {
        proof {
            lemma_pow_at_least_base(b as nat, k as nat);
        }
        return false;
    }
    let mut acc: u128 = 1;
    let mut i: usize = 0;
    while i < k
        invariant
            b >= 2,
            i <= k,
            acc == pow(b as int, i as nat),
            acc <= x,
        decreases k - i,
    {
        if acc > x / b {
            proof {
                reveal(pow);
                // acc * b > x, and pow(b, k) >= acc * b since b >= 1.
                vstd::arithmetic::div_mod::lemma_fundamental_div_mod(x as int, b as int);
                assert(acc * b > x) by (nonlinear_arith)
                    requires
                        b >= 2,
                        (acc as int) > (x as int) / (b as int),
                        (x as int) == (b as int) * ((x as int) / (b as int)) + (x as int) % (
                        b as int),
                        0 <= (x as int) % (b as int) < (b as int),
                ;
                lemma_pow_mul_ge(b as nat, (i + 1) as nat, k as nat, x);
                assert(pow(b as int, (i + 1) as nat) == b * pow(b as int, i as nat)) by {
                    vstd::arithmetic::power::lemma_pow_adds(b as int, 1, i as nat);
                    assert(pow(b as int, 1) == b * pow(b as int, 0));
                }
                assert(pow(b as int, (i + 1) as nat) == acc * b) by (nonlinear_arith)
                    requires
                        pow(b as int, (i + 1) as nat) == b * pow(b as int, i as nat),
                        acc == pow(b as int, i as nat),
                ;
            }
            return false;
        }
        proof {
            reveal(pow);
            vstd::arithmetic::div_mod::lemma_fundamental_div_mod(x as int, b as int);
            assert(acc * b <= x) by (nonlinear_arith)
                requires
                    b >= 1,
                    (acc as int) <= (x as int) / (b as int),
                    (x as int) == (b as int) * ((x as int) / (b as int)) + (x as int) % (b as int),
                    0 <= (x as int) % (b as int) < (b as int),
            ;
            vstd::arithmetic::power::lemma_pow_adds(b as int, i as nat, 1);
            assert(pow(b as int, 1) == b * pow(b as int, 0));
            assert(acc * b == pow(b as int, (i + 1) as nat)) by (nonlinear_arith)
                requires
                    pow(b as int, (i + 1) as nat) == pow(b as int, i as nat) * pow(b as int, 1),
                    pow(b as int, 1) == b,
                    acc == pow(b as int, i as nat),
            ;
        }
        acc = acc * b;
        i = i + 1;
    }
    proof {
        if i < k {
        } else {
            assert(i == k);
        }
    }
    true
}

/// `pow(b, j) <= pow(b, k)` for `b >= 1` and `j <= k`; hence if
/// `pow(b, j) > x` then `pow(b, k) > x`.
proof fn lemma_pow_mul_ge(b: nat, j: nat, k: nat, x: u128)
    requires
        b >= 1,
        j <= k,
        pow(b as int, j) > x,
    ensures
        pow(b as int, k) > x,
{
    lemma_pow_increases(b, j, k);
}

/// Floor `k`-th root by binary search: the unique `r` with
/// `r^k <= x < (r+1)^k`.
pub fn kth_root(x: u128, k: usize) -> (r: u64)
    requires
        1 <= k,
        x < 0x1000_0000_0000_0000_0000_0000_0000_0000u128,  // below 2^124
        k == 1 ==> x < 0xffff_ffff_ffff_ffffu128,
    ensures
        pow(r as int, k as nat) <= x < pow((r + 1) as int, k as nat),
        r == kth_root_spec(x as nat, k as nat),
{
    let mut lo: u64 = 0;
    let mut hi: u64 = 0xffff_ffff_ffff_ffffu64;
    proof {
        reveal(pow);
        lemma_pow_at_least_base(hi as nat, k as nat);
        assert(pow(0int, k as nat) == 0) by {
            reveal(pow);
            assert(pow(0int, k as nat) == 0 * pow(0int, (k - 1) as nat));
        }
        if k >= 2 {
            reveal_with_fuel(pow, 3);
            assert(pow(hi as int, 2) == hi * (hi * pow(hi as int, 0)));
            assert(hi * ((hi as int) * 1) > x) by (nonlinear_arith)
                requires
                    hi == 0xffff_ffff_ffff_ffffu64,
                    x < 0x1000_0000_0000_0000_0000_0000_0000_0000u128,
            ;
            lemma_pow_increases(hi as nat, 2, k as nat);
        }
    }
    while lo + 1 < hi
        invariant
            1 <= k,
            lo < hi,
            pow(lo as int, k as nat) <= x,
            x < pow(hi as int, k as nat),
        decreases hi - lo,
    {
        let mid = lo + (hi - lo) / 2;
        if pow_le(mid as u128, k, x) {
            lo = mid;
        } else {
            hi = mid;
        }
    }
    proof {
        lemma_kth_root_unique(x as nat, k as nat, lo as nat);
    }
    lo
}

/// Floor square root: the unique `r` with `r^2 <= x < (r+1)^2`.
pub fn isqrt(x: u128) -> (r: u64)
    requires
        x < 0x10_0000_0000_0000_0000_0000_0000u128,  // below 2^100
    ensures
        (r as int) * (r as int) <= x,
        x < (r + 1) * (r + 1),
        r <= 0x4_0000_0000_0000u64,
{
    let mut lo: u64 = 0;
    let mut hi: u64 = 0x4_0000_0000_0000u64;  // 2^50
    proof {
        assert((hi as int) * (hi as int) > x) by (nonlinear_arith)
            requires
                hi == 0x4_0000_0000_0000u64,
                x < 0x10_0000_0000_0000_0000_0000_0000u128,
        ;
    }
    while lo + 1 < hi
        invariant
            lo < hi <= 0x4_0000_0000_0000u64,
            (lo as int) * (lo as int) <= x,
            x < (hi as int) * (hi as int),
        decreases hi - lo,
    {
        let mid = lo + (hi - lo) / 2;
        proof {
            assert((mid as int) * (mid as int) <= 0x10_0000_0000_0000_0000_0000_0000u128)
                by (nonlinear_arith)
                requires
                    0 <= mid <= 0x4_0000_0000_0000u64,
            ;
        }
        if (mid as u128) * (mid as u128) <= x {
            lo = mid;
        } else {
            hi = mid;
        }
    }
    lo
}

/// Ceiling square root: the least `r` with `r^2 >= x`.
pub fn isqrt_ceil(x: u128) -> (r: u64)
    requires
        x < 0x10_0000_0000_0000_0000_0000_0000u128,  // below 2^100
    ensures
        (r as int) * (r as int) >= x,
        r > 0 ==> ((r - 1) * (r - 1)) < x,
        r <= 0x4_0000_0000_0001u64,
{
    let f = isqrt(x);
    if (f as u128) * (f as u128) == x {
        proof {
            if f > 0 {
                assert(((f - 1) as int) * ((f - 1) as int) < (f as int) * (f as int))
                    by (nonlinear_arith)
                    requires
                        f >= 1,
                ;
            }
        }
        f
    } else {
        f + 1
    }
}

/// `trunc(a * num / den)`, rounding toward zero, as a mathematical value.
/// Division of naturals in specifications is a floor division, so the
/// truncation is expressed by dividing magnitudes.
pub open spec fn ratio_trunc_spec(a: int, num: int, den: int) -> int
    recommends
        num >= 0,
        den >= 1,
{
    if a >= 0 {
        (a * num) / den
    } else {
        -(((-a) * num) / den)
    }
}

/// Truncating ratio scaling is odd in its first argument.
pub proof fn lemma_ratio_trunc_odd(a: int, num: int, den: int)
    requires
        num >= 0,
        den >= 1,
    ensures
        ratio_trunc_spec(-a, num, den) == -ratio_trunc_spec(a, num, den),
{
    if a == 0 {
        assert(0int * num == 0);
    }
}

/// `|a|`, as a mathematical value.
pub open spec fn abs_int(a: int) -> int {
    if a >= 0 {
        a
    } else {
        -a
    }
}

/// `trunc(a * num / den)` toward zero, computed exactly.
pub fn ratio_trunc(a: i64, num: u64, den: u64) -> (r: i64)
    requires
        den >= 1,
        abs_int(a as int) * (num as int) / (den as int) <= 0x7fff_ffff_ffff_ffffi64,
    ensures
        r == ratio_trunc_spec(a as int, num as int, den as int),
{
    let mag_in: u64 = if a >= 0 {
        a as u64
    } else {
        (-(a as i128)) as u64
    };
    proof {
        assert((mag_in as int) * (num as int) < 0x8000_0000_0000_0000_0000_0000_0000_0000int)
            by (nonlinear_arith)
            requires
                mag_in <= 0x8000_0000_0000_0000u64,
                num <= 0xffff_ffff_ffff_ffffu64,
        ;
    }
    let mag: u128 = (mag_in as u128) * (num as u128) / (den as u128);
    if a >= 0 {
        mag as i64
    } else {
        -(mag as i64)
    }
}

/// A positive rational, used for configuration values that the floats
/// of a conventional implementation would hold.
#[derive(Clone, Copy, Debug, PartialEq, Eq)]
pub struct Ratio {
    pub num: u64,
    pub den: u64,
}

impl Ratio {
    /// Both parts positive and small enough for exact arithmetic.
    pub open spec fn wf(&self) -> bool {
        1 <= self.num <= 0x1000_0000 && 1 <= self.den <= 0x1000_0000
    }

    /// The ratio `num / den`.
    pub fn new(num: u64, den: u64) -> (r: Ratio)
        requires
            1 <= num <= 0x1000_0000,
            1 <= den <= 0x1000_0000,
        ensures
            r.wf(),
            r.num == num,
            r.den == den,
    {
        Ratio { num, den }
    }
}

/// `a / b` rounded toward zero, as a mathematical value.
pub open spec fn div_trunc_spec(a: int, b: int) -> int
    recommends
        b >= 1,
{
    if a >= 0 {
        a / b
    } else {
        -((-a) / b)
    }
}

/// Truncating division is odd in its numerator.
pub proof fn lemma_div_trunc_odd(a: int, b: int)
    requires
        b >= 1,
    ensures
        div_trunc_spec(-a, b) == -div_trunc_spec(a, b),
{
}

/// Truncating division never grows the magnitude.
pub proof fn lemma_div_trunc_bound(a: int, b: int, m: int)
    requires
        b >= 1,
        abs_int(a) <= m,
    ensures
        abs_int(div_trunc_spec(a, b)) <= m,
{
    if a >= 0 {
        vstd::arithmetic::div_mod::lemma_div_is_ordered(a, m, b);
        vstd::arithmetic::div_mod::lemma_div_nonincreasing(a, b);
        vstd::arithmetic::div_mod::lemma_div_pos_is_pos(a, b);
    } else {
        vstd::arithmetic::div_mod::lemma_div_is_ordered(-a, m, b);
        vstd::arithmetic::div_mod::lemma_div_nonincreasing(-a, b);
        vstd::arithmetic::div_mod::lemma_div_pos_is_pos(-a, b);
    }
}

/// `a / b` rounded toward zero, computed exactly on 128-bit values.
pub fn div_trunc(a: i128, b: i128) -> (r: i128)
    requires
        1 <= b,
        -0x4000_0000_0000_0000_0000_0000_0000_0000i128 < a,
    ensures
        r == div_trunc_spec(a as int, b as int),
        abs_int(r as int) <= abs_int(a as int),
{
    proof {
        lemma_div_trunc_bound(a as int, b as int, abs_int(a as int));
    }
    if a >= 0 {
        proof {
            vstd::arithmetic::div_mod::lemma_div_nonincreasing(a as int, b as int);
            vstd::arithmetic::div_mod::lemma_div_pos_is_pos(a as int, b as int);
        }
        a / b
    } else {
        proof {
            vstd::arithmetic::div_mod::lemma_div_nonincreasing(-(a as int), b as int);
            vstd::arithmetic::div_mod::lemma_div_pos_is_pos(-(a as int), b as int);
        }
        -((-a) / b)
    }
}

/// Clip a value into the `i32` coordinate range.
pub open spec fn clamp32_spec(x: int) -> int {
    if x < -0x8000_0000 {
        -0x8000_0000
    } else if x > 0x7fff_ffff {
        0x7fff_ffff
    } else {
        x
    }
}

/// Clip a value into the `i32` coordinate range.
pub fn clamp32(x: i128) -> (r: i32)
    ensures
        r as int == clamp32_spec(x as int),
{
    if x < -0x8000_0000i128 {
        -0x8000_0000i32
    } else if x > 0x7fff_ffffi128 {
        0x7fff_ffffi32
    } else {
        x as i32
    }
}

/// Clip a value into `[-m, m]`.
pub open spec fn clamp_mag_spec(x: int, m: int) -> int {
    if x < -m {
        -m
    } else if x > m {
        m
    } else {
        x
    }
}

/// The floor square root, as a mathematical value.
pub open spec fn sqrt_spec(x: nat) -> nat {
    kth_root_spec(x, 2)
}

/// Floor square root, pinned to `sqrt_spec`.
pub fn sqrt_floor(x: u128) -> (r: u64)
    requires
        x < 0x10_0000_0000_0000_0000_0000_0000u128,  // below 2^100
    ensures
        r as nat == sqrt_spec(x as nat),
        (r as int) * (r as int) <= x < (r + 1) * (r + 1),
        r <= 0x4_0000_0000_0000u64,
{
    let r = isqrt(x);
    proof {
        reveal_with_fuel(pow, 3);
        assert(pow(r as int, 2) == (r as int) * ((r as int) * 1));
        assert(pow((r + 1) as int, 2) == ((r + 1) as int) * (((r + 1) as int) * 1));
        lemma_kth_root_unique(x as nat, 2, r as nat);
    }
    r
}

/// A floor square root exists for every natural number.
pub proof fn lemma_sqrt_exists(x: nat)
    ensures
        exists|r: nat| #[trigger] pow(r as int, 2) <= x < pow((r + 1) as int, 2),
    decreases x,
{
    reveal_with_fuel(pow, 3);
    if x == 0 {
        assert(pow(0int, 2) == 0 * (0 * 1));
        assert(pow(1int, 2) == 1 * (1 * 1));
        assert(pow(0nat as int, 2) <= x < pow((0nat + 1) as int, 2));
    } else {
        lemma_sqrt_exists((x - 1) as nat);
        let r = choose|r: nat| #[trigger] pow(r as int, 2) <= x - 1 < pow((r + 1) as int, 2);
        if x < pow((r + 1) as int, 2) {
            assert(pow(r as int, 2) <= x < pow((r + 1) as int, 2));
        } else {
            assert(x == pow((r + 1) as int, 2));
            lemma_pow_strictly_increases_base(r + 1, r + 2, 2);
            assert(pow((r + 1) as int, 2) <= x < pow(((r + 1) + 1) as int, 2));
        }
    }
}

/// `pow` is strictly monotone in a positive base.
pub proof fn lemma_pow_strictly_increases_base(b: nat, c: nat, k: nat)
    requires
        b < c,
        k >= 1,
    ensures
        pow(b as int, k) < pow(c as int, k),
    decreases k,
{
    reveal_with_fuel(pow, 2);
    if k == 1 {
        assert(pow(b as int, 1) == b * pow(b as int, 0));
        assert(pow(c as int, 1) == c * pow(c as int, 0));
    } else {
        lemma_pow_strictly_increases_base(b, c, (k - 1) as nat);
        lemma_pow_nonneg(b, (k - 1) as nat);
        vstd::arithmetic::power::lemma_pow_positive(c as int, (k - 1) as nat);
        assert(pow(b as int, k) == b * pow(b as int, (k - 1) as nat));
        assert(pow(c as int, k) == c * pow(c as int, (k - 1) as nat));
        assert(b * pow(b as int, (k - 1) as nat) < c * pow(c as int, (k - 1) as nat))
            by (nonlinear_arith)
            requires
                0 <= b < c,
                0 <= pow(b as int, (k - 1) as nat) < pow(c as int, (k - 1) as nat),
                pow(c as int, (k - 1) as nat) >= 1,
        ;
    }
}

/// The defining property of `sqrt_spec`.
pub proof fn lemma_sqrt_spec_bounds(x: nat)
    ensures
        (sqrt_spec(x) * sqrt_spec(x)) <= x,
        x < (sqrt_spec(x) + 1) * (sqrt_spec(x) + 1),
{
    lemma_sqrt_exists(x);
    let r = sqrt_spec(x);
    assert(pow(r as int, 2) <= x < pow((r + 1) as int, 2));
    reveal_with_fuel(pow, 3);
    assert(pow(r as int, 2) == r * ((r as int) * 1));
    assert(pow((r + 1) as int, 2) == (r + 1) * (((r + 1) as int) * 1));
}

/// Quotient bound: if `|a| <= b * c` then `|a / b| <= c` for the
/// truncating division.
pub proof fn lemma_div_trunc_le(a: int, b: int, c: int)
    requires
        b >= 1,
        c >= 0,
        abs_int(a) <= b * c,
    ensures
        abs_int(div_trunc_spec(a, b)) <= c,
{
    if a >= 0 {
        vstd::arithmetic::div_mod::lemma_div_is_ordered(a, b * c, b);
        vstd::arithmetic::div_mod::lemma_div_pos_is_pos(a, b);
        assert((b * c) / b == c) by {
            vstd::arithmetic::div_mod::lemma_div_multiples_vanish(c, b);
        }
    } else {
        vstd::arithmetic::div_mod::lemma_div_is_ordered(-a, b * c, b);
        vstd::arithmetic::div_mod::lemma_div_pos_is_pos(-a, b);
        assert((b * c) / b == c) by {
            vstd::arithmetic::div_mod::lemma_div_multiples_vanish(c, b);
        }
    }
}

} // verus!
