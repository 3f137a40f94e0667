//! The position-history byte format: a little-endian 64-bit node count
//! and dimension, followed by snapshots of an iteration number and the
//! raw coordinates, row-major by vertex. The encoder's contract pins
//! every output byte through `le_value` over its chunk, so a reader of
//! the format recovers exactly the encoded history. Reading the format
//! back from a file is a concern of the surrounding runner.

use vstd::prelude::*;
use crate::dvec::DVec;

verus! {

/// The value a little-endian byte string denotes.
pub open spec fn le_value(bs: Seq<u8>) -> int
    decreases bs.len(),
{
    if bs.len() == 0 {
        0
    } else {
        bs[0] + 256 * le_value(bs.drop_first())
    }
}

/// One parsed snapshot: its iteration number and the positions.
#[derive(Debug)]
pub struct Iteration {
    pub number: u64,
    pub positions: Vec<DVec>,
}

/// A parsed history file.
#[derive(Debug)]
pub struct Iterations {
    pub entries: Vec<Iteration>,
}

impl Iterations {
    /// The parsed snapshots.
    pub fn iterations(&self) -> (r: &Vec<Iteration>)
        ensures
            r@ == self.entries@,
    {
        &self.entries
    }
}

/// Why a byte string was rejected.
#[derive(Clone, Copy, Debug, PartialEq, Eq)]
pub enum ParseError {
    /// Fewer bytes than a header, or a snapshot cut short.
    Truncated,
    /// The recorded dimension is not the expected one.
    DimensionMismatch,
}

/// The powers of 256 up to the eighth, step by step.
proof fn lemma_pow256()
    ensures
        vstd::arithmetic::power::pow(256, 0) == 1,
        vstd::arithmetic::power::pow(256, 4) == 0x1_0000_0000int,
        vstd::arithmetic::power::pow(256, 8) == 0x1_0000_0000_0000_0000int,
        forall|k: nat|
            k < 8 ==> #[trigger] vstd::arithmetic::power::pow(256, (k + 1) as nat) == 256
                * vstd::arithmetic::power::pow(256, k),
{
    reveal(vstd::arithmetic::power::pow);
    assert(vstd::arithmetic::power::pow(256, 0) == 1);
    assert forall|k: nat|
        k < 8 implies #[trigger] vstd::arithmetic::power::pow(256, (k + 1) as nat) == 256
        * vstd::arithmetic::power::pow(256, k) by {
        vstd::arithmetic::power::lemma_pow_adds(256, 1, k);
        assert(vstd::arithmetic::power::pow(256int, 1) == 256) by {
            vstd::arithmetic::power::lemma_pow1(256int);
        }
        assert(vstd::arithmetic::power::pow(256int, 1) * vstd::arithmetic::power::pow(256int, k)
            == 256 * vstd::arithmetic::power::pow(256int, k));
    }
    assert(vstd::arithmetic::power::pow(256, 1) == 256 * vstd::arithmetic::power::pow(256, 0));
    assert(vstd::arithmetic::power::pow(256, 2) == 256 * vstd::arithmetic::power::pow(256, 1));
    assert(vstd::arithmetic::power::pow(256, 3) == 256 * vstd::arithmetic::power::pow(256, 2));
    assert(vstd::arithmetic::power::pow(256, 4) == 256 * vstd::arithmetic::power::pow(256, 3));
    assert(vstd::arithmetic::power::pow(256, 5) == 256 * vstd::arithmetic::power::pow(256, 4));
    assert(vstd::arithmetic::power::pow(256, 6) == 256 * vstd::arithmetic::power::pow(256, 5));
    assert(vstd::arithmetic::power::pow(256, 7) == 256 * vstd::arithmetic::power::pow(256, 6));
    assert(vstd::arithmetic::power::pow(256, 8) == 256 * vstd::arithmetic::power::pow(256, 7));
}

/// Append the eight little-endian bytes of `x`.
fn push_u64_le(out: &mut Vec<u8>, x: u64)
    ensures
        final(out)@.len() == old(out)@.len() + 8,
        final(out)@.subrange(0, old(out)@.len() as int) == old(out)@,
        le_value(final(out)@.subrange(old(out)@.len() as int, final(out)@.len() as int))
            == x as int,
{
    let ghost base = out@.len() as int;
    let mut rest: u64 = x;
    let mut k: usize = 0;
    proof {
        lemma_pow256();
        assert(out@.subrange(base, base) =~= Seq::<u8>::empty());
        assert(out@.subrange(0, base) =~= out@);
        assert((rest as int) * 1 == rest as int);
    }
    while k < 8
        invariant
            k <= 8,
            0 <= base,
            out@.len() == base + k,
            out@.subrange(0, base) == old(out)@,
            x as int == le_value(out@.subrange(base, out@.len() as int)) + rest
                * vstd::arithmetic::power::pow(256, k as nat),
        decreases 8 - k,
    {
        let ghost pre = out@;
        let b: u8 = (rest % 256) as u8;
        out.push(b);
        proof {
            lemma_pow256();
            assert(pre.subrange(0, base) =~= out@.subrange(0, base));
            lemma_le_append(pre.subrange(base, pre.len() as int), b);
            assert(out@.subrange(base, out@.len() as int) =~= pre.subrange(
                base,
                pre.len() as int,
            ).push(b));
            vstd::arithmetic::div_mod::lemma_fundamental_div_mod(rest as int, 256);
            let p = vstd::arithmetic::power::pow(256, k as nat);
            assert((rest as int) * p == ((rest as int) % 256) * p + ((rest as int) / 256) * (256
                * p)) by (nonlinear_arith)
                requires
                    rest as int == 256 * ((rest as int) / 256) + (rest as int) % 256,
            ;
        }
        rest = rest / 256;
        k = k + 1;
    }
    proof {
        lemma_pow256();
        lemma_le_nonneg(out@.subrange(base, out@.len() as int));
        assert(rest == 0) by {
            if rest > 0 {
                assert((rest as int) * 0x1_0000_0000_0000_0000int >= 0x1_0000_0000_0000_0000int)
                    by (nonlinear_arith)
                    requires
                        rest >= 1,
                ;
            }
        }
    }
}

/// Appending a byte adds its place value at the top.
proof fn lemma_le_append(bs: Seq<u8>, b: u8)
    ensures
        le_value(bs.push(b)) == le_value(bs) + b * vstd::arithmetic::power::pow(256, bs.len()),
    decreases bs.len(),
{
    reveal_with_fuel(vstd::arithmetic::power::pow, 2);
    if bs.len() == 0 {
        assert(bs.push(b) =~= seq![b]);
        assert(le_value(seq![b].drop_first()) == 0) by {
            assert(seq![b].drop_first() =~= Seq::<u8>::empty());
        }
    } else {
        assert(bs.push(b).drop_first() =~= bs.drop_first().push(b));
        lemma_le_append(bs.drop_first(), b);
        vstd::arithmetic::power::lemma_pow_adds(256, 1, (bs.len() - 1) as nat);
        let p1 = vstd::arithmetic::power::pow(256, (bs.len() - 1) as nat);
        assert(256 * (le_value(bs.drop_first()) + b * p1) == 256 * le_value(bs.drop_first()) + b
            * (256 * p1)) by (nonlinear_arith);
        assert(vstd::arithmetic::power::pow(256, bs.len()) == 256 * p1) by {
            assert(vstd::arithmetic::power::pow(256, 1) == 256);
        }
    }
}

/// Little-endian values are never negative.
proof fn lemma_le_nonneg(bs: Seq<u8>)
    ensures
        le_value(bs) >= 0,
    decreases bs.len(),
{
    if bs.len() > 0 {
        lemma_le_nonneg(bs.drop_first());
    }
}

/// Append the four little-endian bytes of `x`.
fn push_u32_le(out: &mut Vec<u8>, x: u32)
    ensures
        final(out)@.len() == old(out)@.len() + 4,
        final(out)@.subrange(0, old(out)@.len() as int) == old(out)@,
        le_value(final(out)@.subrange(old(out)@.len() as int, final(out)@.len() as int))
            == x as int,
{
    let ghost base = out@.len() as int;
    let mut rest: u32 = x;
    let mut k: usize = 0;
    proof {
        lemma_pow256();
        assert(out@.subrange(base, base) =~= Seq::<u8>::empty());
        assert(out@.subrange(0, base) =~= out@);
        assert((rest as int) * 1 == rest as int);
    }
    while k < 4
        invariant
            k <= 4,
            0 <= base,
            out@.len() == base + k,
            out@.subrange(0, base) == old(out)@,
            x as int == le_value(out@.subrange(base, out@.len() as int)) + rest
                * vstd::arithmetic::power::pow(256, k as nat),
        decreases 4 - k,
    {
        let ghost pre = out@;
        let b: u8 = (rest % 256) as u8;
        out.push(b);
        proof {
            lemma_pow256();
            assert(pre.subrange(0, base) =~= out@.subrange(0, base));
            lemma_le_append(pre.subrange(base, pre.len() as int), b);
            assert(out@.subrange(base, out@.len() as int) =~= pre.subrange(
                base,
                pre.len() as int,
            ).push(b));
            vstd::arithmetic::div_mod::lemma_fundamental_div_mod(rest as int, 256);
            let p = vstd::arithmetic::power::pow(256, k as nat);
            assert((rest as int) * p == ((rest as int) % 256) * p + ((rest as int) / 256) * (256
                * p)) by (nonlinear_arith)
                requires
                    rest as int == 256 * ((rest as int) / 256) + (rest as int) % 256,
            ;
        }
        rest = rest / 256;
        k = k + 1;
    }
    proof {
        lemma_pow256();
        lemma_le_nonneg(out@.subrange(base, out@.len() as int));
        assert(rest == 0) by {
            if rest > 0 {
                assert((rest as int) * 0x1_0000_0000int >= 0x1_0000_0000int) by (nonlinear_arith)
                    requires
                        rest >= 1,
                ;
            }
        }
    }
}

/// Encode a position history: the node count and dimension as
/// little-endian 64-bit values, then each sampled snapshot as its
/// iteration number followed by every coordinate as a little-endian
/// 32-bit value, row-major by vertex.
/// Byte offset of snapshot `e` in an encoded history.
pub open spec fn snap_offset(e: int, n: int, dim: int) -> int {
    16 + e * (8 + n * dim * 4)
}

/// Byte offset of coordinate `i` of vertex `v` in snapshot `e`.
pub open spec fn coord_offset(e: int, v: int, i: int, n: int, dim: int) -> int {
    snap_offset(e, n, dim) + 8 + (v * dim + i) * 4
}

/// Bytes beyond a preserved prefix keep every subrange of it.
proof fn lemma_prefix_subrange(pre: Seq<u8>, post: Seq<u8>, a: int, b: int)
    requires
        0 <= a <= b <= pre.len(),
        post.len() >= pre.len(),
        post.subrange(0, pre.len() as int) == pre,
    ensures
        post.subrange(a, b) == pre.subrange(a, b),
{
    assert(post.subrange(a, b) =~= pre.subrange(a, b)) by {
        assert forall|j: int| 0 <= j < b - a implies post.subrange(a, b)[j] == pre.subrange(
            a,
            b,
        )[j] by {
            assert(post.subrange(0, pre.len() as int)[a + j] == pre[a + j]);
        }
    }
}

/// Encode a position history: the node count and dimension as
/// little-endian 64-bit values, then each sampled snapshot as its
/// iteration number followed by every coordinate as a little-endian
/// 32-bit value (two's complement), row-major by vertex. Every byte of
/// the output is pinned through `le_value` over its chunk.
pub fn encode_history(n: u64, dim: u64, entries: &Vec<(u64, Vec<DVec>)>) -> (out: Vec<u8>)
    requires
        dim <= 1024,
        n <= 0x100_0000,
        forall|e: int| 0 <= e < entries@.len() ==> (#[trigger] entries@[e]).1@.len() == n,
        forall|e: int, v: int|
            0 <= e < entries@.len() && 0 <= v < n ==> (#[trigger] entries@[e].1@[v])@.len() == dim,
    ensures
        out@.len() == 16 + entries@.len() * ((8 + n * dim * 4) as int),
        le_value(out@.subrange(0, 8)) == n as int,
        le_value(out@.subrange(8, 16)) == dim as int,
        forall|e: int|
            0 <= e < entries@.len() ==> le_value(
                out@.subrange(
                    snap_offset(e, n as int, dim as int),
                    snap_offset(e, n as int, dim as int) + 8,
                ),
            ) == (#[trigger] entries@[e]).0 as int,
        forall|e: int, v: int, i: int|
            #![trigger entries@[e].1@[v]@[i]]
            0 <= e < entries@.len() && 0 <= v < n && 0 <= i < dim ==> le_value(
                out@.subrange(
                    coord_offset(e, v, i, n as int, dim as int),
                    coord_offset(e, v, i, n as int, dim as int) + 4,
                ),
            ) == ((entries@[e].1@[v]@[i]) as u32) as int,
{
    let mut out: Vec<u8> = Vec::new();
    push_u64_le(&mut out, n);
    let ghost after_n = out@;
    push_u64_le(&mut out, dim);
    let ghost header = out@;
    proof {
        assert(header.subrange(0, 8) =~= after_n.subrange(0, 8));
        assert(after_n.subrange(0, 8) =~= after_n);
        assert(header.subrange(8, 16) =~= header.subrange(8, header.len() as int));
    }
    proof {
        assert(n * dim <= 0x100_0000int * 1024 && (n * dim) * 4 == n * dim * 4 && 0 <= n * dim)
            by (nonlinear_arith)
            requires
                n <= 0x100_0000,
                dim <= 1024,
        ;
    }
    let per_entry: u64 = 8 + n * dim * 4;
    let mut e: usize = 0;
    while e < entries.len()
        invariant
            e <= entries@.len(),
            per_entry == 8 + n * dim * 4,
            n <= 0x100_0000,
            dim <= 1024,
            forall|e2: int| 0 <= e2 < entries@.len() ==> (#[trigger] entries@[e2]).1@.len() == n,
            forall|e2: int, v: int|
                0 <= e2 < entries@.len() && 0 <= v < n ==> (#[trigger] entries@[e2].1@[v])@.len()
                    == dim,
            out@.len() == 16 + e * per_entry,
            out@.subrange(0, 16) == header,
            le_value(header.subrange(0, 8)) == n as int,
            le_value(header.subrange(8, 16)) == dim as int,
            forall|e2: int|
                0 <= e2 < e ==> le_value(
                    out@.subrange(
                        snap_offset(e2, n as int, dim as int),
                        snap_offset(e2, n as int, dim as int) + 8,
                    ),
                ) == (#[trigger] entries@[e2]).0 as int,
            forall|e2: int, v: int, i: int|
                #![trigger entries@[e2].1@[v]@[i]]
                0 <= e2 < e && 0 <= v < n && 0 <= i < dim ==> le_value(
                    out@.subrange(
                        coord_offset(e2, v, i, n as int, dim as int),
                        coord_offset(e2, v, i, n as int, dim as int) + 4,
                    ),
                ) == ((entries@[e2].1@[v]@[i]) as u32) as int,
        decreases entries@.len() - e,
    {
        let ghost pre_e = out@;
        proof {
            // every already written chunk lies inside the current bytes
            assert forall|e2: int| 0 <= e2 < e implies snap_offset(e2, n as int, dim as int) + (
            per_entry as int) <= pre_e.len() by {
                assert((e2 + 1) * (per_entry as int) <= e * (per_entry as int))
                    by (nonlinear_arith)
                    requires
                        e2 + 1 <= e,
                        per_entry >= 0,
                ;
                assert((e2 + 1) * (per_entry as int) == e2 * (per_entry as int) + per_entry)
                    by (nonlinear_arith);
            }
        }
        push_u64_le(&mut out, entries[e].0);
        let ghost stable = out@;
        proof {
            assert(stable.subrange(0, pre_e.len() as int) == pre_e);
            assert(le_value(stable.subrange(pre_e.len() as int, stable.len() as int)) == entries@[
                e as int].0 as int);
        }
        let snapshot = &entries[e].1;
        let mut v: usize = 0;
        while v < snapshot.len()
            invariant
                v <= snapshot@.len(),
                snapshot@ == entries@[e as int].1@,
                e < entries@.len(),
                snapshot@.len() == n,
                dim <= 1024,
                n <= 0x100_0000,
                pre_e.len() >= 16,
                stable.len() == pre_e.len() + 8,
                forall|v2: int| 0 <= v2 < n ==> (#[trigger] snapshot@[v2])@.len() == dim,
                out@.len() == stable.len() + v * (dim * 4),
                out@.subrange(0, stable.len() as int) == stable,
                forall|v2: int, i: int|
                    #![trigger snapshot@[v2]@[i]]
                    0 <= v2 < v && 0 <= i < dim ==> le_value(
                        out@.subrange(
                            stable.len() + (v2 * dim + i) * 4,
                            stable.len() + (v2 * dim + i) * 4 + 4,
                        ),
                    ) == ((snapshot@[v2]@[i]) as u32) as int,
            decreases snapshot@.len() - v,
        {
            let ghost mid_pre = out@;
            proof {
                // the chunks of earlier vertices sit inside the current
                // bytes
                assert forall|v2: int, i: int|
                    #![trigger snapshot@[v2]@[i]]
                    0 <= v2 < v && 0 <= i < dim implies stable.len() + (v2 * dim + i) * 4 + 4
                    <= mid_pre.len() by {
                    assert((v2 * dim + i) * 4 + 4 <= v * (dim * 4)) by (nonlinear_arith)
                        requires
                            0 <= v2 < v,
                            0 <= i < dim,
                    ;
                }
            }
            let p = &snapshot[v];
            let d = p.dim();
            let mut i: usize = 0;
            while i < d
                invariant
                    i <= d,
                    d == dim,
                    v < snapshot@.len(),
                    p@ == snapshot@[v as int]@,
                    p@.len() == d,
                    pre_e.len() >= 16,
                    stable.len() == pre_e.len() + 8,
                    mid_pre.len() == stable.len() + v * (dim * 4),
                    out@.len() == mid_pre.len() + i * 4,
                    out@.subrange(0, mid_pre.len() as int) == mid_pre,
                    forall|i2: int|
                        0 <= i2 < i ==> le_value(
                            #[trigger] out@.subrange(
                                mid_pre.len() + i2 * 4,
                                mid_pre.len() + i2 * 4 + 4,
                            ),
                        ) == ((p@[i2]) as u32) as int,
                decreases d - i,
            {
                let ghost pre_push = out@;
                let c = p.get(i);
                push_u32_le(&mut out, c as u32);
                proof {
                    lemma_prefix_subrange(pre_push, out@, 0, mid_pre.len() as int);
                    assert forall|i2: int|
                        0 <= i2 < i + 1 implies le_value(
                        #[trigger] out@.subrange(
                            mid_pre.len() + i2 * 4,
                            mid_pre.len() + i2 * 4 + 4,
                        ),
                    ) == ((p@[i2]) as u32) as int by {
                        if i2 < i {
                            lemma_prefix_subrange(
                                pre_push,
                                out@,
                                mid_pre.len() + i2 * 4,
                                mid_pre.len() + i2 * 4 + 4,
                            );
                        } else {
                            assert(out@.subrange(
                                mid_pre.len() + i2 * 4,
                                mid_pre.len() + i2 * 4 + 4,
                            ) =~= out@.subrange(pre_push.len() as int, out@.len() as int));
                            assert(c as int == p@[i as int]);
                            assert((c as u32) as int == ((p@[i as int]) as u32) as int);
                        }
                    }
                }
                i = i + 1;
            }
            proof {
                assert((v + 1) * ((dim * 4) as int) == v * ((dim * 4) as int) + dim * 4)
                    by (nonlinear_arith);
                lemma_prefix_subrange(mid_pre, out@, 0, stable.len() as int);
                assert forall|v2: int, i: int|
                    #![trigger snapshot@[v2]@[i]]
                    0 <= v2 < v + 1 && 0 <= i < dim implies le_value(
                    out@.subrange(
                        stable.len() + (v2 * dim + i) * 4,
                        stable.len() + (v2 * dim + i) * 4 + 4,
                    ),
                ) == ((snapshot@[v2]@[i]) as u32) as int by {
                    if v2 < v {
                        assert(stable.len() + (v2 * dim) + i <= mid_pre.len() || true);
                        assert((v2 * dim + i) * 4 + 4 <= v * (dim * 4)) by (nonlinear_arith)
                            requires
                                0 <= v2 < v,
                                0 <= i < dim,
                        ;
                        lemma_prefix_subrange(
                            mid_pre,
                            out@,
                            stable.len() + (v2 * dim + i) * 4,
                            stable.len() + (v2 * dim + i) * 4 + 4,
                        );
                    } else {
                        assert(v2 == v);
                        assert((v2 * dim + i) * 4 == v * (dim * 4) + i * 4) by (nonlinear_arith)
                            requires
                                v2 == v,
                        ;
                        assert(le_value(
                            out@.subrange(
                                mid_pre.len() + i * 4,
                                mid_pre.len() + i * 4 + 4,
                            ),
                        ) == ((p@[i]) as u32) as int);
                    }
                }
            }
            v = v + 1;
        }
        proof {
            assert((e + 1) * (per_entry as int) == e * (per_entry as int) + per_entry)
                by (nonlinear_arith);
            assert(n * ((dim * 4) as int) == (n * dim * 4) as int) by (nonlinear_arith);
            lemma_prefix_subrange(stable, out@, 0, 16);
            assert(out@.subrange(0, 16) =~= header);
            // bytes of the finished entries, including this one, are in
            // their final place
            lemma_prefix_subrange(stable, out@, 0, pre_e.len() as int);
            assert(out@.subrange(0, pre_e.len() as int) == pre_e);
            assert forall|e2: int|
                0 <= e2 < e + 1 implies le_value(
                out@.subrange(
                    snap_offset(e2, n as int, dim as int),
                    snap_offset(e2, n as int, dim as int) + 8,
                ),
            ) == (#[trigger] entries@[e2]).0 as int by {
                if e2 < e {
                    lemma_prefix_subrange(
                        pre_e,
                        out@,
                        snap_offset(e2, n as int, dim as int),
                        snap_offset(e2, n as int, dim as int) + 8,
                    );
                } else {
                    assert(snap_offset(e2, n as int, dim as int) == pre_e.len());
                    lemma_prefix_subrange(
                        stable,
                        out@,
                        pre_e.len() as int,
                        stable.len() as int,
                    );
                    assert(stable.subrange(pre_e.len() as int, stable.len() as int)
                        == out@.subrange(pre_e.len() as int, stable.len() as int));
                }
            }
            assert forall|e2: int, v2: int, i: int|
                #![trigger entries@[e2].1@[v2]@[i]]
                0 <= e2 < e + 1 && 0 <= v2 < n && 0 <= i < dim implies le_value(
                out@.subrange(
                    coord_offset(e2, v2, i, n as int, dim as int),
                    coord_offset(e2, v2, i, n as int, dim as int) + 4,
                ),
            ) == ((entries@[e2].1@[v2]@[i]) as u32) as int by {
                if e2 < e {
                    assert(coord_offset(e2, v2, i, n as int, dim as int) + 4 <= pre_e.len()) by {
                        assert((v2 * dim + i) * 4 + 4 <= n * dim * 4) by (nonlinear_arith)
                            requires
                                0 <= v2 < n,
                                0 <= i < dim,
                        ;
                        assert((e2 + 1) * (per_entry as int) <= e * (per_entry as int))
                            by (nonlinear_arith)
                            requires
                                e2 + 1 <= e,
                                per_entry >= 0,
                        ;
                    }
                    lemma_prefix_subrange(
                        pre_e,
                        out@,
                        coord_offset(e2, v2, i, n as int, dim as int),
                        coord_offset(e2, v2, i, n as int, dim as int) + 4,
                    );
                } else {
                    assert(e2 == e);
                    assert(coord_offset(e2, v2, i, n as int, dim as int) == stable.len() + (v2
                        * dim + i) * 4);
                    assert(le_value(
                        out@.subrange(
                            stable.len() + (v2 * dim + i) * 4,
                            stable.len() + (v2 * dim + i) * 4 + 4,
                        ),
                    ) == ((snapshot@[v2]@[i]) as u32) as int);
                }
            }
        }
        e = e + 1;
    }
    proof {
        assert(out@.subrange(0, 8) =~= out@.subrange(0, 16).subrange(0, 8));
        assert(out@.subrange(8, 16) =~= out@.subrange(0, 16).subrange(8, 16));
        assert(header.subrange(0, 8) =~= out@.subrange(0, 8));
        assert(header.subrange(8, 16) =~= out@.subrange(8, 16));
    }
    out
}

} // verus!
