//! Square roots of binary32 and binary64 encodings, correctly rounded to
//! nearest.
//!
//! The significand is normalised (subnormals included) and scaled by `2^md`
//! or `2^(md+1)` so that the remaining power of two is even; the result's
//! significand is then the integer square root of that scaled significand,
//! rounded to nearest, and its exponent is half the remaining one.
//!
//! For binary32 a reciprocal-square-root seed from a 128-entry table is
//! refined by two Newton-Raphson steps in 32-bit fixed point, and the
//! estimate is settled to the exact integer root. For binary64 integer
//! Newton-Raphson steps run from above in 128-bit arithmetic. Either way one
//! comparison of the remainder decides the rounding, so the result does not
//! rest on the accuracy of the estimate.
use vstd::arithmetic::div_mod::*;
use vstd::arithmetic::mul::*;
use vstd::arithmetic::power2::*;
use vstd::bits::*;
use vstd::prelude::*;

use crate::encoding::{
    encode, exp_field, exp_special, exponent, is_encoding, is_finite, is_format, is_infinite,
    is_nan, lemma_encode_fields, lemma_fields_encode, lemma_magnitude_zero,
    lemma_zero_iff_no_magnitude_bits, magnitude, man_field, mantissa_mask, one, one_exp, scale,
    sign_bit, significand,
};

verus! {

/// Seeds for `1/sqrt` in 16-bit fixed point, indexed by the lowest exponent
/// bit and the six leading mantissa bits.
const RSQRT_TAB: [u16; 128] = [
    0xb451, 0xb2f0, 0xb196, 0xb044, 0xaef9, 0xadb6, 0xac79, 0xab43, 0xaa14, 0xa8eb, 0xa7c8, 0xa6aa,
    0xa592, 0xa480, 0xa373, 0xa26b, 0xa168, 0xa06a, 0x9f70, 0x9e7b, 0x9d8a, 0x9c9d, 0x9bb5, 0x9ad1,
    0x99f0, 0x9913, 0x983a, 0x9765, 0x9693, 0x95c4, 0x94f8, 0x9430, 0x936b, 0x92a9, 0x91ea, 0x912e,
    0x9075, 0x8fbe, 0x8f0a, 0x8e59, 0x8daa, 0x8cfe, 0x8c54, 0x8bac, 0x8b07, 0x8a64, 0x89c4, 0x8925,
    0x8889, 0x87ee, 0x8756, 0x86c0, 0x862b, 0x8599, 0x8508, 0x8479, 0x83ec, 0x8361, 0x82d8, 0x8250,
    0x81c9, 0x8145, 0x80c2, 0x8040, 0xff02, 0xfd0e, 0xfb25, 0xf947, 0xf773, 0xf5aa, 0xf3ea, 0xf234,
    0xf087, 0xeee3, 0xed47, 0xebb3, 0xea27, 0xe8a3, 0xe727, 0xe5b2, 0xe443, 0xe2dc, 0xe17a, 0xe020,
    0xdecb, 0xdd7d, 0xdc34, 0xdaf1, 0xd9b3, 0xd87b, 0xd748, 0xd61a, 0xd4f1, 0xd3cd, 0xd2ad, 0xd192,
    0xd07b, 0xcf69, 0xce5b, 0xcd51, 0xcc4a, 0xcb48, 0xca4a, 0xc94f, 0xc858, 0xc764, 0xc674, 0xc587,
    0xc49d, 0xc3b7, 0xc2d4, 0xc1f4, 0xc116, 0xc03c, 0xbf65, 0xbe90, 0xbdbe, 0xbcef, 0xbc23, 0xbb59,
    0xba91, 0xb9cc, 0xb90a, 0xb84a, 0xb78c, 0xb6d0, 0xb617, 0xb560,
];

/// The high half of the 64-bit product: `a * b * 2^-32`, rounded down.
pub fn mul32(a: u32, b: u32) -> (r: u32)
    ensures
        r as int == (a as int * b as int) / 0x1_0000_0000,
{
    proof {
        assert(a as int * b as int <= 0xffff_ffff * 0xffff_ffff) by (nonlinear_arith)
            requires
                a <= 0xffff_ffff,
                b <= 0xffff_ffff,
        ;
    }
    let p = (a as u64) * (b as u64);
    proof {
        lemma_u64_shr_is_div(p, 32);
        lemma2_to64();
    }
    (p >> 32) as u32
}


/// `r` is the positive normal encoding nearest to the square root of `x`:
/// scaled by four, `sqrt(x)` lies strictly between the midpoints from `r`
/// to its two neighbours. The neighbour below is half as far when `r` is
/// the least value of its binade.
pub open spec fn is_rounded_sqrt(x: int, r: int, md: nat, ew: nat) -> bool {
    let h = pow2(scale(r, md, ew)) as int;
    let rr = 4 * magnitude(r, md, ew);
    let below = if man_field(r, md) == 0 && exp_field(r, md, ew) > 1 {
        h
    } else {
        2 * h
    };
    // (4 * sqrt(x))^2 on the scale of `magnitude(r)`.
    let t = 16 * magnitude(x, md, ew) * one(md, ew);
    &&& exp_field(r, md, ew) >= 1
    &&& (rr - below) * (rr - below) < t
    &&& t < (rr + 2 * h) * (rr + 2 * h)
}

/// What the square root returns: `+inf` and both zeros unchanged; a NaN
/// for NaN and for every negative number; otherwise the correctly rounded
/// square root, positive and finite.
pub open spec fn sqrt_post(x: int, r: int, md: nat, ew: nat) -> bool {
    &&& is_encoding(r, md, ew)
    &&& if (is_finite(x, md, ew) && magnitude(x, md, ew) == 0) || (is_infinite(x, md, ew)
        && !sign_bit(x, md, ew)) {
        r == x
    } else if is_nan(x, md, ew) || sign_bit(x, md, ew) {
        is_nan(r, md, ew)
    } else {
        &&& is_finite(r, md, ew)
        &&& !sign_bit(r, md, ew)
        &&& is_rounded_sqrt(x, r, md, ew)
    }
}

/// Fixed-point estimate of `sqrt(m * 2^16)` for `m` in `[2^30, 2^32)`: the
/// table seed for `1/sqrt` refined by two Newton-Raphson steps, carried out
/// in wrapping 32-bit arithmetic.
fn sqrt_estimate(m: u32, idx: usize) -> u32
    requires
        idx < 128,
{
    let three: u32 = 0xc000_0000;
    let mut r: u32 = (RSQRT_TAB[idx] as u32) << 16;
    let mut s: u32 = mul32(m, r);
    let mut d: u32 = mul32(s, r);
    let mut u: u32 = three.wrapping_sub(d);
    r = mul32(r, u) << 1;
    s = mul32(s, u) << 1;
    d = mul32(s, r);
    u = three.wrapping_sub(d);
    s = mul32(s, u);
    s.wrapping_sub(1) >> 6
}

proof fn lemma_square_bound(s: u64)
    requires
        s <= 0xff_ffff,
    ensures
        s * s < (s + 1) * (s + 1) <= 0x1_0000_0000_0000,
{
    assert(s * s < (s + 1) * (s + 1) <= 0x1_0000_0000_0000) by (nonlinear_arith)
        requires
            s <= 0xff_ffff,
    ;
}

/// The integer square root of `n`, rounded to nearest, found from an
/// estimate: the estimate is moved to `floor(sqrt(n))`, and the remainder
/// decides whether the next integer is nearer.
fn settle_sqrt(n: u64, guess: u32) -> (s: u64)
    requires
        0x4000_0000_0000 <= n <= 0xffff_ff00_0000,
    ensures
        0x80_0000 <= s <= 0xff_ffff,
        (2 * s - 1) * (2 * s - 1) < 4 * n < (2 * s + 1) * (2 * s + 1),
{
    let mut s: u64 = guess as u64;
    if s < 0x80_0000 {
        s = 0x80_0000;
    }
    if s > 0xff_ffff {
        s = 0xff_ffff;
    }
    proof {
        lemma_square_bound(s);
    }
    while s * s > n
        invariant
            0x80_0000 <= s <= 0xff_ffff,
            (s + 1) * (s + 1) <= 0x1_0000_0000_0000,
            s * s < 0x1_0000_0000_0000,
            0x4000_0000_0000 <= n <= 0xffff_ff00_0000,
        decreases s,
    {
        proof {
            assert(s > 0x80_0000) by (nonlinear_arith)
                requires
                    s * s > n,
                    n >= 0x4000_0000_0000,
                    s >= 0x80_0000,
            ;
        }
        s = s - 1;
        proof {
            lemma_square_bound(s);
        }
    }
    while (s + 1) * (s + 1) <= n
        invariant
            0x80_0000 <= s <= 0xff_ffff,
            (s + 1) * (s + 1) <= 0x1_0000_0000_0000,
            s * s < 0x1_0000_0000_0000,
            s * s <= n,
            0x4000_0000_0000 <= n <= 0xffff_ff00_0000,
        decreases 0x100_0000 - s,
    {
        proof {
            assert(s + 1 < 0x100_0000) by (nonlinear_arith)
                requires
                    (s + 1) * (s + 1) <= n,
                    n <= 0xffff_ff00_0000,
                    s >= 0,
            ;
        }
        s = s + 1;
        proof {
            lemma_square_bound(s);
        }
    }
    // s = floor(sqrt(n)); the nearer of s and s + 1 is s + 1 exactly when
    // n - s^2 > s, as (s + 1/2)^2 = s^2 + s + 1/4.
    let d0 = n - s * s;
    if d0 > s {
        proof {
            assert(s + 1 <= 0xff_ffff) by (nonlinear_arith)
                requires
                    n - s * s > s,
                    n <= 0xffff_ff00_0000,
                    s <= 0xff_ffff,
            ;
            assert((2 * (s + 1) - 1) * (2 * (s + 1) - 1) < 4 * n < (2 * (s + 1) + 1) * (2 * (s + 1) + 1)) by (nonlinear_arith)
                requires
                    n - s * s > s,
                    n < (s + 1) * (s + 1),
                    s >= 0,
            ;
        }
        s + 1
    } else {
        proof {
            assert((2 * s - 1) * (2 * s - 1) < 4 * n < (2 * s + 1) * (2 * s + 1)) by (nonlinear_arith)
                requires
                    n - s * s <= s,
                    s * s <= n,
                    s >= 1,
            ;
        }
        s
    }
}


/// Square root of a binary32 encoding, correctly rounded to nearest.
pub fn sqrt_f32(x: u32) -> (r: u32)
    ensures
        sqrt_post(x as int, r as int, 23, 8),
{
    let b = x as u64;
    proof {
        lemma2_to64();
        lemma_fields_encode(b as int, 23, 8);
        lemma_magnitude_zero(b as int, 23, 8);
        lemma_zero_iff_no_magnitude_bits(b, 23, 8);
        assert((b & !(0x8000_0000u64) == 0) == (x & 0x7fff_ffff == 0)) by (bit_vector)
            requires
                b == x as u64,
        ;
        lemma_encode_fields(false, 255, 0, 23, 8);
    }
    if x == 0x7f80_0000 || x & 0x7fff_ffff == 0 {
        return x;
    }
    let e = exponent(b, 23, 8);
    if e == 0xff || x >= 0x8000_0000 {
        proof {
            lemma_encode_fields(false, 255, 0x40_0000, 23, 8);
        }
        return 0x7fc0_0000;
    }
    // A positive, finite, non-zero number: bring its significand to
    // [2^23, 2^24), counting the shifts of a subnormal.
    let ghost sg = significand(b as int, 23, 8);
    let ghost sc = scale(b as int, 23, 8);
    let man = b & mantissa_mask(23);
    proof {
        lemma_u64_low_bits_mask_is_mod(b, 23);
        assert(man == man_field(b as int, 23));
        lemma_pow2_pos(sc);
        assert(sg != 0) by {
            if sg == 0 {
                assert(magnitude(b as int, 23, 8) == 0);
            }
        }
    }
    let e1: u64 = if e == 0 {
        1
    } else {
        e
    };
    let mut sig: u64 = if e == 0 {
        man
    } else {
        man + 0x80_0000
    };
    let mut j: u64 = 0;
    while sig < 0x80_0000
        invariant
            sig == sg * pow2(j as nat),
            0 < sig < 0x100_0000,
            sg >= 1,
            j <= 23,
        decreases 23 - j,
    {
        proof {
            lemma_pow2_unfold((j + 1) as nat);
            lemma_pow2_pos(j as nat);
            lemma_mul_increases(sg, pow2(j as nat) as int);
            if j >= 23 {
                lemma2_to64();
                if j > 23 {
                    lemma_pow2_strictly_increases(23, j as nat);
                }
                assert(false);
            }
            assert(sig * 2 == sg * pow2((j + 1) as nat)) by (nonlinear_arith)
                requires
                    sig == sg * pow2(j as nat),
                    pow2((j + 1) as nat) == 2 * pow2(j as nat),
            ;
        }
        sig = sig * 2;
        j = j + 1;
    }
    // The scaled significand n = sig * 2^t, with t making the remaining
    // power of two even: sqrt(x) = sqrt(n) * 2^(er - 1) on the scale of
    // the least subnormal.
    let odd = (e1 + j) % 2 == 1;
    let t: u64 = if odd {
        23
    } else {
        24
    };
    let m: u32 = if odd {
        (sig * 0x80) as u32
    } else {
        (sig * 0x100) as u32
    };
    let n: u64 = (m as u64) * 0x1_0000;
    let idx = (((e1 + j) % 2) * 64 + (sig / 0x2_0000) % 64) as usize;
    let est = sqrt_estimate(m, idx);
    let s = settle_sqrt(n, est);
    let er = (e1 + 150 - j - t) / 2;
    let r = er * 0x80_0000 + (s - 0x80_0000);
    proof {
        assert(one_exp(23, 8) == 149);
        lemma_sqrt_result(
            b as int,
            sg,
            sig as int,
            j as nat,
            t as nat,
            e1 as int,
            n as int,
            s as int,
            er as int,
            23,
            8,
        );
    }
    r as u32
}

/// The result assembled from the rounded root `s` of the scaled
/// significand `n` is the nearest encoding to the square root.
proof fn lemma_sqrt_result(
    b: int,
    sg: int,
    sig: int,
    j: nat,
    t: nat,
    e1: int,
    n: int,
    s: int,
    er: int,
    md: nat,
    ew: nat,
)
    requires
        is_format(md, ew),
        is_encoding(b, md, ew),
        is_finite(b, md, ew),
        sg == significand(b, md, ew),
        e1 - 1 == scale(b, md, ew),
        1 <= e1 < exp_special(ew),
        sig == sg * pow2(j),
        pow2(md) <= sig < 2 * pow2(md),
        j <= md,
        t == md || t == md + 1,
        t == md <==> (e1 + j) % 2 == 1,
        n == sig * pow2(t),
        pow2(md) <= s < 2 * pow2(md),
        (2 * s - 1) * (2 * s - 1) < 4 * n < (2 * s + 1) * (2 * s + 1),
        n >= pow2(md) * pow2(md),
        er == (e1 + one_exp(md, ew) + 1 - j - t) / 2,
    ensures
        ({
            let r = er * pow2(md) + (s - pow2(md));
            &&& r == encode(false, er, s - pow2(md), md, ew)
            &&& is_encoding(r, md, ew)
            &&& is_finite(r, md, ew)
            &&& !sign_bit(r, md, ew)
            &&& is_rounded_sqrt(b, r, md, ew)
        }),
{
    lemma2_to64();
    let p = pow2(md) as int;
    let r = er * p + (s - p);
    let u = one_exp(md, ew);
    let g = (er - 1) as nat;
    assert(2 * g == e1 + u - 1 - j - t);
    assert(1 <= er < exp_special(ew));
    lemma_encode_fields(false, er, s - p, md, ew);
    assert(scale(r, md, ew) == g);
    assert(significand(r, md, ew) == s);
    let h = pow2(g) as int;
    lemma_pow2_pos(g);
    // |x| * 2^u == n * h^2
    let sc = (e1 - 1) as nat;
    lemma_pow2_adds(sc, u);
    lemma_pow2_adds(j + t, 2 * g);
    lemma_pow2_adds(j, t);
    lemma_pow2_adds(g, g);
    assert(sc + u == j + t + 2 * g);
    let mx = magnitude(b, md, ew);
    assert(mx * pow2(u) == n * (h * h)) by (nonlinear_arith)
        requires
            mx == sg * pow2(sc),
            pow2(sc + u) == pow2(sc) * pow2(u),
            pow2(sc + u) == pow2(j + t) * pow2(2 * g),
            pow2(j + t) == pow2(j) * pow2(t),
            pow2(2 * g) == h * h,
            sig == sg * pow2(j),
            n == sig * pow2(t),
    ;
    let tt = 16 * mx * one(md, ew);
    assert(tt == 16 * n * (h * h)) by (nonlinear_arith)
        requires
            mx * pow2(u) == n * (h * h),
            tt == 16 * mx * pow2(u),
    ;
    let rr = 4 * magnitude(r, md, ew);
    assert(magnitude(r, md, ew) == s * h);
    assert(rr == 4 * s * h) by (nonlinear_arith)
        requires
            rr == 4 * magnitude(r, md, ew),
            magnitude(r, md, ew) == s * h,
    ;
    let c: int = if s == p {
        1
    } else {
        2
    };
    assert((4 * s - c) * (4 * s - c) < 16 * n) by (nonlinear_arith)
        requires
            (2 * s - 1) * (2 * s - 1) < 4 * n,
            c == 1 ==> s == p,
            c == 1 || c == 2,
            n >= p * p,
            s >= 1,
    ;
    assert((rr - c * h) * (rr - c * h) < tt) by (nonlinear_arith)
        requires
            (4 * s - c) * (4 * s - c) < 16 * n,
            rr == 4 * s * h,
            tt == 16 * n * (h * h),
            h > 0,
    ;
    assert(tt < (rr + 2 * h) * (rr + 2 * h)) by (nonlinear_arith)
        requires
            4 * n < (2 * s + 1) * (2 * s + 1),
            rr == 4 * s * h,
            tt == 16 * n * (h * h),
            h > 0,
    ;
}

/// The integer square root of `n`, rounded to nearest: Newton-Raphson
/// steps `s <- (s + n/s) / 2` from above settle on `floor(sqrt(n))`, and the
/// remainder decides whether the next integer is nearer.
fn sqrt_rounded_u128(n: u128) -> (s: u128)
    requires
        0x100_0000_0000_0000_0000_0000_0000 <= n <= 0x3ff_ffff_ffff_ffe0_0000_0000_0000,
    ensures
        0x10_0000_0000_0000 <= s <= 0x1f_ffff_ffff_ffff,
        (2 * s - 1) * (2 * s - 1) < 4 * n < (2 * s + 1) * (2 * s + 1),
{
    let mut s: u128 = 0x20_0000_0000_0000;
    proof {
        lemma_square_bound_u128(s);
        assert((s + 1) * (s + 1) > n) by (nonlinear_arith)
            requires
                s == 0x20_0000_0000_0000,
                n <= 0x3ff_ffff_ffff_ffe0_0000_0000_0000,
        ;
    }
    while s * s > n
        invariant
            1 <= s <= 0x20_0000_0000_0000,
            s * s < 0x1_0000_0000_0000_0000_0000_0000_0000,
            (s + 1) * (s + 1) > n,
            0x100_0000_0000_0000_0000_0000_0000 <= n <= 0x3ff_ffff_ffff_ffe0_0000_0000_0000,
        decreases s,
    {
        let q = n / s;
        proof {
            lemma_newton_step(n as int, s as int, q as int);
        }
        s = (s + q) / 2;
        proof {
            lemma_square_bound_u128(s);
        }
    }
    proof {
        if s < 0x10_0000_0000_0000 {
            lemma_mul_upper_bound(s as int + 1, 0x10_0000_0000_0000, s as int + 1, 0x10_0000_0000_0000);
        }
        if s > 0x1f_ffff_ffff_ffff {
            lemma_mul_upper_bound(0x20_0000_0000_0000, s as int, 0x20_0000_0000_0000, s as int);
        }
    }
    let d0 = n - s * s;
    if d0 > s {
        proof {
            if s == 0x1f_ffff_ffff_ffff {
                assert(s * s + s == 0x3ff_ffff_ffff_ffe0_0000_0000_0000) by (nonlinear_arith)
                    requires
                        s == 0x1f_ffff_ffff_ffff,
                ;
            }
            assert((2 * (s + 1) - 1) * (2 * (s + 1) - 1) < 4 * n < (2 * (s + 1) + 1) * (2 * (s
                + 1) + 1)) by (nonlinear_arith)
                requires
                    n - s * s > s,
                    n < (s + 1) * (s + 1),
                    s >= 0,
            ;
        }
        s + 1
    } else {
        proof {
            assert((2 * s - 1) * (2 * s - 1) < 4 * n < (2 * s + 1) * (2 * s + 1)) by (nonlinear_arith)
                requires
                    n - s * s <= s,
                    s * s <= n,
                    s >= 1,
            ;
        }
        s
    }
}

proof fn lemma_square_bound_u128(s: u128)
    requires
        s <= 0x20_0000_0000_0000,
    ensures
        s * s < 0x1_0000_0000_0000_0000_0000_0000_0000,
{
    assert(s * s < 0x1_0000_0000_0000_0000_0000_0000_0000) by (nonlinear_arith)
        requires
            s <= 0x20_0000_0000_0000,
    ;
}

/// A Newton step from above stays at or above `floor(sqrt(n))` and moves
/// down while `s` is above it.
proof fn lemma_newton_step(n: int, s: int, q: int)
    requires
        s >= 1,
        q == n / s,
        s * s > n,
        n >= 1,
    ensures
        ((s + q) / 2 + 1) * ((s + q) / 2 + 1) > n,
        1 <= (s + q) / 2 < s,
{
    lemma_fundamental_div_mod(n, s);
    lemma_mod_bound(n, s);
    let rm = n % s;
    assert(q * s <= n < (q + 1) * s) by (nonlinear_arith)
        requires
            n == s * q + rm,
            0 <= rm < s,
    ;
    assert(q < s) by (nonlinear_arith)
        requires
            q * s <= n,
            s * s > n,
            s >= 1,
    ;
    assert(q >= 0) by {
        lemma_div_pos_is_pos(n, s);
    }
    let t = (s + q) / 2;
    let r = t + 1;
    // With r = t + 1: s + q <= 2r - 1 and (q + 1) s > n give
    // n < 2rs - s^2 = r^2 - (r - s)^2 <= r^2.
    assert(s + q <= 2 * r - 1);
    assert(r * r > n) by (nonlinear_arith)
        requires
            s + q <= 2 * r - 1,
            (q + 1) * s > n,
            s >= 1,
            q >= 0,
    ;
    assert(s >= 2) by {
        if s == 1 {
            assert(s * s == 1);
        }
    }
}

/// Square root of a binary64 encoding, correctly rounded to nearest.
pub fn sqrt_f64(x: u64) -> (r: u64)
    ensures
        sqrt_post(x as int, r as int, 52, 11),
{
    proof {
        lemma2_to64();
        lemma2_to64_rest();
        lemma_fields_encode(x as int, 52, 11);
        lemma_magnitude_zero(x as int, 52, 11);
        lemma_zero_iff_no_magnitude_bits(x, 52, 11);
        assert(!(0x8000_0000_0000_0000u64) == 0x7fff_ffff_ffff_ffffu64) by (bit_vector);
        lemma_encode_fields(false, 2047, 0, 52, 11);
    }
    if x == 0x7ff0_0000_0000_0000 || x & 0x7fff_ffff_ffff_ffff == 0 {
        return x;
    }
    let e = exponent(x, 52, 11);
    if e == 0x7ff || x >= 0x8000_0000_0000_0000 {
        proof {
            lemma_encode_fields(false, 2047, 0x8_0000_0000_0000, 52, 11);
        }
        return 0x7ff8_0000_0000_0000;
    }
    let ghost sg = significand(x as int, 52, 11);
    let ghost sc = scale(x as int, 52, 11);
    let man = x & mantissa_mask(52);
    proof {
        lemma_u64_low_bits_mask_is_mod(x, 52);
        assert(man == man_field(x as int, 52));
        lemma_pow2_pos(sc);
        assert(sg != 0) by {
            if sg == 0 {
                assert(magnitude(x as int, 52, 11) == 0);
            }
        }
    }
    let e1: u64 = if e == 0 {
        1
    } else {
        e
    };
    let mut sig: u64 = if e == 0 {
        man
    } else {
        man + 0x10_0000_0000_0000
    };
    let mut j: u64 = 0;
    while sig < 0x10_0000_0000_0000
        invariant
            sig == sg * pow2(j as nat),
            0 < sig < 0x20_0000_0000_0000,
            sg >= 1,
            j <= 52,
            pow2(52) == 0x10_0000_0000_0000,
        decreases 52 - j,
    {
        proof {
            lemma_pow2_unfold((j + 1) as nat);
            lemma_pow2_pos(j as nat);
            lemma_mul_increases(sg, pow2(j as nat) as int);
            if j >= 52 {
                if j > 52 {
                    lemma_pow2_strictly_increases(52, j as nat);
                }
                assert(false);
            }
            assert(sig * 2 == sg * pow2((j + 1) as nat)) by (nonlinear_arith)
                requires
                    sig == sg * pow2(j as nat),
                    pow2((j + 1) as nat) == 2 * pow2(j as nat),
            ;
        }
        sig = sig * 2;
        j = j + 1;
    }
    // n = sig * 2^t with the remaining power of two even.
    let odd = (e1 + j) % 2 == 1;
    let t: u64 = if odd {
        52
    } else {
        53
    };
    let n: u128 = if odd {
        (sig as u128) * 0x10_0000_0000_0000
    } else {
        (sig as u128) * 0x20_0000_0000_0000
    };
    proof {
        assert(one_exp(52, 11) == 1074);
        assert(pow2(53) == 0x20_0000_0000_0000);
        assert(n >= 0x100_0000_0000_0000_0000_0000_0000 && n <= 0x3ff_ffff_ffff_ffe0_0000_0000_0000) by (nonlinear_arith)
            requires
                0x10_0000_0000_0000 <= sig < 0x20_0000_0000_0000,
                n == sig * 0x10_0000_0000_0000 || n == sig * 0x20_0000_0000_0000,
        ;
    }
    let s = sqrt_rounded_u128(n);
    let er = (e1 + 1075 - j - t) / 2;
    let r = er * 0x10_0000_0000_0000 + (s as u64 - 0x10_0000_0000_0000);
    proof {
        lemma_sqrt_result(
            x as int,
            sg,
            sig as int,
            j as nat,
            t as nat,
            e1 as int,
            n as int,
            s as int,
            er as int,
            52,
            11,
        );
    }
    r
}

/// The rounding interval of a lower positive normal encoding ends no later
/// than that of a higher one begins (on the scale of `is_rounded_sqrt`).
proof fn lemma_sqrt_intervals_ordered(a: int, b: int, md: nat, ew: nat)
    requires
        is_format(md, ew),
        is_encoding(a, md, ew),
        is_encoding(b, md, ew),
        1 <= exp_field(a, md, ew),
        1 <= exp_field(b, md, ew),
        exp_field(a, md, ew) < exp_field(b, md, ew) || (exp_field(a, md, ew) == exp_field(
            b,
            md,
            ew,
        ) && man_field(a, md) < man_field(b, md)),
    ensures
        ({
            let ha = pow2(scale(a, md, ew)) as int;
            let hb = pow2(scale(b, md, ew)) as int;
            let below = if man_field(b, md) == 0 && exp_field(b, md, ew) > 1 {
                hb
            } else {
                2 * hb
            };
            &&& 4 * magnitude(a, md, ew) + 2 * ha <= 4 * magnitude(b, md, ew) - below
            &&& 0 <= 4 * magnitude(b, md, ew) - below
        }),
{
    lemma_fields_encode(a, md, ew);
    lemma_fields_encode(b, md, ew);
    let p = pow2(md) as int;
    let sa = significand(a, md, ew);
    let sb = significand(b, md, ew);
    let ga = scale(a, md, ew);
    let gb = scale(b, md, ew);
    let ha = pow2(ga) as int;
    let hb = pow2(gb) as int;
    lemma_pow2_pos(ga);
    lemma_pow2_pos(gb);
    lemma_pow2_pos(md);
    let below = if man_field(b, md) == 0 && exp_field(b, md, ew) > 1 {
        hb
    } else {
        2 * hb
    };
    assert(0 <= 4 * sb * hb - below) by (nonlinear_arith)
        requires
            sb >= p,
            p >= 1,
            hb > 0,
            below <= 2 * hb,
    ;
    if exp_field(a, md, ew) == exp_field(b, md, ew) {
        assert(4 * sa * ha + 2 * ha <= 4 * sb * hb - below) by (nonlinear_arith)
            requires
                ha == hb,
                sa + 1 <= sb,
                below <= 2 * hb,
                ha > 0,
        ;
    } else {
        lemma_pow2_adds(ga, (gb - ga - 1) as nat);
        lemma_pow2_unfold((gb - ga) as nat);
        lemma_pow2_adds(ga, (gb - ga) as nat);
        lemma_pow2_pos((gb - ga - 1) as nat);
        let k = pow2((gb - ga) as nat) as int;
        assert(k >= 2);
        assert(hb == ha * k);
        assert(sa <= 2 * p - 1);
        assert(sb >= p);
        assert(below <= hb || sb >= p + 1);
        assert(4 * sa * ha + 2 * ha <= 4 * sb * hb - below) by (nonlinear_arith)
            requires
                hb == ha * k,
                k >= 2,
                sa <= 2 * p - 1,
                sb >= p,
                below == hb || below == 2 * hb,
                below == 2 * hb ==> sb >= p + 1,
                ha > 0,
                p >= 1,
        ;
    }
    assert(4 * magnitude(a, md, ew) == 4 * sa * ha) by (nonlinear_arith)
        requires
            magnitude(a, md, ew) == sa * ha,
    ;
    assert(4 * magnitude(b, md, ew) == 4 * sb * hb) by (nonlinear_arith)
        requires
            magnitude(b, md, ew) == sb * hb,
    ;
}

/// The square-root contract determines its result: two encodings that both
/// meet it for the same positive finite input are the same encoding.
pub proof fn law_sqrt_determined(x: int, a: int, b: int, md: nat, ew: nat)
    requires
        is_format(md, ew),
        is_encoding(x, md, ew),
        is_finite(x, md, ew),
        !sign_bit(x, md, ew),
        magnitude(x, md, ew) > 0,
        sqrt_post(x, a, md, ew),
        sqrt_post(x, b, md, ew),
    ensures
        a == b,
{
    lemma_fields_encode(x, md, ew);
    lemma_magnitude_zero(x, md, ew);
    lemma_fields_encode(a, md, ew);
    lemma_fields_encode(b, md, ew);
    if exp_field(a, md, ew) != exp_field(b, md, ew) || man_field(a, md) != man_field(b, md) {
        let t = 16 * magnitude(x, md, ew) * one(md, ew);
        if exp_field(a, md, ew) < exp_field(b, md, ew) || (exp_field(a, md, ew) == exp_field(
            b,
            md,
            ew,
        ) && man_field(a, md) < man_field(b, md)) {
            lemma_sqrt_intervals_ordered(a, b, md, ew);
            lemma_magnitude_zero(a, md, ew);
            lemma_pow2_pos(scale(a, md, ew));
            lemma_squares_ordered(
                4 * magnitude(a, md, ew) + 2 * pow2(scale(a, md, ew)),
                4 * magnitude(b, md, ew) - (if man_field(b, md) == 0 && exp_field(b, md, ew) > 1 {
                    pow2(scale(b, md, ew)) as int
                } else {
                    2 * (pow2(scale(b, md, ew)) as int)
                }),
            );
        } else {
            lemma_sqrt_intervals_ordered(b, a, md, ew);
            lemma_magnitude_zero(b, md, ew);
            lemma_pow2_pos(scale(b, md, ew));
            lemma_squares_ordered(
                4 * magnitude(b, md, ew) + 2 * pow2(scale(b, md, ew)),
                4 * magnitude(a, md, ew) - (if man_field(a, md) == 0 && exp_field(a, md, ew) > 1 {
                    pow2(scale(a, md, ew)) as int
                } else {
                    2 * (pow2(scale(a, md, ew)) as int)
                }),
            );
        }
    }
}

proof fn lemma_squares_ordered(hi: int, lo: int)
    requires
        0 <= hi <= lo,
    ensures
        hi * hi <= lo * lo,
{
    assert(hi * hi <= lo * lo) by (nonlinear_arith)
        requires
            0 <= hi <= lo,
    ;
}

/// `sqrt_f64` on each lane.
pub fn sqrt_f64_lanes<const N: usize>(x: [u64; N]) -> (r: [u64; N])
    ensures
        forall|i: int| 0 <= i < N ==> sqrt_post(x[i] as int, #[trigger] r[i] as int, 52, 11),
{
    let mut r = x;
    let mut i: usize = 0;
    while i < N
        invariant
            i <= N,
            forall|j: int| 0 <= j < i ==> sqrt_post(x[j] as int, #[trigger] r[j] as int, 52, 11),
            forall|j: int| i <= j < N ==> r[j] == x[j],
        decreases N - i,
    {
        let y = sqrt_f64(r[i]);
        r[i] = y;
        i = i + 1;
    }
    r
}

/// `sqrt_f32` on each lane.
pub fn sqrt_f32_lanes<const N: usize>(x: [u32; N]) -> (r: [u32; N])
    ensures
        forall|i: int| 0 <= i < N ==> sqrt_post(x[i] as int, #[trigger] r[i] as int, 23, 8),
{
    let mut r = x;
    let mut i: usize = 0;
    while i < N
        invariant
            i <= N,
            forall|j: int| 0 <= j < i ==> sqrt_post(x[j] as int, #[trigger] r[j] as int, 23, 8),
            forall|j: int| i <= j < N ==> r[j] == x[j],
        decreases N - i,
    {
        let y = sqrt_f32(r[i]);
        r[i] = y;
        i = i + 1;
    }
    r
}

} // verus!
