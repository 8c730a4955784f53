//! Rounding to an integral value: trunc, floor, ceil, round (ties to even)
//! and the fractional part, on encodings of either format.
use vstd::arithmetic::div_mod::*;
use vstd::arithmetic::mul::*;
use vstd::arithmetic::power2::*;
use vstd::bits::*;
use vstd::prelude::*;

use crate::encoding::{
    bias, encode, exp_field, exp_special, exponent, exponent_bias, is_encoding, is_finite, is_format,
    is_nan, lemma_clear_low_bits, lemma_encode_fields, lemma_fields_encode,
    lemma_low_bits_in_mantissa, lemma_magnitude_below_one, lemma_magnitude_integral,
    lemma_magnitude_zero, lemma_scaled_quotient, lemma_zero_iff_no_magnitude_bits, magnitude,
    man_field, mantissa_mask, one, one_exp, scale, sign_bit, sign_mask, significand, value,
};

verus! {

/// `v` rounded toward zero to a multiple of `u`.
pub open spec fn trunc_of(v: int, u: int) -> int {
    if v >= 0 {
        v / u * u
    } else {
        -((-v) / u * u)
    }
}

/// What truncation returns: non-finite input unchanged; otherwise the
/// integral part with the sign of the input (so `-0.5` gives `-0.0`).
pub open spec fn trunc_post(x: int, r: int, md: nat, ew: nat) -> bool {
    &&& is_encoding(r, md, ew)
    &&& if is_finite(x, md, ew) {
        &&& is_finite(r, md, ew)
        &&& sign_bit(r, md, ew) == sign_bit(x, md, ew)
        &&& value(r, md, ew) == trunc_of(value(x, md, ew), one(md, ew))
    } else {
        r == x
    }
}

/// `b` with the sign bit alone kept is the zero of that sign.
proof fn lemma_signed_zero(b: u64, md: nat, ew: nat)
    requires
        is_format(md, ew),
        is_encoding(b as int, md, ew),
    ensures
        b & (pow2(md + ew) as u64) == encode(sign_bit(b as int, md, ew), 0, 0, md, ew),
{
    lemma2_to64();
    lemma2_to64_rest();
    lemma_fields_encode(b as int, md, ew);
    let n = (md + ew) as u64;
    lemma_u64_shr_is_div(b, n);
    lemma_u64_shl_is_mul(1, n);
    assert(b >> n == 1 ==> b & (1u64 << n) == (1u64 << n)) by (bit_vector)
        requires
            n < 64,
    ;
    assert(b >> n == 0 ==> b & (1u64 << n) == 0) by (bit_vector)
        requires
            n < 64,
    ;
}

/// Facts on the encoding `t = b - b % 2^k` that clears the `k` fractional
/// bits of a number with `1 <= |b| < 2^md`.
proof fn lemma_chop(b: int, k: nat, md: nat, ew: nat)
    requires
        is_format(md, ew),
        is_encoding(b, md, ew),
        bias(ew) <= exp_field(b, md, ew) < bias(ew) + md,
        k == bias(ew) + md - exp_field(b, md, ew),
    ensures
        1 <= k <= md,
        b % (pow2(k) as int) == man_field(b, md) % (pow2(k) as int),
        ({
            let t = b - b % (pow2(k) as int);
            &&& t == encode(
                sign_bit(b, md, ew),
                exp_field(b, md, ew),
                man_field(b, md) - man_field(b, md) % (pow2(k) as int),
                md,
                ew,
            )
            &&& is_encoding(t, md, ew)
            &&& is_finite(t, md, ew)
            &&& sign_bit(t, md, ew) == sign_bit(b, md, ew)
            &&& exp_field(t, md, ew) == exp_field(b, md, ew)
            &&& man_field(t, md) % (pow2(k) as int) == 0
            &&& magnitude(t, md, ew) == magnitude(b, md, ew) / one(md, ew) * one(md, ew)
            &&& magnitude(t, md, ew) / one(md, ew) == significand(b, md, ew) / (pow2(k) as int)
            &&& magnitude(b, md, ew) % one(md, ew) == 0 <==> b % (pow2(k) as int) == 0
            &&& magnitude(b, md, ew) % one(md, ew) == (b % (pow2(k) as int)) * pow2(scale(b, md, ew))
            &&& one(md, ew) == pow2(k) * pow2(scale(b, md, ew))
            &&& scale(b, md, ew) + k == one_exp(md, ew)
            &&& magnitude(t, md, ew) + pow2(k) * pow2(scale(b, md, ew)) == (
            magnitude(b, md, ew) / one(md, ew) + 1) * one(md, ew)
        }),
{
    lemma2_to64();
    lemma_fields_encode(b, md, ew);
    let e = exp_field(b, md, ew);
    let m = man_field(b, md);
    let c = pow2(k) as int;
    lemma_pow2_pos(k);
    lemma_low_bits_in_mantissa(b, k, md);
    lemma_mod_bound(m, c);
    let m2 = m - m % c;
    lemma_fundamental_div_mod(m, c);
    lemma_encode_fields(sign_bit(b, md, ew), e, m2, md, ew);
    let t = b - b % c;
    assert(m2 % c == 0) by {
        lemma_mod_multiples_basic(m / c, c);
        assert(m2 == (m / c) * c) by (nonlinear_arith)
            requires
                m == c * (m / c) + m % c,
                m2 == m - m % c,
        ;
    }
    // The significand and its remainder.
    let s = significand(b, md, ew);
    let p = (e - 1) as nat;
    assert(s % c == m % c) by {
        lemma_pow2_adds(k, (md - k) as nat);
        lemma_mod_multiples_vanish(pow2((md - k) as nat) as int, m, c);
        assert(s == c * pow2((md - k) as nat) + m);
    }
    assert(significand(t, md, ew) == s - s % c);
    assert(p + k == one_exp(md, ew));
    lemma_scaled_quotient(s, p, k);
    lemma_pow2_adds(p, k);
    let u = one(md, ew);
    lemma_pow2_pos(p);
    lemma_pow2_pos(one_exp(md, ew));
    lemma_fundamental_div_mod(s, c);
    lemma_mod_bound(s, c);
    assert(s / c >= 0) by {
        lemma_div_pos_is_pos(s, c);
    }
    let q = s / c;
    assert(magnitude(t, md, ew) == q * u);
    lemma_div_multiples_vanish(q, u);
    assert(q * u == u * q) by (nonlinear_arith);
    // The remainder of the magnitude by one.
    let mg = magnitude(b, md, ew);
    assert(mg == q * u + (s % c) * pow2(p)) by (nonlinear_arith)
        requires
            mg == s * pow2(p),
            s == c * q + s % c,
            u == pow2(p) * c,
    ;
    assert(0 <= (s % c) * pow2(p) < u) by (nonlinear_arith)
        requires
            0 <= s % c < c,
            u == pow2(p) * c,
            pow2(p) > 0,
    ;
    lemma_fundamental_div_mod_converse(mg, u, q, (s % c) * pow2(p));
    assert((s % c) * pow2(p) == 0 <==> s % c == 0) by (nonlinear_arith)
        requires
            pow2(p) > 0,
    ;
    assert(q * u + c * pow2(p) == (q + 1) * u) by (nonlinear_arith)
        requires
            u == pow2(p) * c,
    ;
    assert(mg / u == q);
    assert(mg % u == (s % c) * pow2(p));
    assert(scale(b, md, ew) == p);
    assert(u == c * pow2(p)) by (nonlinear_arith)
        requires
            u == pow2(p) * c,
    ;
}

/// Truncation toward zero, on an encoding of either format.
fn trunc_bits(b: u64, md: u64, ew: u64) -> (r: u64)
    requires
        is_format(md as nat, ew as nat),
        is_encoding(b as int, md as nat, ew as nat),
    ensures
        trunc_post(b as int, r as int, md as nat, ew as nat),
{
    let e = exponent(b, md, ew);
    let bias = exponent_bias(ew);
    proof {
        lemma2_to64();
        lemma_fields_encode(b as int, md as nat, ew as nat);
    }
    if e >= bias + md {
        proof {
            if is_finite(b as int, md as nat, ew as nat) {
                lemma_magnitude_integral(b as int, md as nat, ew as nat);
                lemma_pow2_pos(one_exp(md as nat, ew as nat));
                trunc_of_multiple(value(b as int, md as nat, ew as nat), one(md as nat, ew as nat));
            }
        }
        b
    } else if e < bias {
        let r = b & sign_mask(md, ew);
        proof {
            lemma_signed_zero(b, md as nat, ew as nat);
            lemma_encode_fields(sign_bit(b as int, md as nat, ew as nat), 0, 0, md as nat, ew as nat);
            lemma_magnitude_below_one(b as int, md as nat, ew as nat);
            trunc_of_small(value(b as int, md as nat, ew as nat), one(md as nat, ew as nat));
        }
        r
    } else {
        let k = bias + md - e;
        proof {
            lemma_clear_low_bits(b, k);
            lemma_chop(b as int, k as nat, md as nat, ew as nat);
        }
        b & !((1u64 << k) - 1)
    }
}

proof fn trunc_of_multiple(v: int, u: int)
    requires
        u > 0,
        (if v >= 0 { v } else { -v }) % u == 0,
    ensures
        trunc_of(v, u) == v,
{
    let a = if v >= 0 { v } else { -v };
    lemma_fundamental_div_mod(a, u);
    assert(a / u * u == a) by (nonlinear_arith)
        requires
            a == u * (a / u) + a % u,
            a % u == 0,
    ;
}

proof fn trunc_of_small(v: int, u: int)
    requires
        u > 0,
        -u < v < u,
    ensures
        trunc_of(v, u) == 0,
{
    if v >= 0 {
        lemma_basic_div(v, u);
    } else {
        lemma_basic_div(-v, u);
    }
}



/// `v` rounded down to a multiple of `u` (`/` on `int` rounds toward
/// negative infinity for a positive divisor).
pub open spec fn floor_of(v: int, u: int) -> int {
    v / u * u
}

/// `v` rounded up to a multiple of `u`.
pub open spec fn ceil_of(v: int, u: int) -> int {
    -((-v) / u * u)
}

/// A non-negative `a` rounded to the nearest multiple of `u`; of two
/// equally near, the even multiple.
pub open spec fn nearest_even_of(a: int, u: int) -> int {
    let q = a / u;
    let r = a % u;
    if 2 * r > u || (2 * r == u && q % 2 == 1) {
        (q + 1) * u
    } else {
        q * u
    }
}

/// `v` rounded to the nearest multiple of `u`, ties to even, symmetric in
/// sign.
pub open spec fn round_of(v: int, u: int) -> int {
    if v >= 0 {
        nearest_even_of(v, u)
    } else {
        -nearest_even_of(-v, u)
    }
}

/// What floor returns: non-finite input unchanged; otherwise the greatest
/// integral value not above the input, with the input's sign (so `-0.0`
/// stays `-0.0` and `0.5` gives `+0.0`).
pub open spec fn floor_post(x: int, r: int, md: nat, ew: nat) -> bool {
    &&& is_encoding(r, md, ew)
    &&& if is_finite(x, md, ew) {
        &&& is_finite(r, md, ew)
        &&& sign_bit(r, md, ew) == sign_bit(x, md, ew)
        &&& value(r, md, ew) == floor_of(value(x, md, ew), one(md, ew))
    } else {
        r == x
    }
}

/// What ceil returns: non-finite input unchanged; otherwise the least
/// integral value not below the input, with the input's sign (so `-0.5`
/// gives `-0.0`).
pub open spec fn ceil_post(x: int, r: int, md: nat, ew: nat) -> bool {
    &&& is_encoding(r, md, ew)
    &&& if is_finite(x, md, ew) {
        &&& is_finite(r, md, ew)
        &&& sign_bit(r, md, ew) == sign_bit(x, md, ew)
        &&& value(r, md, ew) == ceil_of(value(x, md, ew), one(md, ew))
    } else {
        r == x
    }
}

/// What round returns: non-finite input unchanged; otherwise the nearest
/// integral value, ties to even, with the input's sign.
pub open spec fn round_post(x: int, r: int, md: nat, ew: nat) -> bool {
    &&& is_encoding(r, md, ew)
    &&& if is_finite(x, md, ew) {
        &&& is_finite(r, md, ew)
        &&& sign_bit(r, md, ew) == sign_bit(x, md, ew)
        &&& value(r, md, ew) == round_of(value(x, md, ew), one(md, ew))
    } else {
        r == x
    }
}

/// Adding `2^k` to a normal encoding whose low `k` bits are clear adds
/// `2^k` units of its last place to the magnitude, carrying into the
/// exponent when the mantissa overflows.
proof fn lemma_step_up(t: int, k: nat, md: nat, ew: nat)
    requires
        is_format(md, ew),
        is_encoding(t, md, ew),
        1 <= exp_field(t, md, ew) < bias(ew) + md,
        1 <= k <= md,
        man_field(t, md) % (pow2(k) as int) == 0,
    ensures
        is_encoding(t + pow2(k), md, ew),
        is_finite(t + pow2(k), md, ew),
        sign_bit(t + pow2(k), md, ew) == sign_bit(t, md, ew),
        magnitude(t + pow2(k), md, ew) == magnitude(t, md, ew) + pow2(k) * pow2(
            scale(t, md, ew),
        ),
{
    lemma2_to64();
    lemma_fields_encode(t, md, ew);
    let e = exp_field(t, md, ew);
    let m = man_field(t, md);
    let s = sign_bit(t, md, ew);
    let c = pow2(k) as int;
    let qd = pow2(md) as int;
    let p = (e - 1) as nat;
    lemma_pow2_adds(k, (md - k) as nat);
    lemma_pow2_pos(k);
    lemma_pow2_pos((md - k) as nat);
    lemma_pow2_pos(p);
    let j = m / c;
    lemma_fundamental_div_mod(m, c);
    assert(m + c <= qd) by (nonlinear_arith)
        requires
            m == c * j,
            m < qd,
            qd == c * pow2((md - k) as nat),
            c > 0,
    ;
    if m + c < qd {
        lemma_encode_fields(s, e, m + c, md, ew);
        assert(t + c == encode(s, e, m + c, md, ew));
        assert((m + c + qd) * pow2(p) == (m + qd) * pow2(p) + c * pow2(p)) by (nonlinear_arith);
    } else {
        assert(e + 1 < pow2(ew));
        lemma_encode_fields(s, e + 1, 0, md, ew);
        assert(t + c == encode(s, e + 1, 0, md, ew)) by (nonlinear_arith)
            requires
                t == encode(s, e, m, md, ew),
                m + c == qd,
                qd == pow2(md),
        ;
        lemma_pow2_unfold(e as nat);
        assert(pow2(e as nat) == 2 * pow2(p));
        assert(qd * pow2(e as nat) == (m + qd) * pow2(p) + c * pow2(p)) by (nonlinear_arith)
            requires
                m + c == qd,
                pow2(e as nat) == 2 * pow2(p),
        ;
    }
}

/// The encoding of 1.0 (or -1.0 with the sign bit).
proof fn lemma_one_encoding(s: bool, md: nat, ew: nat)
    requires
        is_format(md, ew),
    ensures
        is_encoding(encode(s, bias(ew), 0, md, ew), md, ew),
        is_finite(encode(s, bias(ew), 0, md, ew), md, ew),
        sign_bit(encode(s, bias(ew), 0, md, ew), md, ew) == s,
        magnitude(encode(s, bias(ew), 0, md, ew), md, ew) == one(md, ew),
{
    lemma2_to64();
    lemma_pow2_pos(md);
    lemma_encode_fields(s, bias(ew), 0, md, ew);
    lemma_pow2_adds(md, (bias(ew) - 1) as nat);
}

/// Directed rounding of a magnitude below one.
proof fn lemma_small_directed(mg: int, u: int)
    requires
        0 <= mg < u,
    ensures
        floor_of(mg, u) == 0,
        ceil_of(-mg, u) == 0,
        mg > 0 ==> floor_of(-mg, u) == -u,
        mg > 0 ==> ceil_of(mg, u) == u,
        mg == 0 ==> floor_of(-mg, u) == 0 && ceil_of(mg, u) == 0,
{
    lemma_basic_div(mg, u);
    assert(-(-mg) == mg);
    if mg > 0 {
        lemma_fundamental_div_mod_converse(-mg, u, -1, u - mg);
        lemma_fundamental_div_mod_converse(mg, u, 0, mg);
    }
}

/// Euclidean quotient of a negated multiple-or-not.
proof fn lemma_neg_div(a: int, u: int)
    requires
        a >= 0,
        u > 0,
    ensures
        a % u == 0 ==> (-a) / u * u == -(a / u * u),
        a % u != 0 ==> (-a) / u * u == -(a / u * u) - u,
{
    lemma_fundamental_div_mod(a, u);
    lemma_mod_bound(a, u);
    let q = a / u;
    let r = a % u;
    if r == 0 {
        assert(-a == u * (-q) + 0) by (nonlinear_arith)
            requires
                a == u * q + r,
                r == 0,
        ;
        lemma_fundamental_div_mod_converse(-a, u, -q, 0);
        assert(-q * u == -(q * u)) by (nonlinear_arith);
    } else {
        assert(-a == (-q - 1) * u + (u - r)) by (nonlinear_arith)
            requires
                a == u * q + r,
        ;
        lemma_fundamental_div_mod_converse(-a, u, -q - 1, u - r);
        assert((-q - 1) * u == -(q * u) - u) by (nonlinear_arith);
    }
}

/// Floor, ceil and trunc agree with the magnitude's quotient.
proof fn lemma_directed(a: int, u: int)
    requires
        a >= 0,
        u > 0,
    ensures
        floor_of(a, u) == a / u * u,
        ceil_of(-a, u) == -(a / u * u),
        a % u == 0 ==> floor_of(-a, u) == -(a / u * u),
        a % u != 0 ==> floor_of(-a, u) == -(a / u * u) - u,
        a % u == 0 ==> ceil_of(a, u) == a / u * u,
        a % u != 0 ==> ceil_of(a, u) == a / u * u + u,
{
    lemma_neg_div(a, u);
    assert(-(-a) == a);
}

/// The kinds of rounding to an integral value that share one kernel.
fn round_mode_bits(b: u64, md: u64, ew: u64, mode: u8) -> (r: u64)
    requires
        is_format(md as nat, ew as nat),
        is_encoding(b as int, md as nat, ew as nat),
        mode < 3,
    ensures
        mode == 0 ==> floor_post(b as int, r as int, md as nat, ew as nat),
        mode == 1 ==> ceil_post(b as int, r as int, md as nat, ew as nat),
        mode == 2 ==> round_post(b as int, r as int, md as nat, ew as nat),
{
    let e = exponent(b, md, ew);
    let bias = exponent_bias(ew);
    let smask = sign_mask(md, ew);
    let sign = b & smask;
    let ghost mdn = md as nat;
    let ghost ewn = ew as nat;
    let ghost v = value(b as int, mdn, ewn);
    let ghost mg = magnitude(b as int, mdn, ewn);
    let ghost u = one(mdn, ewn);
    proof {
        lemma2_to64();
        lemma2_to64_rest();
        lemma_fields_encode(b as int, mdn, ewn);
        lemma_signed_zero(b, mdn, ewn);
        lemma_encode_fields(sign_bit(b as int, mdn, ewn), 0, 0, mdn, ewn);
        lemma_pow2_pos(one_exp(mdn, ewn));
        lemma_mul_nonnegative(significand(b as int, mdn, ewn), pow2(scale(b as int, mdn, ewn)) as int);
    }
    let neg = sign != 0;
    assert(neg == sign_bit(b as int, mdn, ewn));
    if e >= bias + md {
        proof {
            if is_finite(b as int, mdn, ewn) {
                lemma_magnitude_integral(b as int, mdn, ewn);
                lemma_directed(mg, u);
                lemma_round_integral(mg, u);
            }
        }
        return b;
    }
    proof {
        lemma_u64_shl_is_mul(bias, md);
        lemma_u64_shl_is_mul(1, (md + ew) as u64);
        lemma_pow2_adds(mdn, ewn);
        lemma_magnitude_zero(b as int, mdn, ewn);
    }
    let one_bits = bias << md;
    proof {
        lemma_one_encoding(false, mdn, ewn);
        lemma_one_encoding(true, mdn, ewn);
        assert(one_bits == encode(false, bias as int, 0, mdn, ewn));
        assert(smask + one_bits == encode(true, bias as int, 0, mdn, ewn));
        assert(smask | one_bits == smask + one_bits) by (bit_vector)
            requires
                one_bits < smask,
                smask == 1u64 << (md + ew),
                md + ew < 64,
        ;
    }
    if e < bias {
        proof {
            lemma_magnitude_below_one(b as int, mdn, ewn);
            lemma_directed(mg, u);
            lemma_basic_div(mg, u);
            lemma_small_mod(mg as nat, u as nat);
            assert(encode(false, 0, 0, mdn, ewn) == 0);
            assert(mg / u == 0);
            assert(mg % u == mg);
            lemma_small_directed(mg, u);
            assert(v == if neg { -mg } else { mg });
        }
        if mode == 0 {
            // floor: +0 for non-negative, -1 for negative non-zero
            if !neg {
                assert(floor_of(v, u) == 0);
                return 0;
            } else if b == smask {
                return b;
            } else {
                return smask | one_bits;
            }
        } else if mode == 1 {
            // ceil: the signed zero for non-positive, +1 for positive non-zero
            if neg {
                return smask;
            } else if b == 0 {
                return b;
            } else {
                assert(mg != 0);
                assert(ceil_of(v, u) == u);
                return one_bits;
            }
        } else {
            // round: only [0.5, 1) can reach one; 0.5 itself goes to the even zero
            proof {
                lemma_half_range(b, mdn, ewn);
            }
            if e + 1 == bias && b & mantissa_mask(md) != 0 {
                if neg {
                    return smask | one_bits;
                } else {
                    return one_bits;
                }
            } else {
                return sign;
            }
        }
    }
    let k = bias + md - e;
    proof {
        lemma_clear_low_bits(b, k);
        lemma_chop(b as int, k as nat, mdn, ewn);
        lemma_directed(mg, u);
    }
    let m = (1u64 << k) - 1;
    let frac = b & m;
    let t = b & !m;
    let ghost sc = scale(b as int, mdn, ewn);
    proof {
        assert(exp_field(t as int, mdn, ewn) >= 1);
        lemma_step_up(t as int, k as nat, mdn, ewn);
        assert(mg / u * u == magnitude(t as int, mdn, ewn));
    }
    let up = if mode == 0 {
        neg && frac != 0
    } else if mode == 1 {
        !neg && frac != 0
    } else {
        let half = 1u64 << (k - 1);
        let sig = (b & mantissa_mask(md)) | (1u64 << md);
        let lsb = (sig >> k) & 1;
        proof {
            lemma_round_decision(b, k, md, ew);
            lemma_round_compare(frac as int, pow2(k as nat) as int, half as int, pow2(sc) as int);
            lemma_div_multiples_vanish(mg / u, u);
            assert(mg / u * u == u * (mg / u)) by (nonlinear_arith);
        }
        frac > half || (frac == half && lsb == 1)
    };
    if up {
        t + (m + 1)
    } else {
        t
    }
}


/// An integral magnitude is its own nearest value.
proof fn lemma_round_integral(a: int, u: int)
    requires
        a >= 0,
        u > 0,
        a % u == 0,
    ensures
        round_of(a, u) == a,
        round_of(-a, u) == -a,
{
    lemma_fundamental_div_mod(a, u);
    assert(a / u * u == a) by (nonlinear_arith)
        requires
            a == u * (a / u) + a % u,
            a % u == 0,
    ;
    if a != 0 {
        assert(-(-a) == a);
    }
}

/// Below one: at least one half exactly for the exponent just under the
/// bias, strictly more than one half there iff the mantissa is not zero,
/// and less than one half further down.
proof fn lemma_half_range(b: u64, md: nat, ew: nat)
    requires
        is_format(md, ew),
        is_encoding(b as int, md, ew),
        exp_field(b as int, md, ew) < bias(ew),
    ensures
        b & ((pow2(md) - 1) as u64) == man_field(b as int, md),
        exp_field(b as int, md, ew) + 1 == bias(ew) ==> (2 * magnitude(b as int, md, ew) > one(
            md,
            ew,
        ) <==> man_field(b as int, md) != 0),
        exp_field(b as int, md, ew) + 1 < bias(ew) ==> 2 * magnitude(b as int, md, ew) < one(
            md,
            ew,
        ),
        nearest_even_of(magnitude(b as int, md, ew), one(md, ew)) == (if 2 * magnitude(
            b as int,
            md,
            ew,
        ) > one(md, ew) {
            one(md, ew)
        } else {
            0
        }),
{
    lemma2_to64();
    lemma2_to64_rest();
    lemma_fields_encode(b as int, md, ew);
    lemma_u64_low_bits_mask_is_mod(b, md);
    assert(low_bits_mask(md) == pow2(md) - 1);
    lemma_magnitude_below_one(b as int, md, ew);
    let e = exp_field(b as int, md, ew);
    let mg = magnitude(b as int, md, ew);
    let u = one(md, ew);
    let sg = significand(b as int, md, ew);
    let sc = scale(b as int, md, ew);
    lemma_pow2_pos(sc);
    lemma_pow2_pos(md);
    lemma_basic_div(mg, u);
    lemma_small_mod(mg as nat, u as nat);
    if e + 1 == bias(ew) {
        lemma_pow2_adds(md, sc + 1);
        lemma_pow2_unfold(sc + 1);
        assert(u == pow2(md) * 2 * pow2(sc)) by (nonlinear_arith)
            requires
                u == pow2(md) * pow2(sc + 1),
                pow2(sc + 1) == 2 * pow2(sc),
        ;
        assert(2 * mg > u <==> man_field(b as int, md) != 0) by (nonlinear_arith)
            requires
                mg == sg * pow2(sc),
                sg == man_field(b as int, md) + pow2(md),
                man_field(b as int, md) >= 0,
                u == pow2(md) * 2 * pow2(sc),
                pow2(sc) > 0,
        ;
    } else {
        let big = (sc + md + 2) as nat;
        assert(sg < pow2(md + 1)) by {
            lemma_pow2_unfold(md + 1);
        }
        lemma_pow2_adds(md + 1, sc);
        lemma_pow2_unfold((md + 1 + sc + 1) as nat);
        assert(md + 1 + sc + 1 <= one_exp(md, ew));
        if md + 1 + sc + 1 < one_exp(md, ew) {
            lemma_pow2_strictly_increases((md + 1 + sc + 1) as nat, one_exp(md, ew));
        }
        assert(2 * mg < u) by (nonlinear_arith)
            requires
                mg == sg * pow2(sc),
                0 <= sg < pow2(md + 1),
                pow2(md + 1 + sc) == pow2(md + 1) * pow2(sc),
                pow2((md + 1 + sc + 1) as nat) == 2 * pow2(md + 1 + sc),
                pow2((md + 1 + sc + 1) as nat) <= u,
                pow2(sc) > 0,
        ;
    }
}

/// The halfway bit and the parity of the integral part, read from bits.
proof fn lemma_round_decision(b: u64, k: u64, md: u64, ew: u64)
    requires
        is_format(md as nat, ew as nat),
        is_encoding(b as int, md as nat, ew as nat),
        exp_field(b as int, md as nat, ew as nat) >= 1,
        1 <= k <= md,
    ensures
        (1u64 << ((k - 1) as u64)) == pow2((k - 1) as nat),
        2 * pow2((k - 1) as nat) == pow2(k as nat),
        (b & ((pow2(md as nat) - 1) as u64)) | (1u64 << md) == significand(
            b as int,
            md as nat,
            ew as nat,
        ),
        ((((b & ((pow2(md as nat) - 1) as u64)) | (1u64 << md)) >> k) & 1) == (significand(
            b as int,
            md as nat,
            ew as nat,
        ) / (pow2(k as nat) as int)) % 2,
{
    lemma2_to64();
    lemma2_to64_rest();
    lemma_fields_encode(b as int, md as nat, ew as nat);
    lemma_u64_shl_is_mul(1, (k - 1) as u64);
    lemma_u64_shl_is_mul(1, md);
    lemma_pow2_unfold(k as nat);
    let mask = ((pow2(md as nat) - 1) as u64);
    lemma_u64_low_bits_mask_is_mod(b, md as nat);
    let lo = b & mask;
    assert(lo < (1u64 << md));
    assert(lo | (1u64 << md) == lo + (1u64 << md)) by (bit_vector)
        requires
            lo < (1u64 << md),
            md < 64,
    ;
    let sig = lo | (1u64 << md);
    lemma_u64_shr_is_div(sig, k);
    let y = sig >> k;
    lemma_u64_low_bits_mask_is_mod(y, 1);
    assert(low_bits_mask(1) == 1) by {
        lemma_low_bits_mask_values();
    }
    lemma_pow2_unfold(1);
    assert(pow2(0) == 1) by {
        lemma2_to64();
    }
}

/// Comparing a remainder with one half, on the scale of the last place.
proof fn lemma_round_compare(frac: int, c: int, half: int, p2: int)
    requires
        c == 2 * half,
        p2 > 0,
    ensures
        2 * (frac * p2) > c * p2 <==> frac > half,
        2 * (frac * p2) == c * p2 <==> frac == half,
{
    assert(2 * (frac * p2) > c * p2 <==> frac > half) by (nonlinear_arith)
        requires
            c == 2 * half,
            p2 > 0,
    ;
    assert(2 * (frac * p2) == c * p2 <==> frac == half) by (nonlinear_arith)
        requires
            c == 2 * half,
            p2 > 0,
    ;
}


/// What the fractional part returns: a NaN for NaN and the infinities;
/// otherwise the exact difference `x - trunc(x)`, which is `+0.0` when it
/// is zero (the sign IEEE-754 gives the difference of equal values).
pub open spec fn fract_post(x: int, r: int, md: nat, ew: nat) -> bool {
    &&& is_encoding(r, md, ew)
    &&& if is_finite(x, md, ew) {
        &&& is_finite(r, md, ew)
        &&& value(r, md, ew) == value(x, md, ew) - trunc_of(value(x, md, ew), one(md, ew))
        &&& value(r, md, ew) == 0 ==> !sign_bit(r, md, ew)
    } else {
        is_nan(r, md, ew)
    }
}

/// The quiet NaN bit of the format, as a mask.
fn quiet_bit(md: u64) -> (r: u64)
    requires
        md == 23 || md == 52,
    ensures
        r == pow2((md - 1) as nat),
{
    proof {
        lemma2_to64();
        lemma2_to64_rest();
        lemma_u64_shl_is_mul(1, (md - 1) as u64);
    }
    1u64 << (md - 1)
}

/// Sets the quiet bit of an infinity or NaN: a NaN of the same sign.
fn quieten(b: u64, md: u64, ew: u64) -> (r: u64)
    requires
        is_format(md as nat, ew as nat),
        is_encoding(b as int, md as nat, ew as nat),
        !is_finite(b as int, md as nat, ew as nat),
    ensures
        is_encoding(r as int, md as nat, ew as nat),
        is_nan(r as int, md as nat, ew as nat),
{
    let q = quiet_bit(md);
    let r = b | q;
    proof {
        lemma2_to64();
        lemma2_to64_rest();
        let mdn = md as nat;
        let ewn = ew as nat;
        lemma_u64_shl_is_mul(1, (md - 1) as u64);
        lemma_u64_shl_is_mul(1, md);
        assert(q == 1u64 << ((md - 1) as u64));
        assert((r >> md) == (b >> md) && r & (((1u64 << md) - 1) as u64) != 0) by (bit_vector)
            requires
                r == b | q,
                q == 1u64 << ((md - 1) as u64),
                1 <= md < 64,
        ;
        lemma_u64_shr_is_div(r, md);
        lemma_u64_shr_is_div(b, md);
        lemma_u64_low_bits_mask_is_mod(r, mdn);
        lemma_fields_encode(b as int, mdn, ewn);
        lemma_pow2_adds(mdn, ewn + 1);
        lemma_pow2_pos(mdn);
        lemma_fundamental_div_mod(r as int, pow2(mdn) as int);
        lemma_fundamental_div_mod(b as int, pow2(mdn) as int);
        lemma_mod_bound(r as int, pow2(mdn) as int);
        lemma_div_denominator(b as int, pow2(mdn) as int, pow2(ewn + 1) as int);
        assert(((b as int) / (pow2(mdn) as int)) < pow2(ewn + 1)) by {
            lemma_high_fields_bound(b as int, mdn, ewn);
        }
        assert(r < pow2(mdn + ewn + 1)) by (nonlinear_arith)
            requires
                r == pow2(mdn) * ((r as int) / (pow2(mdn) as int)) + (r as int) % (pow2(mdn) as int),
                (r as int) % (pow2(mdn) as int) < pow2(mdn),
                (r as int) / (pow2(mdn) as int) == (b as int) / (pow2(mdn) as int),
                ((b as int) / (pow2(mdn) as int)) < pow2(ewn + 1),
                pow2(mdn + ewn + 1) == pow2(mdn) * pow2(ewn + 1),
        ;
    }
    r
}

/// The difference `x - trunc(x)`, computed exactly on the encoding.
fn fract_bits(b: u64, md: u64, ew: u64) -> (r: u64)
    requires
        is_format(md as nat, ew as nat),
        is_encoding(b as int, md as nat, ew as nat),
    ensures
        fract_post(b as int, r as int, md as nat, ew as nat),
{
    let e = exponent(b, md, ew);
    let bias = exponent_bias(ew);
    let smask = sign_mask(md, ew);
    let ghost mdn = md as nat;
    let ghost ewn = ew as nat;
    let ghost mg = magnitude(b as int, mdn, ewn);
    let ghost u = one(mdn, ewn);
    let ghost sb = sign_bit(b as int, mdn, ewn);
    proof {
        lemma2_to64();
        lemma2_to64_rest();
        lemma_fields_encode(b as int, mdn, ewn);
        lemma_encode_fields(false, 0, 0, mdn, ewn);
        lemma_magnitude_zero(b as int, mdn, ewn);
        lemma_pow2_pos(one_exp(mdn, ewn));
        lemma_pow2_adds(mdn, ewn);
        lemma_fundamental_div_mod(mg, u);
        lemma_mod_bound(mg, u);
        lemma_u64_shl_is_mul(1, ew);
    }
    if e == (1u64 << ew) - 1 {
        // Infinities and NaNs: a quiet NaN, keeping a NaN's payload.
        return quieten(b, md, ew);
    }
    if e >= bias + md {
        proof {
            lemma_magnitude_integral(b as int, mdn, ewn);
        }
        return 0;
    }
    if e < bias {
        proof {
            lemma_magnitude_below_one(b as int, mdn, ewn);
            trunc_of_small(value(b as int, mdn, ewn), u);
            lemma_zero_iff_no_magnitude_bits(b, mdn, ewn);
        }
        if b & !smask == 0 {
            return 0;
        }
        return b;
    }
    let k = bias + md - e;
    proof {
        lemma_clear_low_bits(b, k);
        lemma_chop(b as int, k as nat, mdn, ewn);
    }
    let frac = b & ((1u64 << k) - 1);
    if frac == 0 {
        return 0;
    }
    // Normalise: shift the fraction up until it has the implicit bit,
    // lowering the exponent as much.
    let ghost sc = scale(b as int, mdn, ewn);
    let top = 1u64 << md;
    let mut f = frac;
    let mut ex = e;
    let ghost mut j: nat = 0;
    proof {
        lemma_u64_shl_is_mul(1, md);
        lemma_pow2_pos(k as nat);
        lemma_mod_bound(b as int, pow2(k as nat) as int);
        if k < md {
            lemma_pow2_strictly_increases(k as nat, mdn);
        }
        assert(pow2(0) == 1);
    }
    while f < top
        invariant
            is_format(mdn, ewn),
            top == pow2(mdn),
            top < 0x20_0000_0000_0000,
            frac >= 1,
            f == frac * pow2(j),
            0 < f < 2 * top,
            ex == e - j,
            j <= mdn,
            bias <= e,
            ewn == 8 ==> bias == 127,
            ewn == 11 ==> bias == 1023,
        decreases mdn - j,
    {
        proof {
            lemma_pow2_pos(j);
            lemma_mul_increases(frac as int, pow2(j) as int);
            if j >= mdn {
                if j > mdn {
                    lemma_pow2_strictly_increases(mdn, j);
                }
                assert(false);
            }
            assert(j < mdn);
            lemma_pow2_unfold(j + 1);
            assert(f * 2 == frac * pow2(j + 1)) by (nonlinear_arith)
                requires
                    f == frac * pow2(j),
                    pow2(j + 1) == 2 * pow2(j),
            ;
        }
        f = f * 2;
        ex = ex - 1;
        proof {
            j = j + 1;
        }
    }
    proof {
        assert(ex >= 1);
        lemma_encode_fields(sb, ex as int, f - top, mdn, ewn);
        lemma_signed_zero(b, mdn, ewn);
        lemma_u64_shl_is_mul(ex, md);
        lemma_u64_shl_is_mul(1, (md + ew) as u64);
        lemma_pow2_adds(j, (e - j - 1) as nat);
        assert(ex < pow2(ewn) - 1);
        assert(ex * top < smask) by (nonlinear_arith)
            requires
                top > 0,
                ex < pow2(ewn),
                top == pow2(mdn),
                smask == pow2(mdn) * pow2(ewn),
        ;
        let s0 = b & smask;
        let ex_t = ex << md;
        assert(ex_t + (f - top) < smask) by (nonlinear_arith)
            requires
                ex_t == ex * top,
                ex * top < smask,
                ex < pow2(ewn) - 1,
                f < 2 * top,
                smask == top * pow2(ewn),
        ;
        let lo = (ex_t + (f - top)) as u64;
        assert(s0 | lo == s0 + lo) by (bit_vector)
            requires
                s0 == 0 || s0 == smask,
                lo < smask,
                smask == 1u64 << (md + ew),
                md + ew < 64,
        ;
        assert(f * pow2((ex - 1) as nat) == frac * pow2(sc)) by (nonlinear_arith)
            requires
                f == frac * pow2(j),
                pow2(sc) == pow2(j) * pow2((ex - 1) as nat),
        ;
    }
    (b & smask) | ((ex << md) + (f - top))
}

/// An encoding's exponent and sign bits, read together, are below `2^(ew+1)`.
proof fn lemma_high_fields_bound(b: int, md: nat, ew: nat)
    requires
        is_format(md, ew),
        is_encoding(b, md, ew),
    ensures
        b / (pow2(md) as int) < pow2(ew + 1),
{
    lemma_pow2_adds(md, ew + 1);
    lemma_pow2_pos(md);
    lemma_fundamental_div_mod(b, pow2(md) as int);
    lemma_mod_bound(b, pow2(md) as int);
    assert(b / (pow2(md) as int) < pow2(ew + 1)) by (nonlinear_arith)
        requires
            b == pow2(md) * (b / (pow2(md) as int)) + b % (pow2(md) as int),
            b % (pow2(md) as int) >= 0,
            b < pow2(md) * pow2(ew + 1),
            pow2(md) > 0,
    ;
}


/// Both formats: encodings fit the machine word they are held in.
proof fn lemma_format_range()
    ensures
        pow2(32) == 0x1_0000_0000,
        pow2(23 + 8 + 1) == 0x1_0000_0000,
        pow2(52 + 11 + 1) == 0x1_0000_0000_0000_0000,
        is_format(23, 8),
        is_format(52, 11),
{
    lemma2_to64();
    lemma2_to64_rest();
}

/// Truncation toward zero of a binary32 encoding.
pub fn trunc_f32(x: u32) -> (r: u32)
    ensures
        trunc_post(x as int, r as int, 23, 8),
{
    proof {
        lemma_format_range();
    }
    let r = trunc_bits(x as u64, 23, 8);
    r as u32
}

/// `trunc_f32` on each lane.
pub fn trunc_f32_lanes<const N: usize>(x: [u32; N]) -> (r: [u32; N])
    ensures
        forall|i: int| 0 <= i < N ==> trunc_post(x[i] as int, #[trigger] r[i] as int, 23, 8),
{
    let mut r = x;
    let mut i: usize = 0;
    while i < N
        invariant
            i <= N,
            forall|j: int| 0 <= j < i ==> trunc_post(x[j] as int, #[trigger] r[j] as int, 23, 8),
            forall|j: int| i <= j < N ==> r[j] == x[j],
        decreases N - i,
    {
        let y = trunc_f32(r[i]);
        r[i] = y;
        i = i + 1;
    }
    r
}

/// Truncation toward zero of a binary64 encoding.
pub fn trunc_f64(x: u64) -> (r: u64)
    ensures
        trunc_post(x as int, r as int, 52, 11),
{
    proof {
        lemma_format_range();
    }
    let r = trunc_bits(x, 52, 11);
    r
}

/// `trunc_f64` on each lane.
pub fn trunc_f64_lanes<const N: usize>(x: [u64; N]) -> (r: [u64; N])
    ensures
        forall|i: int| 0 <= i < N ==> trunc_post(x[i] as int, #[trigger] r[i] as int, 52, 11),
{
    let mut r = x;
    let mut i: usize = 0;
    while i < N
        invariant
            i <= N,
            forall|j: int| 0 <= j < i ==> trunc_post(x[j] as int, #[trigger] r[j] as int, 52, 11),
            forall|j: int| i <= j < N ==> r[j] == x[j],
        decreases N - i,
    {
        let y = trunc_f64(r[i]);
        r[i] = y;
        i = i + 1;
    }
    r
}

/// Rounding toward negative infinity of a binary32 encoding.
pub fn floor_f32(x: u32) -> (r: u32)
    ensures
        floor_post(x as int, r as int, 23, 8),
{
    proof {
        lemma_format_range();
    }
    let r = round_mode_bits(x as u64, 23, 8, 0);
    r as u32
}

/// `floor_f32` on each lane.
pub fn floor_f32_lanes<const N: usize>(x: [u32; N]) -> (r: [u32; N])
    ensures
        forall|i: int| 0 <= i < N ==> floor_post(x[i] as int, #[trigger] r[i] as int, 23, 8),
{
    let mut r = x;
    let mut i: usize = 0;
    while i < N
        invariant
            i <= N,
            forall|j: int| 0 <= j < i ==> floor_post(x[j] as int, #[trigger] r[j] as int, 23, 8),
            forall|j: int| i <= j < N ==> r[j] == x[j],
        decreases N - i,
    {
        let y = floor_f32(r[i]);
        r[i] = y;
        i = i + 1;
    }
    r
}

/// Rounding toward negative infinity of a binary64 encoding.
pub fn floor_f64(x: u64) -> (r: u64)
    ensures
        floor_post(x as int, r as int, 52, 11),
{
    proof {
        lemma_format_range();
    }
    let r = round_mode_bits(x, 52, 11, 0);
    r
}

/// `floor_f64` on each lane.
pub fn floor_f64_lanes<const N: usize>(x: [u64; N]) -> (r: [u64; N])
    ensures
        forall|i: int| 0 <= i < N ==> floor_post(x[i] as int, #[trigger] r[i] as int, 52, 11),
{
    let mut r = x;
    let mut i: usize = 0;
    while i < N
        invariant
            i <= N,
            forall|j: int| 0 <= j < i ==> floor_post(x[j] as int, #[trigger] r[j] as int, 52, 11),
            forall|j: int| i <= j < N ==> r[j] == x[j],
        decreases N - i,
    {
        let y = floor_f64(r[i]);
        r[i] = y;
        i = i + 1;
    }
    r
}

/// Rounding toward positive infinity of a binary32 encoding.
pub fn ceil_f32(x: u32) -> (r: u32)
    ensures
        ceil_post(x as int, r as int, 23, 8),
{
    proof {
        lemma_format_range();
    }
    let r = round_mode_bits(x as u64, 23, 8, 1);
    r as u32
}

/// `ceil_f32` on each lane.
pub fn ceil_f32_lanes<const N: usize>(x: [u32; N]) -> (r: [u32; N])
    ensures
        forall|i: int| 0 <= i < N ==> ceil_post(x[i] as int, #[trigger] r[i] as int, 23, 8),
{
    let mut r = x;
    let mut i: usize = 0;
    while i < N
        invariant
            i <= N,
            forall|j: int| 0 <= j < i ==> ceil_post(x[j] as int, #[trigger] r[j] as int, 23, 8),
            forall|j: int| i <= j < N ==> r[j] == x[j],
        decreases N - i,
    {
        let y = ceil_f32(r[i]);
        r[i] = y;
        i = i + 1;
    }
    r
}

/// Rounding toward positive infinity of a binary64 encoding.
pub fn ceil_f64(x: u64) -> (r: u64)
    ensures
        ceil_post(x as int, r as int, 52, 11),
{
    proof {
        lemma_format_range();
    }
    let r = round_mode_bits(x, 52, 11, 1);
    r
}

/// `ceil_f64` on each lane.
pub fn ceil_f64_lanes<const N: usize>(x: [u64; N]) -> (r: [u64; N])
    ensures
        forall|i: int| 0 <= i < N ==> ceil_post(x[i] as int, #[trigger] r[i] as int, 52, 11),
{
    let mut r = x;
    let mut i: usize = 0;
    while i < N
        invariant
            i <= N,
            forall|j: int| 0 <= j < i ==> ceil_post(x[j] as int, #[trigger] r[j] as int, 52, 11),
            forall|j: int| i <= j < N ==> r[j] == x[j],
        decreases N - i,
    {
        let y = ceil_f64(r[i]);
        r[i] = y;
        i = i + 1;
    }
    r
}

/// Rounding to nearest, ties to even, of a binary32 encoding.
pub fn round_f32(x: u32) -> (r: u32)
    ensures
        round_post(x as int, r as int, 23, 8),
{
    proof {
        lemma_format_range();
    }
    let r = round_mode_bits(x as u64, 23, 8, 2);
    r as u32
}

/// `round_f32` on each lane.
pub fn round_f32_lanes<const N: usize>(x: [u32; N]) -> (r: [u32; N])
    ensures
        forall|i: int| 0 <= i < N ==> round_post(x[i] as int, #[trigger] r[i] as int, 23, 8),
{
    let mut r = x;
    let mut i: usize = 0;
    while i < N
        invariant
            i <= N,
            forall|j: int| 0 <= j < i ==> round_post(x[j] as int, #[trigger] r[j] as int, 23, 8),
            forall|j: int| i <= j < N ==> r[j] == x[j],
        decreases N - i,
    {
        let y = round_f32(r[i]);
        r[i] = y;
        i = i + 1;
    }
    r
}

/// Rounding to nearest, ties to even, of a binary64 encoding.
pub fn round_f64(x: u64) -> (r: u64)
    ensures
        round_post(x as int, r as int, 52, 11),
{
    proof {
        lemma_format_range();
    }
    let r = round_mode_bits(x, 52, 11, 2);
    r
}

/// `round_f64` on each lane.
pub fn round_f64_lanes<const N: usize>(x: [u64; N]) -> (r: [u64; N])
    ensures
        forall|i: int| 0 <= i < N ==> round_post(x[i] as int, #[trigger] r[i] as int, 52, 11),
{
    let mut r = x;
    let mut i: usize = 0;
    while i < N
        invariant
            i <= N,
            forall|j: int| 0 <= j < i ==> round_post(x[j] as int, #[trigger] r[j] as int, 52, 11),
            forall|j: int| i <= j < N ==> r[j] == x[j],
        decreases N - i,
    {
        let y = round_f64(r[i]);
        r[i] = y;
        i = i + 1;
    }
    r
}

/// The fractional part `x - trunc(x)` of a binary32 encoding.
pub fn fract_f32(x: u32) -> (r: u32)
    ensures
        fract_post(x as int, r as int, 23, 8),
{
    proof {
        lemma_format_range();
    }
    let r = fract_bits(x as u64, 23, 8);
    r as u32
}

/// `fract_f32` on each lane.
pub fn fract_f32_lanes<const N: usize>(x: [u32; N]) -> (r: [u32; N])
    ensures
        forall|i: int| 0 <= i < N ==> fract_post(x[i] as int, #[trigger] r[i] as int, 23, 8),
{
    let mut r = x;
    let mut i: usize = 0;
    while i < N
        invariant
            i <= N,
            forall|j: int| 0 <= j < i ==> fract_post(x[j] as int, #[trigger] r[j] as int, 23, 8),
            forall|j: int| i <= j < N ==> r[j] == x[j],
        decreases N - i,
    {
        let y = fract_f32(r[i]);
        r[i] = y;
        i = i + 1;
    }
    r
}

/// The fractional part `x - trunc(x)` of a binary64 encoding.
pub fn fract_f64(x: u64) -> (r: u64)
    ensures
        fract_post(x as int, r as int, 52, 11),
{
    proof {
        lemma_format_range();
    }
    let r = fract_bits(x, 52, 11);
    r
}

/// `fract_f64` on each lane.
pub fn fract_f64_lanes<const N: usize>(x: [u64; N]) -> (r: [u64; N])
    ensures
        forall|i: int| 0 <= i < N ==> fract_post(x[i] as int, #[trigger] r[i] as int, 52, 11),
{
    let mut r = x;
    let mut i: usize = 0;
    while i < N
        invariant
            i <= N,
            forall|j: int| 0 <= j < i ==> fract_post(x[j] as int, #[trigger] r[j] as int, 52, 11),
            forall|j: int| i <= j < N ==> r[j] == x[j],
        decreases N - i,
    {
        let y = fract_f64(r[i]);
        r[i] = y;
        i = i + 1;
    }
    r
}
} // verus!
