//! Relations between the rounding kernels, proved over their contracts.
//! Each holds for both formats.
use vstd::arithmetic::div_mod::*;
use vstd::arithmetic::power2::*;
use vstd::prelude::*;

use crate::encoding::{
    is_encoding, is_finite, is_format, lemma_encoding_unique, lemma_fields_encode, magnitude,
    one, one_exp, sign_bit, value,
};
use crate::rounding::{
    ceil_of, ceil_post, floor_of, floor_post, fract_post, nearest_even_of, round_of, round_post,
    trunc_of, trunc_post,
};

verus! {

/// Two finite encodings with one sign and one value are the same.
proof fn lemma_same_value(a: int, b: int, md: nat, ew: nat)
    requires
        is_format(md, ew),
        is_encoding(a, md, ew),
        is_encoding(b, md, ew),
        is_finite(a, md, ew),
        is_finite(b, md, ew),
        sign_bit(a, md, ew) == sign_bit(b, md, ew),
        value(a, md, ew) == value(b, md, ew),
    ensures
        a == b,
{
    lemma_fields_encode(a, md, ew);
    lemma_fields_encode(b, md, ew);
    lemma_magnitude_nonneg(a, md, ew);
    lemma_magnitude_nonneg(b, md, ew);
    lemma_encoding_unique(a, b, md, ew);
}

proof fn lemma_magnitude_nonneg(a: int, md: nat, ew: nat)
    requires
        is_format(md, ew),
        is_encoding(a, md, ew),
    ensures
        magnitude(a, md, ew) >= 0,
{
    lemma_fields_encode(a, md, ew);
    lemma_pow2_pos(crate::encoding::scale(a, md, ew));
    vstd::arithmetic::mul::lemma_mul_nonnegative(
        crate::encoding::significand(a, md, ew),
        pow2(crate::encoding::scale(a, md, ew)) as int,
    );
}

/// A multiple of `u` is left unchanged by each way of rounding to one.
proof fn lemma_multiple_fixed(v: int, u: int)
    requires
        u > 0,
        v % u == 0,
    ensures
        floor_of(v, u) == v,
        ceil_of(v, u) == v,
        trunc_of(v, u) == v,
        round_of(v, u) == v,
{
    lemma_fundamental_div_mod(v, u);
    assert(v / u * u == v) by (nonlinear_arith)
        requires
            v == u * (v / u) + v % u,
            v % u == 0,
    ;
    lemma_mod_multiples_basic(-(v / u), u);
    assert(-v == -(v / u) * u) by (nonlinear_arith)
        requires
            v / u * u == v,
    ;
    lemma_fundamental_div_mod(-v, u);
    lemma_mod_multiples_basic(v / u, u);
    assert((-v) / u * u == -v) by (nonlinear_arith)
        requires
            -v == u * ((-v) / u) + (-v) % u,
            (-v) % u == 0,
    ;
}

/// Every way of rounding to a multiple of `u` gives a multiple of `u`.
proof fn lemma_results_are_multiples(v: int, u: int)
    requires
        u > 0,
    ensures
        floor_of(v, u) % u == 0,
        ceil_of(v, u) % u == 0,
        trunc_of(v, u) % u == 0,
        round_of(v, u) % u == 0,
{
    lemma_mod_multiples_basic(v / u, u);
    lemma_mod_multiples_basic(-((-v) / u), u);
    assert(-((-v) / u * u) == -((-v) / u) * u) by (nonlinear_arith);
    let a = if v >= 0 { v } else { -v };
    lemma_mod_multiples_basic(-(a / u), u);
    assert(-(a / u * u) == -(a / u) * u) by (nonlinear_arith);
    lemma_mod_multiples_basic(a / u, u);
    lemma_mod_multiples_basic(a / u + 1, u);
    lemma_mod_multiples_basic(-(a / u + 1), u);
    assert(-((a / u + 1) * u) == -(a / u + 1) * u) by (nonlinear_arith);
    assert(nearest_even_of(a, u) % u == 0);
}

/// Truncating twice is truncating once.
pub proof fn law_trunc_idempotent(x: int, y: int, z: int, md: nat, ew: nat)
    requires
        is_format(md, ew),
        is_encoding(x, md, ew),
        trunc_post(x, y, md, ew),
        trunc_post(y, z, md, ew),
    ensures
        z == y,
{
    if is_finite(x, md, ew) {
        lemma_pow2_pos(one_exp(md, ew));
        lemma_results_are_multiples(value(x, md, ew), one(md, ew));
        lemma_multiple_fixed(value(y, md, ew), one(md, ew));
        lemma_same_value(y, z, md, ew);
    }
}

/// Flooring twice is flooring once.
pub proof fn law_floor_idempotent(x: int, y: int, z: int, md: nat, ew: nat)
    requires
        is_format(md, ew),
        is_encoding(x, md, ew),
        floor_post(x, y, md, ew),
        floor_post(y, z, md, ew),
    ensures
        z == y,
{
    if is_finite(x, md, ew) {
        lemma_pow2_pos(one_exp(md, ew));
        lemma_results_are_multiples(value(x, md, ew), one(md, ew));
        lemma_multiple_fixed(value(y, md, ew), one(md, ew));
        lemma_same_value(y, z, md, ew);
    }
}

/// Taking the ceiling twice is taking it once.
pub proof fn law_ceil_idempotent(x: int, y: int, z: int, md: nat, ew: nat)
    requires
        is_format(md, ew),
        is_encoding(x, md, ew),
        ceil_post(x, y, md, ew),
        ceil_post(y, z, md, ew),
    ensures
        z == y,
{
    if is_finite(x, md, ew) {
        lemma_pow2_pos(one_exp(md, ew));
        lemma_results_are_multiples(value(x, md, ew), one(md, ew));
        lemma_multiple_fixed(value(y, md, ew), one(md, ew));
        lemma_same_value(y, z, md, ew);
    }
}

/// Rounding twice is rounding once.
pub proof fn law_round_idempotent(x: int, y: int, z: int, md: nat, ew: nat)
    requires
        is_format(md, ew),
        is_encoding(x, md, ew),
        round_post(x, y, md, ew),
        round_post(y, z, md, ew),
    ensures
        z == y,
{
    if is_finite(x, md, ew) {
        lemma_pow2_pos(one_exp(md, ew));
        lemma_results_are_multiples(value(x, md, ew), one(md, ew));
        lemma_multiple_fixed(value(y, md, ew), one(md, ew));
        lemma_same_value(y, z, md, ew);
    }
}

/// For finite `x`: `floor(x) <= x <= ceil(x)`, and `floor(x)` is `x`
/// itself exactly when `x` is integral.
pub proof fn law_floor_below_ceil_above(x: int, f: int, c: int, md: nat, ew: nat)
    requires
        is_format(md, ew),
        is_encoding(x, md, ew),
        is_finite(x, md, ew),
        floor_post(x, f, md, ew),
        ceil_post(x, c, md, ew),
    ensures
        value(f, md, ew) <= value(x, md, ew) <= value(c, md, ew),
        f == x <==> value(x, md, ew) % one(md, ew) == 0,
{
    let v = value(x, md, ew);
    let u = one(md, ew);
    lemma_pow2_pos(one_exp(md, ew));
    lemma_fundamental_div_mod(v, u);
    lemma_mod_bound(v, u);
    lemma_fundamental_div_mod(-v, u);
    lemma_mod_bound(-v, u);
    assert(v / u * u <= v) by (nonlinear_arith)
        requires
            v == u * (v / u) + v % u,
            v % u >= 0,
    ;
    assert((-v) / u * u <= -v) by (nonlinear_arith)
        requires
            -v == u * ((-v) / u) + (-v) % u,
            (-v) % u >= 0,
    ;
    if v % u == 0 {
        lemma_multiple_fixed(v, u);
        lemma_same_value(f, x, md, ew);
    } else {
        lemma_results_are_multiples(v, u);
    }
}

/// For finite `x`: the values of `trunc(x)` and `fract(x)` add up to the
/// value of `x` exactly, so their floating-point sum is `x` (up to the sign
/// of a zero sum).
pub proof fn law_trunc_plus_fract(x: int, t: int, f: int, md: nat, ew: nat)
    requires
        is_format(md, ew),
        is_encoding(x, md, ew),
        is_finite(x, md, ew),
        trunc_post(x, t, md, ew),
        fract_post(x, f, md, ew),
    ensures
        value(t, md, ew) + value(f, md, ew) == value(x, md, ew),
        is_finite(t, md, ew) && is_finite(f, md, ew),
{
}


/// Each rounding contract determines its result: two encodings that both
/// meet it for the same input are the same encoding. (For `fract` this
/// holds for finite input; any NaN meets it for the others.)
pub proof fn law_results_determined(x: int, a: int, b: int, md: nat, ew: nat)
    requires
        is_format(md, ew),
        is_encoding(x, md, ew),
    ensures
        trunc_post(x, a, md, ew) && trunc_post(x, b, md, ew) ==> a == b,
        floor_post(x, a, md, ew) && floor_post(x, b, md, ew) ==> a == b,
        ceil_post(x, a, md, ew) && ceil_post(x, b, md, ew) ==> a == b,
        round_post(x, a, md, ew) && round_post(x, b, md, ew) ==> a == b,
        is_finite(x, md, ew) && fract_post(x, a, md, ew) && fract_post(x, b, md, ew) ==> a == b,
{
    if is_finite(x, md, ew) {
        if is_encoding(a, md, ew) && is_encoding(b, md, ew) && is_finite(a, md, ew) && is_finite(
            b,
            md,
            ew,
        ) && value(a, md, ew) == value(b, md, ew) {
            lemma_fields_encode(a, md, ew);
            lemma_fields_encode(b, md, ew);
            lemma_magnitude_nonneg(a, md, ew);
            lemma_magnitude_nonneg(b, md, ew);
            if sign_bit(a, md, ew) == sign_bit(b, md, ew) {
                lemma_same_value(a, b, md, ew);
            }
            if fract_post(x, a, md, ew) && fract_post(x, b, md, ew) && sign_bit(a, md, ew)
                != sign_bit(b, md, ew) {
                // Opposite signs and equal values: both are zero, which
                // `fract` gives the positive sign.
                assert(value(a, md, ew) == 0);
            }
        }
    }
}

} // verus!
