//! The binary interchange formats as integers: fields of an encoding and the
//! exact value it denotes.
//!
//! A format is given by its number of explicit mantissa bits `md` and its
//! number of exponent bits `ew`: (23, 8) for binary32 and (52, 11) for
//! binary64. A finite encoding denotes a dyadic rational; scaled by
//! `2^(bias + md - 1)`, the place value of the least subnormal, it is an
//! integer, which is how values are stated throughout this crate.
use vstd::arithmetic::div_mod::*;
use vstd::arithmetic::mul::*;
use vstd::arithmetic::power2::*;
use vstd::bits::*;
use vstd::prelude::*;

verus! {

/// The two formats this crate handles.
pub open spec fn is_format(md: nat, ew: nat) -> bool {
    (md == 23 && ew == 8) || (md == 52 && ew == 11)
}

/// An encoding of the format: an integer of `1 + ew + md` bits.
pub open spec fn is_encoding(b: int, md: nat, ew: nat) -> bool {
    0 <= b < pow2(md + ew + 1)
}

/// The mantissa (trailing significand) field.
pub open spec fn man_field(b: int, md: nat) -> int {
    b % pow2(md) as int
}

/// The biased exponent field.
pub open spec fn exp_field(b: int, md: nat, ew: nat) -> int {
    (b / pow2(md) as int) % pow2(ew) as int
}

/// The sign bit is set.
pub open spec fn sign_bit(b: int, md: nat, ew: nat) -> bool {
    b / pow2(md + ew) as int == 1
}

/// The exponent field with every bit set (infinities and NaNs).
pub open spec fn exp_special(ew: nat) -> int {
    pow2(ew) - 1
}

/// The exponent bias: 127 for binary32, 1023 for binary64.
pub open spec fn bias(ew: nat) -> int {
    pow2((ew - 1) as nat) - 1
}

pub open spec fn is_finite(b: int, md: nat, ew: nat) -> bool {
    exp_field(b, md, ew) < exp_special(ew)
}

pub open spec fn is_nan(b: int, md: nat, ew: nat) -> bool {
    exp_field(b, md, ew) == exp_special(ew) && man_field(b, md) != 0
}

pub open spec fn is_infinite(b: int, md: nat, ew: nat) -> bool {
    exp_field(b, md, ew) == exp_special(ew) && man_field(b, md) == 0
}

/// The integer significand: the mantissa field, with the implicit leading
/// bit for normal numbers.
pub open spec fn significand(b: int, md: nat, ew: nat) -> int {
    if exp_field(b, md, ew) == 0 {
        man_field(b, md)
    } else {
        man_field(b, md) + pow2(md)
    }
}

/// Place value of the significand's last bit, as a power of the least
/// subnormal: 0 for subnormals, `e - 1` for exponent field `e >= 1`.
pub open spec fn scale(b: int, md: nat, ew: nat) -> nat {
    if exp_field(b, md, ew) == 0 {
        0
    } else {
        (exp_field(b, md, ew) - 1) as nat
    }
}

/// `|x|` divided by the least subnormal: an exact integer.
pub open spec fn magnitude(b: int, md: nat, ew: nat) -> int {
    significand(b, md, ew) * pow2(scale(b, md, ew))
}

/// `x` divided by the least subnormal, for a finite encoding `b`.
pub open spec fn value(b: int, md: nat, ew: nat) -> int {
    if sign_bit(b, md, ew) {
        -magnitude(b, md, ew)
    } else {
        magnitude(b, md, ew)
    }
}

/// Exponent of `one`: `bias + md - 1` (149 for binary32, 1074 for binary64).
pub open spec fn one_exp(md: nat, ew: nat) -> nat {
    (bias(ew) + md - 1) as nat
}

/// The number 1.0 on the scale of `value`.
pub open spec fn one(md: nat, ew: nat) -> int {
    pow2(one_exp(md, ew)) as int
}

/// The encoding with the given sign, exponent field and mantissa field.
pub open spec fn encode(s: bool, e: int, m: int, md: nat, ew: nat) -> int {
    (if s { pow2(md + ew) as int } else { 0 }) + e * pow2(md) + m
}

/// An encoding is its fields put together; and fields put together are
/// read back unchanged.
pub proof fn lemma_encode_fields(s: bool, e: int, m: int, md: nat, ew: nat)
    requires
        is_format(md, ew),
        0 <= e < pow2(ew),
        0 <= m < pow2(md),
    ensures
        is_encoding(encode(s, e, m, md, ew), md, ew),
        man_field(encode(s, e, m, md, ew), md) == m,
        exp_field(encode(s, e, m, md, ew), md, ew) == e,
        sign_bit(encode(s, e, m, md, ew), md, ew) == s,
{
    let b = encode(s, e, m, md, ew);
    let q = pow2(md) as int;
    let w = pow2(ew) as int;
    lemma_pow2_adds(md, ew);
    lemma_pow2_adds(md + ew, 1);
    lemma2_to64();
    lemma_pow2_pos(md);
    lemma_pow2_pos(ew);
    let hi: int = if s { w } else { 0 };
    assert(b == (hi + e) * q + m) by (nonlinear_arith)
        requires
            b == (if s { q * w } else { 0 }) + e * q + m,
            hi == (if s { w } else { 0int }),
    ;
    lemma_fundamental_div_mod_converse(b, q, hi + e, m);
    let si: int = if s { 1 } else { 0 };
    assert(hi + e == si * w + e);
    lemma_fundamental_div_mod_converse(hi + e, w, si, e);
    assert(b / (q * w) == si) by {
        lemma_div_denominator(b, q, w);
    }
    assert(b < pow2(md + ew + 1)) by (nonlinear_arith)
        requires
            b == (hi + e) * q + m,
            hi + e <= 2 * w - 1,
            m < q,
            q > 0,
            pow2(md + ew + 1) == q * w * 2,
    ;
}

/// Every encoding is its fields put together.
pub proof fn lemma_fields_encode(b: int, md: nat, ew: nat)
    requires
        is_format(md, ew),
        is_encoding(b, md, ew),
    ensures
        0 <= exp_field(b, md, ew) < pow2(ew),
        0 <= man_field(b, md) < pow2(md),
        b == encode(sign_bit(b, md, ew), exp_field(b, md, ew), man_field(b, md), md, ew),
        b / pow2(md + ew) as int == 0 || b / pow2(md + ew) as int == 1,
{
    let q = pow2(md) as int;
    let w = pow2(ew) as int;
    lemma_pow2_adds(md, ew);
    lemma_pow2_adds(md + ew, 1);
    lemma2_to64();
    lemma_pow2_pos(md);
    lemma_pow2_pos(ew);
    lemma_fundamental_div_mod(b, q);
    lemma_fundamental_div_mod(b / q, w);
    lemma_div_denominator(b, q, w);
    let hi = b / (q * w);
    assert(0 <= hi < 2) by {
        let d = q * w;
        lemma_mul_strictly_positive(q, w);
        lemma_fundamental_div_mod(b, d);
        lemma_mod_bound(b, d);
        lemma_div_pos_is_pos(b, d);
        assert(hi < 2) by (nonlinear_arith)
            requires
                b == d * hi + b % d,
                0 <= b % d,
                b < 2 * d,
                d > 0,
        ;
    }
    lemma_mod_bound(b, q);
    lemma_mod_bound(b / q, w);
    assert(b == hi * (q * w) + (b / q) % w * q + b % q) by (nonlinear_arith)
        requires
            b == q * (b / q) + b % q,
            b / q == w * ((b / q) / w) + (b / q) % w,
            hi == (b / q) / w,
    ;
}


/// Number of explicit mantissa bits: 23 for binary32, 52 for binary64.
pub fn mantissa_digits(ew: u64) -> (r: u64)
    requires
        ew == 8 || ew == 11,
    ensures
        is_format(r as nat, ew as nat),
{
    if ew == 8 {
        23
    } else {
        52
    }
}

/// The mask of the mantissa field: `2^md - 1`.
pub fn mantissa_mask(md: u64) -> (r: u64)
    requires
        md == 23 || md == 52,
    ensures
        r == pow2(md as nat) - 1,
{
    proof {
        lemma2_to64();
        lemma2_to64_rest();
        lemma_u64_shl_is_mul(1, md);
    }
    (1u64 << md) - 1
}

/// The exponent bias `2^(ew-1) - 1`.
pub fn exponent_bias(ew: u64) -> (r: u64)
    requires
        ew == 8 || ew == 11,
    ensures
        r == bias(ew as nat),
        ew == 8 ==> r == 127,
        ew == 11 ==> r == 1023,
{
    proof {
        lemma2_to64();
        lemma_u64_shl_is_mul(1, (ew - 1) as u64);
    }
    (1u64 << (ew - 1)) - 1
}

/// The biased exponent field of the encoding `b`.
pub fn exponent(b: u64, md: u64, ew: u64) -> (e: u64)
    requires
        is_format(md as nat, ew as nat),
    ensures
        e == exp_field(b as int, md as nat, ew as nat),
{
    proof {
        lemma2_to64();
        lemma_u64_shr_is_div(b, md);
        lemma_u64_low_bits_mask_is_mod(b >> md, ew as nat);
        lemma_u64_shl_is_mul(1, ew);
    }
    (b >> md) & ((1u64 << ew) - 1)
}

/// The sign bit of the format, as a mask.
pub fn sign_mask(md: u64, ew: u64) -> (r: u64)
    requires
        is_format(md as nat, ew as nat),
    ensures
        r == pow2((md + ew) as nat),
{
    proof {
        lemma2_to64();
        lemma2_to64_rest();
        lemma_u64_shl_is_mul(1, (md + ew) as u64);
    }
    1u64 << (md + ew)
}

/// Clearing the low `k` bits takes off the remainder by `2^k`.
pub proof fn lemma_clear_low_bits(b: u64, k: u64)
    requires
        k < 64,
    ensures
        (1u64 << k) == pow2(k as nat),
        (1u64 << k) >= 1,
        b & !(((1u64 << k) - 1) as u64) == b as int - (b as int) % (pow2(k as nat) as int),
        b & ((1u64 << k) - 1) as u64 == (b as int) % (pow2(k as nat) as int),
{
    lemma_u64_pow2_no_overflow(k as nat);
    lemma_pow2_pos(k as nat);
    lemma_u64_shl_is_mul(1, k);
    let m = ((1u64 << k) - 1) as u64;
    assert(m == low_bits_mask(k as nat));
    lemma_u64_low_bits_mask_is_mod(b, k as nat);
    assert(b & !m == b - (b & m)) by (bit_vector);
}

/// The remainder of an encoding by `2^k`, `k <= md`, is that of its mantissa.
pub proof fn lemma_low_bits_in_mantissa(b: int, k: nat, md: nat)
    requires
        k <= md,
        b >= 0,
    ensures
        b % (pow2(k) as int) == man_field(b, md) % (pow2(k) as int),
        pow2(md) as int % pow2(k) as int == 0,
{
    lemma_pow2_adds(k, (md - k) as nat);
    lemma_pow2_pos(k);
    lemma_pow2_pos((md - k) as nat);
    lemma_mod_mod(b, pow2(k) as int, pow2((md - k) as nat) as int);
    lemma_mod_multiples_basic(pow2((md - k) as nat) as int, pow2(k) as int);
}

/// `(s * 2^p) / 2^(p+k) == s / 2^k`, and `s` rounded down to a multiple of
/// `2^k`, times `2^p`, is that quotient times `2^(p+k)`.
pub proof fn lemma_scaled_quotient(s: int, p: nat, k: nat)
    requires
        s >= 0,
    ensures
        (s * pow2(p)) / (pow2(p + k) as int) == s / (pow2(k) as int),
        (s - s % (pow2(k) as int)) * pow2(p) == (s / (pow2(k) as int)) * pow2(p + k),
{
    let a = pow2(p) as int;
    let c = pow2(k) as int;
    lemma_pow2_adds(p, k);
    lemma_pow2_pos(p);
    lemma_pow2_pos(k);
    lemma_div_denominator(s * a, a, c);
    lemma_div_multiples_vanish(s, a);
    assert(s * a == a * s) by (nonlinear_arith);
    lemma_fundamental_div_mod(s, c);
    assert((s - s % c) * a == (s / c) * (a * c)) by (nonlinear_arith)
        requires
            s == c * (s / c) + s % c,
    ;
}

/// A finite number whose exponent field is below the bias has magnitude
/// below one.
pub proof fn lemma_magnitude_below_one(b: int, md: nat, ew: nat)
    requires
        is_format(md, ew),
        is_encoding(b, md, ew),
        exp_field(b, md, ew) < bias(ew),
    ensures
        0 <= magnitude(b, md, ew) < one(md, ew),
{
    lemma_fields_encode(b, md, ew);
    lemma2_to64();
    let e = exp_field(b, md, ew);
    let sg = significand(b, md, ew);
    let sc = scale(b, md, ew);
    lemma_pow2_pos(sc);
    assert(sg < pow2(md + 1)) by {
        lemma_pow2_unfold(md + 1);
    }
    lemma_pow2_adds(md + 1, sc);
    assert(md + 1 + sc <= one_exp(md, ew));
    if md + 1 + sc < one_exp(md, ew) {
        lemma_pow2_strictly_increases(md + 1 + sc, one_exp(md, ew));
    }
    assert(sg * pow2(sc) <= (pow2(md + 1) - 1) * pow2(sc)) by {
        lemma_mul_inequality(sg, pow2(md + 1) - 1, pow2(sc) as int);
    }
    assert((pow2(md + 1) - 1) * pow2(sc) < pow2(md + 1) * pow2(sc)) by (nonlinear_arith)
        requires
            pow2(sc) > 0,
    ;
    lemma_mul_nonnegative(sg, pow2(sc) as int);
}

/// A finite number whose exponent field is at least `bias + md` is a whole
/// multiple of one.
pub proof fn lemma_magnitude_integral(b: int, md: nat, ew: nat)
    requires
        is_format(md, ew),
        is_encoding(b, md, ew),
        exp_field(b, md, ew) >= bias(ew) + md,
    ensures
        magnitude(b, md, ew) / one(md, ew) * one(md, ew) == magnitude(b, md, ew),
        magnitude(b, md, ew) % one(md, ew) == 0,
{
    lemma_fields_encode(b, md, ew);
    lemma2_to64();
    let sc = scale(b, md, ew);
    let u = one_exp(md, ew);
    let sg = significand(b, md, ew);
    let d = (sc - u) as nat;
    lemma_pow2_adds(d, u);
    lemma_pow2_pos(u);
    let x = sg * pow2(d);
    assert(magnitude(b, md, ew) == x * pow2(u)) by (nonlinear_arith)
        requires
            magnitude(b, md, ew) == sg * pow2(sc),
            pow2(sc) == pow2(d) * pow2(u),
            x == sg * pow2(d),
    ;
    lemma_mod_multiples_basic(x, pow2(u) as int);
    lemma_fundamental_div_mod(magnitude(b, md, ew), one(md, ew));
}


/// A finite encoding is determined by its sign bit and its value: no two
/// encodings denote the same number with the same sign.
pub proof fn lemma_encoding_unique(a: int, b: int, md: nat, ew: nat)
    requires
        is_format(md, ew),
        is_encoding(a, md, ew),
        is_encoding(b, md, ew),
        is_finite(a, md, ew),
        is_finite(b, md, ew),
        sign_bit(a, md, ew) == sign_bit(b, md, ew),
        magnitude(a, md, ew) == magnitude(b, md, ew),
    ensures
        a == b,
{
    lemma_fields_encode(a, md, ew);
    lemma_fields_encode(b, md, ew);
    lemma_exponent_from_magnitude(a, b, md, ew);
    lemma_exponent_from_magnitude(b, a, md, ew);
    let ea = exp_field(a, md, ew);
    let sc = scale(a, md, ew);
    lemma_pow2_pos(sc);
    assert(significand(a, md, ew) == significand(b, md, ew)) by {
        let sa = significand(a, md, ew);
        let sb = significand(b, md, ew);
        let p = pow2(sc) as int;
        assert(scale(b, md, ew) == sc);
        assert(sa * p == sb * p);
        assert(sa == sb) by (nonlinear_arith)
            requires
                sa * p == sb * p,
                p > 0,
        ;
    }
}

/// Bounds on the magnitude by exponent field, as used for uniqueness:
/// the exponent field of `a` is at most that of `b` when the magnitudes
/// agree.
proof fn lemma_exponent_from_magnitude(a: int, b: int, md: nat, ew: nat)
    requires
        is_format(md, ew),
        is_encoding(a, md, ew),
        is_encoding(b, md, ew),
        magnitude(a, md, ew) == magnitude(b, md, ew),
    ensures
        exp_field(a, md, ew) <= exp_field(b, md, ew),
{
    lemma_fields_encode(a, md, ew);
    lemma_fields_encode(b, md, ew);
    let ea = exp_field(a, md, ew);
    let eb = exp_field(b, md, ew);
    if ea > eb {
        // |a| >= 2^md * 2^(ea-1) >= 2^(md + eb) > |b|
        let pa = (ea - 1) as nat;
        let sb = scale(b, md, ew);
        lemma_pow2_pos(pa);
        lemma_pow2_pos(sb);
        lemma_pow2_pos(md);
        assert(magnitude(a, md, ew) >= pow2(md) * pow2(pa)) by {
            lemma_mul_inequality(pow2(md) as int, significand(a, md, ew), pow2(pa) as int);
        }
        assert(significand(b, md, ew) < pow2(md + 1)) by {
            lemma_pow2_unfold(md + 1);
        }
        if eb == 0 {
            lemma_mul_increases(pow2(pa) as int, pow2(md) as int);
            assert(pow2(md) * pow2(pa) >= pow2(md)) by (nonlinear_arith)
                requires
                    pow2(pa) >= 1,
            ;
            assert(pow2(sb) == 1) by {
                lemma2_to64();
            }
            assert(scale(b, md, ew) == 0);
            assert(pow2(scale(b, md, ew)) == 1);
            assert(magnitude(b, md, ew) == significand(b, md, ew) * 1);
            assert(significand(b, md, ew) < pow2(md));
            assert(false);
        } else {
            lemma_pow2_adds(md + 1, sb);
            lemma_pow2_adds(md, pa);
            assert(md + 1 + sb <= md + pa);
            if md + 1 + sb < md + pa {
                lemma_pow2_strictly_increases(md + 1 + sb, md + pa);
            }
            assert(magnitude(b, md, ew) < pow2(md + 1) * pow2(sb)) by (nonlinear_arith)
                requires
                    magnitude(b, md, ew) == significand(b, md, ew) * pow2(sb),
                    significand(b, md, ew) < pow2(md + 1),
                    pow2(sb) > 0,
            ;
            assert(false);
        }
    }
}

/// Only the two zeros have magnitude zero.
pub proof fn lemma_magnitude_zero(b: int, md: nat, ew: nat)
    requires
        is_format(md, ew),
        is_encoding(b, md, ew),
    ensures
        magnitude(b, md, ew) >= 0,
        magnitude(b, md, ew) == 0 <==> b == encode(sign_bit(b, md, ew), 0, 0, md, ew),
{
    lemma_fields_encode(b, md, ew);
    let sg = significand(b, md, ew);
    let sc = scale(b, md, ew);
    lemma_pow2_pos(sc);
    lemma_pow2_pos(md);
    lemma_mul_nonnegative(sg, pow2(sc) as int);
    if sg != 0 {
        lemma_mul_strictly_positive(sg, pow2(sc) as int);
    }
    lemma_encode_fields(sign_bit(b, md, ew), 0, 0, md, ew);
}

/// Only the zeros have no bit set but the sign bit.
pub proof fn lemma_zero_iff_no_magnitude_bits(b: u64, md: nat, ew: nat)
    requires
        is_format(md, ew),
        is_encoding(b as int, md, ew),
    ensures
        (b & !(pow2(md + ew) as u64) == 0) <==> b == encode(sign_bit(b as int, md, ew), 0, 0, md, ew),
{
    lemma2_to64();
    lemma2_to64_rest();
    lemma_fields_encode(b as int, md, ew);
    lemma_pow2_adds(md + ew, 1);
    let n = (md + ew) as u64;
    lemma_u64_shl_is_mul(1, n);
    lemma_u64_shr_is_div(b, n);
    assert(b >> n <= 1 ==> ((b & !(1u64 << n) == 0) <==> (b == 0 || b == (1u64 << n)))) by (bit_vector)
        requires
            n < 64,
    ;
    lemma_encode_fields(false, 0, 0, md, ew);
    lemma_encode_fields(true, 0, 0, md, ew);
}

} // verus!
