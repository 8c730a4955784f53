use vapor::fma::fma_tie_adjust;
use vapor::rounding::{
    ceil_f32, ceil_f32_lanes, ceil_f64, floor_f32, floor_f32_lanes, floor_f64, floor_f64_lanes,
    fract_f32, fract_f64, round_f32, round_f64, round_f64_lanes, trunc_f32, trunc_f32_lanes,
    trunc_f64,
};
use vapor::sqrt::{mul32, sqrt_f32, sqrt_f32_lanes, sqrt_f64, sqrt_f64_lanes};

fn f32_of(bits: u32) -> f32 {
    f32::from_bits(bits)
}

fn f64_of(bits: u64) -> f64 {
    f64::from_bits(bits)
}

fn r32(op: fn(u32) -> u32, x: f32) -> f32 {
    f32_of(op(x.to_bits()))
}

fn r64(op: fn(u64) -> u64, x: f64) -> f64 {
    f64_of(op(x.to_bits()))
}

#[test]
fn round_ties_go_to_even() {
    assert_eq!(r32(round_f32, 2.5).to_bits(), 2.0f32.to_bits());
    assert_eq!(r32(round_f32, -2.5).to_bits(), (-2.0f32).to_bits());
    assert_eq!(r32(round_f32, 0.5).to_bits(), 0.0f32.to_bits());
    assert_eq!(r32(round_f32, 1.5).to_bits(), 2.0f32.to_bits());
    assert_eq!(r64(round_f64, 2.5).to_bits(), 2.0f64.to_bits());
    assert_eq!(r64(round_f64, -2.5).to_bits(), (-2.0f64).to_bits());
    assert_eq!(r64(round_f64, 0.5).to_bits(), 0.0f64.to_bits());
    assert_eq!(r64(round_f64, 1.5).to_bits(), 2.0f64.to_bits());
    assert_eq!(r32(round_f32, -0.5).to_bits(), (-0.0f32).to_bits());
    assert_eq!(r32(round_f32, 0.75).to_bits(), 1.0f32.to_bits());
    assert_eq!(r32(round_f32, 3.5).to_bits(), 4.0f32.to_bits());
    assert_eq!(r64(round_f64, -3.5).to_bits(), (-4.0f64).to_bits());
}

#[test]
fn floor_and_ceil_near_zero() {
    assert_eq!(r32(floor_f32, 0.0).to_bits(), 0.0f32.to_bits());
    assert_eq!(r32(ceil_f32, -0.0).to_bits(), (-0.0f32).to_bits());
    assert_eq!(r32(floor_f32, -0.5).to_bits(), (-1.0f32).to_bits());
    assert_eq!(r32(ceil_f32, 0.5).to_bits(), 1.0f32.to_bits());
    assert_eq!(r64(floor_f64, 0.0).to_bits(), 0.0f64.to_bits());
    assert_eq!(r64(ceil_f64, -0.0).to_bits(), (-0.0f64).to_bits());
    assert_eq!(r64(floor_f64, -0.5).to_bits(), (-1.0f64).to_bits());
    assert_eq!(r64(ceil_f64, 0.5).to_bits(), 1.0f64.to_bits());
    assert_eq!(r32(floor_f32, -0.0).to_bits(), (-0.0f32).to_bits());
    assert_eq!(r32(ceil_f32, -0.5).to_bits(), (-0.0f32).to_bits());
    assert_eq!(r32(floor_f32, 0.3).to_bits(), 0.0f32.to_bits());
}

#[test]
fn rounding_in_the_middle_range() {
    assert_eq!(r32(trunc_f32, 3.75), 3.0);
    assert_eq!(r32(trunc_f32, -3.75), -3.0);
    assert_eq!(r32(floor_f32, -3.25), -4.0);
    assert_eq!(r32(ceil_f32, 3.25), 4.0);
    assert_eq!(r32(floor_f32, 1.999_999_9), 1.0);
    assert_eq!(r32(ceil_f32, 1.999_999_9), 2.0);
    assert_eq!(r32(ceil_f32, 8_388_607.5), 8_388_608.0);
    assert_eq!(r32(floor_f32, -8_388_607.5), -8_388_608.0);
    assert_eq!(r64(trunc_f64, -123456.789), -123456.0);
    assert_eq!(r64(floor_f64, -123456.789), -123457.0);
    assert_eq!(r64(ceil_f64, 123456.001), 123457.0);
}

#[test]
fn fract_exact_values() {
    assert_eq!(r32(fract_f32, 3.75), 0.75);
    assert_eq!(r32(fract_f32, -3.75), -0.75);
    assert_eq!(r32(fract_f32, 0.125), 0.125);
    assert_eq!(r32(fract_f32, 5.0).to_bits(), 0.0f32.to_bits());
    assert_eq!(r32(fract_f32, -5.0).to_bits(), 0.0f32.to_bits());
    assert_eq!(r32(fract_f32, -0.0).to_bits(), 0.0f32.to_bits());
    assert_eq!(r32(fract_f32, 1.0e20).to_bits(), 0.0f32.to_bits());
    assert_eq!(r64(fract_f64, 2.5), 0.5);
    assert_eq!(r64(fract_f64, -1.0e-300), -1.0e-300);
    assert!(r32(fract_f32, f32::INFINITY).is_nan());
    assert!(r32(fract_f32, f32::NEG_INFINITY).is_nan());
    assert!(r64(fract_f64, f64::NAN).is_nan());
}

#[test]
fn non_finite_pass_through() {
    for x in [f32::INFINITY, f32::NEG_INFINITY] {
        assert_eq!(r32(trunc_f32, x).to_bits(), x.to_bits());
        assert_eq!(r32(floor_f32, x).to_bits(), x.to_bits());
        assert_eq!(r32(ceil_f32, x).to_bits(), x.to_bits());
        assert_eq!(r32(round_f32, x).to_bits(), x.to_bits());
    }
    let nan = f64::NAN.to_bits() | 5;
    assert_eq!(round_f64(nan), nan);
    assert_eq!(floor_f64(nan), nan);
    assert_eq!(trunc_f64(nan), nan);
    assert_eq!(ceil_f64(nan), nan);
}

#[test]
fn sqrt_special_and_exact() {
    assert!(r32(sqrt_f32, -1.0).is_nan());
    assert!(r32(sqrt_f32, f32::NAN).is_nan());
    assert!(r32(sqrt_f32, f32::NEG_INFINITY).is_nan());
    assert!(r32(sqrt_f32, -1.0e-45).is_nan());
    assert_eq!(r32(sqrt_f32, f32::INFINITY), f32::INFINITY);
    assert_eq!(r32(sqrt_f32, 0.0).to_bits(), 0.0f32.to_bits());
    assert_eq!(r32(sqrt_f32, -0.0).to_bits(), (-0.0f32).to_bits());
    assert_eq!(r32(sqrt_f32, 4.0).to_bits(), 2.0f32.to_bits());
    assert_eq!(r32(sqrt_f32, 1.0), 1.0);
    assert_eq!(r32(sqrt_f32, 2.0), 2.0f32.sqrt());
    assert_eq!(r32(sqrt_f32, 0.25), 0.5);
    assert_eq!(r32(sqrt_f32, 1.0e-45), 1.0e-45f32.sqrt());
    assert_eq!(r32(sqrt_f32, f32::MAX), f32::MAX.sqrt());
}

#[test]
fn sqrt_f64_special_and_exact() {
    assert!(r64(sqrt_f64, -1.0).is_nan());
    assert!(r64(sqrt_f64, f64::NAN).is_nan());
    assert!(r64(sqrt_f64, f64::NEG_INFINITY).is_nan());
    assert_eq!(r64(sqrt_f64, f64::INFINITY), f64::INFINITY);
    assert_eq!(r64(sqrt_f64, 0.0).to_bits(), 0.0f64.to_bits());
    assert_eq!(r64(sqrt_f64, -0.0).to_bits(), (-0.0f64).to_bits());
    assert_eq!(r64(sqrt_f64, 4.0).to_bits(), 2.0f64.to_bits());
    assert_eq!(r64(sqrt_f64, 2.0), 2.0f64.sqrt());
    assert_eq!(r64(sqrt_f64, 5e-324), 5e-324f64.sqrt());
    assert_eq!(r64(sqrt_f64, f64::MAX), f64::MAX.sqrt());
    let l = sqrt_f64_lanes([16.0f64, -4.0].map(f64::to_bits)).map(f64::from_bits);
    assert_eq!(l[0], 4.0);
    assert!(l[1].is_nan());
}

#[test]
fn mul32_high_half() {
    assert_eq!(mul32(0, 0xffff_ffff), 0);
    assert_eq!(mul32(0xffff_ffff, 0xffff_ffff), 0xffff_fffe);
    assert_eq!(mul32(0x8000_0000, 0x8000_0000), 0x4000_0000);
    assert_eq!(mul32(0x1_0000, 0x1_0000), 1);
    assert_eq!(mul32(0xffff, 0x1_0001), 0);
}

#[test]
fn lanes_act_independently() {
    let x = [2.5f32, -0.5, f32::INFINITY, -7.25].map(f32::to_bits);
    let t = trunc_f32_lanes(x).map(f32::from_bits);
    assert_eq!(t[0], 2.0);
    assert_eq!(t[1].to_bits(), (-0.0f32).to_bits());
    assert_eq!(t[2], f32::INFINITY);
    assert_eq!(t[3], -7.0);
    let f = floor_f32_lanes(x).map(f32::from_bits);
    assert_eq!([f[0], f[1], f[3]], [2.0, -1.0, -8.0]);
    let c = ceil_f32_lanes([0.5f32, -0.5].map(f32::to_bits)).map(f32::from_bits);
    assert_eq!(c[0], 1.0);
    assert_eq!(c[1].to_bits(), (-0.0f32).to_bits());
    let r = round_f64_lanes([0.5f64, 1.5, 2.5, -2.5, 1e300, -0.49, 7.5, 8.5].map(f64::to_bits))
        .map(f64::from_bits);
    assert_eq!(r, [0.0, 2.0, 2.0, -2.0, 1e300, -0.0, 8.0, 8.0]);
    let fl = floor_f64_lanes([-1.5f64, 1.5].map(f64::to_bits)).map(f64::from_bits);
    assert_eq!(fl, [-2.0, 1.0]);
    let s = sqrt_f32_lanes([4.0f32, 9.0, -1.0, 0.0].map(f32::to_bits)).map(f32::from_bits);
    assert_eq!([s[0], s[1], s[3]], [2.0, 3.0, 0.0]);
    assert!(s[2].is_nan());
}

#[test]
fn fma_tie_adjust_moves_toward_exact_sum() {
    // 1 + 2^-24 is halfway between two binary32 neighbours of one.
    let tie = 1.0f64.to_bits() + 0x1000_0000;
    assert_eq!(fma_tie_adjust(tie, false, false), tie + 1);
    assert_eq!(fma_tie_adjust(tie, false, true), tie - 1);
    assert_eq!(fma_tie_adjust(tie, true, false), tie);
    let neg_tie = (-1.0f64).to_bits() + 0x1000_0000;
    assert_eq!(fma_tie_adjust(neg_tie, false, true), neg_tie + 1);
    assert_eq!(fma_tie_adjust(neg_tie, false, false), neg_tie - 1);
    let not_tie = 1.5f64.to_bits();
    assert_eq!(fma_tie_adjust(not_tie, false, false), not_tie);
    let nan = 0x7ff0_0000_1000_0000u64;
    assert_eq!(fma_tie_adjust(nan, false, false), nan);
}
