use vapor::fma::fma_tie_adjust;
use vapor::rounding::{
    ceil_f32, ceil_f64, floor_f32, floor_f64, fract_f32, fract_f64, round_f32, round_f64,
    trunc_f32, trunc_f64,
};
use vapor::sqrt::{sqrt_f32, sqrt_f64};

struct Bits(u64);

impl Bits {
    fn next(&mut self) -> u64 {
        self.0 ^= self.0 << 13;
        self.0 ^= self.0 >> 7;
        self.0 ^= self.0 << 17;
        self.0
    }
}

const SPECIAL_32: [u32; 14] = [
    0, 0x8000_0000, 1, 0x8000_0001, 0x007f_ffff, 0x0080_0000, 0x3f00_0000, 0x3f80_0000,
    0x4b00_0000, 0x4aff_ffff, 0x7f7f_ffff, 0x7f80_0000, 0xff80_0000, 0x7fc0_0001,
];

const SPECIAL_64: [u64; 10] = [
    0, 0x8000_0000_0000_0000, 1, 0x000f_ffff_ffff_ffff, 0x3fe0_0000_0000_0000,
    0x4330_0000_0000_0000, 0x432f_ffff_ffff_ffff, 0x7fef_ffff_ffff_ffff, 0x7ff0_0000_0000_0000,
    0xfff8_0000_0000_0001,
];

fn inputs_32() -> Vec<u32> {
    let mut v: Vec<u32> = SPECIAL_32.to_vec();
    let mut g = Bits(0x9e37_79b9_7f4a_7c15);
    for _ in 0..200_000 {
        let b = g.next();
        v.push(b as u32);
        // values near one, where the rounding kernels do their work
        v.push(((b as u32) & 0x80ff_ffff) | 0x3f00_0000 + (((b >> 40) as u32 % 32) << 23));
    }
    v
}

fn inputs_64() -> Vec<u64> {
    let mut v: Vec<u64> = SPECIAL_64.to_vec();
    let mut g = Bits(0x2545_f491_4f6c_dd1d);
    for _ in 0..200_000 {
        let b = g.next();
        v.push(b);
        v.push((b & 0x800f_ffff_ffff_ffff) | ((0x3fe + (b >> 52) % 64) << 52));
    }
    v
}

fn same_32(got: u32, want: f32) -> bool {
    (f32::from_bits(got).is_nan() && want.is_nan()) || got == want.to_bits()
}

fn same_64(got: u64, want: f64) -> bool {
    (f64::from_bits(got).is_nan() && want.is_nan()) || got == want.to_bits()
}

#[test]
fn f32_rounding_matches_std() {
    for b in inputs_32() {
        let x = f32::from_bits(b);
        assert!(same_32(trunc_f32(b), x.trunc()), "trunc {:#x}", b);
        assert!(same_32(floor_f32(b), x.floor()), "floor {:#x}", b);
        assert!(same_32(ceil_f32(b), x.ceil()), "ceil {:#x}", b);
        assert!(same_32(round_f32(b), x.round_ties_even()), "round {:#x}", b);
        assert!(same_32(fract_f32(b), x - x.trunc()), "fract {:#x}", b);
    }
}

#[test]
fn f64_rounding_matches_std() {
    for b in inputs_64() {
        let x = f64::from_bits(b);
        assert!(same_64(trunc_f64(b), x.trunc()), "trunc {:#x}", b);
        assert!(same_64(floor_f64(b), x.floor()), "floor {:#x}", b);
        assert!(same_64(ceil_f64(b), x.ceil()), "ceil {:#x}", b);
        assert!(same_64(round_f64(b), x.round_ties_even()), "round {:#x}", b);
        assert!(same_64(fract_f64(b), x - x.trunc()), "fract {:#x}", b);
    }
}

#[test]
fn sqrt_matches_std() {
    for b in inputs_32() {
        let x = f32::from_bits(b);
        assert!(same_32(sqrt_f32(b), x.sqrt()), "sqrt {:#x}", b);
    }
    // every subnormal's square root lies in the normal range
    for m in (1u32..0x80_0000).step_by(97) {
        assert!(same_32(sqrt_f32(m), f32::from_bits(m).sqrt()), "sqrt {:#x}", m);
    }
}

#[test]
fn sqrt_f64_matches_std() {
    for b in inputs_64() {
        let x = f64::from_bits(b);
        assert!(same_64(sqrt_f64(b), x.sqrt()), "sqrt {:#x}", b);
    }
    for m in (1u64..0x10_0000_0000_0000).step_by(0x1234_5678_9ab) {
        assert!(same_64(sqrt_f64(m), f64::from_bits(m).sqrt()), "sqrt {:#x}", m);
    }
}

#[test]
fn trunc_plus_fract_is_x() {
    for b in inputs_32() {
        let x = f32::from_bits(b);
        if x.is_finite() && b != 0x8000_0000 {
            let sum = f32::from_bits(trunc_f32(b)) + f32::from_bits(fract_f32(b));
            assert_eq!(sum.to_bits(), b, "{:#x}", b);
        }
    }
}

#[test]
fn rounding_twice_is_rounding_once() {
    for b in inputs_64() {
        assert_eq!(trunc_f64(trunc_f64(b)), trunc_f64(b));
        assert_eq!(floor_f64(floor_f64(b)), floor_f64(b));
        assert_eq!(ceil_f64(ceil_f64(b)), ceil_f64(b));
        assert_eq!(round_f64(round_f64(b)), round_f64(b));
    }
}

#[test]
fn floor_below_ceil_above() {
    for b in inputs_32() {
        let x = f32::from_bits(b);
        if x.is_finite() {
            let f = f32::from_bits(floor_f32(b));
            let c = f32::from_bits(ceil_f32(b));
            assert!(f <= x && x <= c, "{:#x}", b);
            assert_eq!(floor_f32(b) == b, x.fract() == 0.0, "{:#x}", b);
        }
    }
}

/// `x*y + z` for binary32 through binary64 and the tie correction.
fn fma_via_f64(x: f32, y: f32, z: f32) -> f32 {
    let (x, y, z) = (x as f64, y as f64, z as f64);
    let xy = x * y;
    let result = xy + z;
    let exact = (result - xy == z) && (result - z == xy);
    let err = if result.is_sign_negative() == (z > xy) {
        xy - result + z
    } else {
        z - result + xy
    };
    f64::from_bits(fma_tie_adjust(result.to_bits(), exact, err < 0.0)) as f32
}

#[test]
fn fma_matches_std_mul_add() {
    let mut g = Bits(0x1234_5678_9abc_def1);
    for _ in 0..200_000 {
        let a = f32::from_bits(g.next() as u32);
        let b = f32::from_bits(g.next() as u32);
        let c = f32::from_bits(g.next() as u32);
        let want = a.mul_add(b, c);
        let got = fma_via_f64(a, b, c);
        assert!((got.is_nan() && want.is_nan()) || got.to_bits() == want.to_bits(), "{} {} {}", a, b, c);
    }
}

#[test]
fn fma_near_cancellation_and_ties() {
    let cases: [(f32, f32, f32); 6] = [
        (1.0 + f32::EPSILON, 1.0 - f32::EPSILON, -1.0),
        (3.0, 1.0 / 3.0, -1.0),
        (1.0 + f32::EPSILON, 1.0 + f32::EPSILON, -(1.0 + 2.0 * f32::EPSILON)),
        (0.1, 10.0, -1.0),
        (2.0, 3.0, 4.0),
        (1.0 + 0.5 * f32::EPSILON * 2.0, 1.0, 5.960_464_5e-8),
    ];
    for (a, b, c) in cases {
        assert_eq!(fma_via_f64(a, b, c).to_bits(), a.mul_add(b, c).to_bits(), "{} {} {}", a, b, c);
    }
    assert_eq!(fma_via_f64(2.0, 3.0, 4.0), 10.0);
}
