//! The correction step of a fused multiply-add emulated in binary64.
//!
//! For binary32 operands `x*y + z` is formed in binary64, where the product
//! is exact; the sum is rounded once there, and narrowing it to binary32
//! rounds a second time. The second rounding can only go wrong when the
//! binary64 sum lies exactly halfway between two binary32 values: then the
//! binary64 encoding is moved one step toward the exact sum, so that
//! narrowing rounds the right way.
use vstd::prelude::*;

use crate::encoding::{is_nan, sign_bit};

verus! {

/// The low 29 bits of a binary64 encoding are exactly half of a binary32
/// last place: narrowing would see a tie.
pub open spec fn is_halfway(result: u64) -> bool {
    result as int % 0x2000_0000 == 0x1000_0000
}

/// The binary64 encoding to narrow, given the binary64 sum `result`,
/// whether that sum was exact, and whether the rounding error `err` of the
/// sum (exact sum minus `result`) is negative.
///
/// Away from a tie, for a NaN, or for an exact sum, `result` is narrowed as
/// it is. At a tie the encoding is moved one binary64 step toward the exact
/// sum: up in magnitude when the error has the sign of the result, down
/// otherwise.
pub fn fma_tie_adjust(result: u64, exact: bool, err_negative: bool) -> (r: u64)
    ensures
        !is_halfway(result) || is_nan(result as int, 52, 11) || exact ==> r == result,
        is_halfway(result) && !is_nan(result as int, 52, 11) && !exact ==> r == (if sign_bit(
            result as int,
            52,
            11,
        ) == err_negative {
            result + 1
        } else {
            result - 1
        }),
{
    let halfway = result & 0x1fff_ffff == 0x1000_0000;
    let nan = (result & 0x7fff_ffff_ffff_ffff) > 0x7ff0_0000_0000_0000;
    let negative = result >= 0x8000_0000_0000_0000;
    proof {
        assert(result & 0x1fff_ffff == result % 0x2000_0000) by (bit_vector);
        assert((result & 0x7fff_ffff_ffff_ffff) == result % 0x8000_0000_0000_0000) by (bit_vector);
        vstd::arithmetic::power2::lemma2_to64();
        vstd::arithmetic::power2::lemma2_to64_rest();
        crate::encoding::lemma_fields_encode(result as int, 52, 11);
        assert(vstd::arithmetic::power2::pow2(64) == 0x1_0000_0000_0000_0000);
    }
    if !halfway || nan || exact {
        result
    } else if negative == err_negative {
        result + 1
    } else {
        result - 1
    }
}

} // verus!
