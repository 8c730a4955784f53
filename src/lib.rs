//! Bit-level IEEE-754 kernels on the integer encodings of binary32 and
//! binary64 values: rounding to an integral value (trunc, floor, ceil,
//! round half to even, fractional part), a correctly rounded square root,
//! and the tie correction of a fused multiply-add emulated in binary64.
//!
//! Every kernel is a pure function of its arguments. Contracts state results
//! over `encoding::value`, the exact value of an encoding as an integer
//! multiple of the least subnormal; `laws` relates the kernels to each
//! other. Each kernel also comes in a lane-wise form over arrays.
pub mod encoding;
pub mod rounding;
pub mod laws;
pub mod sqrt;
pub mod fma;
