//! Conversions between the machine integer types and the bit patterns of
//! `binary32` (`u32`) and `binary64` (`u64`) values.
use vstd::prelude::*;
use vstd::arithmetic::power2::pow2;
use crate::format::FloatFormat;
use crate::int_to_float::{int_to_float, magnitude_to_float};
use crate::float_to_int::{float_to_int, float_bits_to_int};

verus! {

/// The magnitude of a signed integer.
pub open spec fn magnitude(i: int) -> nat {
    if i < 0 {
        (-i) as nat
    } else {
        i as nat
    }
}

/// Splits a signed integer into its sign and its magnitude. The magnitude of a
/// negative value is taken as `-(i + 1) + 1`, the last step in unsigned
/// arithmetic, so that `i64::MIN` needs no negation that overflows.
fn split_sign(i: i64) -> (r: (bool, u64))
    ensures
        r.0 == (i < 0),
        r.1 == magnitude(i as int),
{
    if i < 0 {
        (true, (-(i + 1)) as u64 + 1)
    } else {
        (false, i as u64)
    }
}

/// `i32` to `binary32`, rounding to the nearest (ties to even).
pub fn __floatsisf(i: i32) -> (r: u32)
    ensures
        r == int_to_float(FloatFormat::spec_binary32(), i < 0, magnitude(i as int)),
        i == 0 ==> r == 0,
{
    let (negative, m) = split_sign(i as i64);
    let r = magnitude_to_float(FloatFormat::binary32(), negative, m);
    proof {
        vstd::arithmetic::power2::lemma2_to64();
    }
    r as u32
}

/// `i32` to `binary64` (always exact).
pub fn __floatsidf(i: i32) -> (r: u64)
    ensures
        r == int_to_float(FloatFormat::spec_binary64(), i < 0, magnitude(i as int)),
        i == 0 ==> r == 0,
{
    let (negative, m) = split_sign(i as i64);
    magnitude_to_float(FloatFormat::binary64(), negative, m)
}

/// `i64` to `binary64`, rounding to the nearest (ties to even).
pub fn __floatdidf(i: i64) -> (r: u64)
    ensures
        r == int_to_float(FloatFormat::spec_binary64(), i < 0, magnitude(i as int)),
        i == 0 ==> r == 0,
{
    let (negative, m) = split_sign(i);
    magnitude_to_float(FloatFormat::binary64(), negative, m)
}

/// `u32` to `binary32`, rounding to the nearest (ties to even).
pub fn __floatunsisf(i: u32) -> (r: u32)
    ensures
        r == int_to_float(FloatFormat::spec_binary32(), false, i as nat),
        i == 0 ==> r == 0,
{
    let r = magnitude_to_float(FloatFormat::binary32(), false, i as u64);
    proof {
        vstd::arithmetic::power2::lemma2_to64();
    }
    r as u32
}

/// `u32` to `binary64` (always exact).
pub fn __floatunsidf(i: u32) -> (r: u64)
    ensures
        r == int_to_float(FloatFormat::spec_binary64(), false, i as nat),
        i == 0 ==> r == 0,
{
    magnitude_to_float(FloatFormat::binary64(), false, i as u64)
}

/// `u64` to `binary64`, rounding to the nearest (ties to even).
pub fn __floatundidf(i: u64) -> (r: u64)
    ensures
        r == int_to_float(FloatFormat::spec_binary64(), false, i as nat),
        i == 0 ==> r == 0,
{
    magnitude_to_float(FloatFormat::binary64(), false, i)
}

/// `binary32` to `i32`, truncating toward zero and saturating.
pub fn __fixsfsi(f: u32) -> (r: i32)
    ensures
        r == float_to_int(FloatFormat::spec_binary32(), f as nat, 32),
{
    let r = float_bits_to_int(FloatFormat::binary32(), f as u64, 32);
    proof {
        vstd::arithmetic::power2::lemma2_to64();
    }
    r as i32
}

/// `binary32` to `i64`, truncating toward zero and saturating.
pub fn __fixsfdi(f: u32) -> (r: i64)
    ensures
        r == float_to_int(FloatFormat::spec_binary32(), f as nat, 64),
{
    float_bits_to_int(FloatFormat::binary32(), f as u64, 64)
}

/// `binary64` to `i32`, truncating toward zero and saturating.
pub fn __fixdfsi(f: u64) -> (r: i32)
    ensures
        r == float_to_int(FloatFormat::spec_binary64(), f as nat, 32),
{
    let r = float_bits_to_int(FloatFormat::binary64(), f, 32);
    proof {
        vstd::arithmetic::power2::lemma2_to64();
    }
    r as i32
}

/// `binary64` to `i64`, truncating toward zero and saturating.
pub fn __fixdfdi(f: u64) -> (r: i64)
    ensures
        r == float_to_int(FloatFormat::spec_binary64(), f as nat, 64),
{
    float_bits_to_int(FloatFormat::binary64(), f, 64)
}

} // verus!
