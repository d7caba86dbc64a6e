use softfloat_conv::conv::{
    __fixdfdi, __fixdfsi, __fixsfdi, __fixsfsi, __floatdidf, __floatsidf, __floatsisf,
    __floatundidf, __floatunsidf, __floatunsisf,
};
use softfloat_conv::float_to_int::float_bits_to_int;
use softfloat_conv::format::FloatFormat;
use softfloat_conv::int_to_float::magnitude_to_float;

/// A small deterministic generator for sweeps over many inputs.
struct Lcg(u64);

impl Lcg {
    fn next(&mut self) -> u64 {
        self.0 = self
            .0
            .wrapping_mul(6364136223846793005)
            .wrapping_add(1442695040888963407);
        self.0 ^ (self.0 >> 29)
    }
}

#[test]
fn zero_converts_to_positive_zero() {
    assert_eq!(__floatsisf(0), 0.0f32.to_bits());
    assert_eq!(__floatsisf(0x00000000i32), 0);
    assert_eq!(__floatsidf(0), 0.0f64.to_bits());
    assert_eq!(__floatdidf(0), 0);
    assert_eq!(__floatunsisf(0), 0);
    assert_eq!(__floatunsidf(0), 0);
    assert_eq!(__floatundidf(0), 0);
}

#[test]
fn minus_one_converts_to_minus_one() {
    assert_eq!(__floatsisf(-1i32), (-1.0f32).to_bits());
    assert_eq!(__floatsidf(-1), (-1.0f64).to_bits());
    assert_eq!(__floatdidf(-1), (-1.0f64).to_bits());
}

#[test]
fn float_to_int_truncates_toward_zero() {
    assert_eq!(__fixsfsi((-1.5f32).to_bits()), -1);
    assert_eq!(__fixsfsi(1.5f32.to_bits()), 1);
    assert_eq!(__fixsfsi(4.0f32.to_bits()), 4);
    assert_eq!(__fixsfsi((-4.0f32).to_bits()), -4);
    assert_eq!(__fixsfsi(123456.789f32.to_bits()), 123456);
    assert_eq!(__fixdfdi((-9876543210.75f64).to_bits()), -9876543210);
    assert_eq!(__fixdfsi(2147483647.9f64.to_bits()), i32::MAX);
    assert_eq!(__fixsfdi((-3.99f32).to_bits()), -3);
}

#[test]
fn large_floats_saturate() {
    assert_eq!(__fixsfsi(1e30f32.to_bits()), i32::MAX);
    assert_eq!(__fixsfsi((-1e30f32).to_bits()), i32::MIN);
    assert_eq!(__fixsfsi(4294967296.0f32.to_bits()), i32::MAX);
    assert_eq!(__fixsfsi((-4294967296.0f32).to_bits()), i32::MIN);
    assert_eq!(__fixsfsi(2147483648.0f32.to_bits()), i32::MAX);
    assert_eq!(__fixsfsi((-2147483648.0f32).to_bits()), i32::MIN);
    assert_eq!(__fixsfsi(f32::INFINITY.to_bits()), i32::MAX);
    assert_eq!(__fixsfsi(f32::NEG_INFINITY.to_bits()), i32::MIN);
    assert_eq!(__fixsfdi(1e30f32.to_bits()), i64::MAX);
    assert_eq!(__fixdfsi((-1e300f64).to_bits()), i32::MIN);
    assert_eq!(__fixdfdi(1e300f64.to_bits()), i64::MAX);
    assert_eq!(__fixdfdi((-9223372036854775808.0f64).to_bits()), i64::MIN);
}

#[test]
fn small_floats_truncate_to_zero() {
    assert_eq!(__fixsfsi(0.999f32.to_bits()), 0);
    assert_eq!(__fixsfsi((-0.5f32).to_bits()), 0);
    assert_eq!(__fixsfsi((-0.0f32).to_bits()), 0);
    assert_eq!(__fixsfsi(f32::MIN_POSITIVE.to_bits()), 0);
    assert_eq!(__fixsfsi(1e-45f32.to_bits()), 0);
    assert_eq!(__fixdfdi(0.25f64.to_bits()), 0);
    assert_eq!(__fixdfsi((-1e-310f64).to_bits()), 0);
}

#[test]
fn exactly_representable_integers_convert_exactly() {
    for i in -(1i32 << 24)..=-(1i32 << 24) + 1000 {
        assert_eq!(__floatsisf(i), (i as f32).to_bits());
    }
    for i in -5000i32..5000 {
        assert_eq!(__floatsisf(i), (i as f32).to_bits());
        assert_eq!(__floatsidf(i), (i as f64).to_bits());
    }
    for i in [1i64 << 52, (1i64 << 53) - 1, -(1i64 << 53), 1i64 << 62, i64::MIN] {
        assert_eq!(__floatdidf(i), (i as f64).to_bits());
    }
    assert_eq!(__floatsisf(i32::MIN), (i32::MIN as f32).to_bits());
    assert_eq!(__floatunsisf(1 << 31), 2147483648.0f32.to_bits());
}

#[test]
fn rounding_matches_the_language_casts() {
    // 2^24 + 1 is a tie between 2^24 and 2^24 + 2: ties go to the even one.
    assert_eq!(__floatsisf(16777217), 16777216.0f32.to_bits());
    assert_eq!(__floatsisf(16777219), 16777220.0f32.to_bits());
    assert_eq!(__floatsisf(i32::MAX), 2147483648.0f32.to_bits());
    assert_eq!(__floatunsisf(u32::MAX), 4294967296.0f32.to_bits());
    assert_eq!(__floatundidf(u64::MAX), 18446744073709551616.0f64.to_bits());
    assert_eq!(__floatdidf(i64::MAX), (i64::MAX as f64).to_bits());
    let mut g = Lcg(7);
    for _ in 0..200_000 {
        let x = g.next();
        let s = x >> (x % 64);
        assert_eq!(__floatsisf(x as i32), (x as i32 as f32).to_bits());
        assert_eq!(__floatsidf(x as i32), (x as i32 as f64).to_bits());
        assert_eq!(__floatunsisf(x as u32), (x as u32 as f32).to_bits());
        assert_eq!(__floatunsisf(s as u32), (s as u32 as f32).to_bits());
        assert_eq!(__floatunsidf(x as u32), (x as u32 as f64).to_bits());
        assert_eq!(__floatdidf(x as i64), (x as i64 as f64).to_bits());
        assert_eq!(__floatdidf(s as i64), (s as i64 as f64).to_bits());
        assert_eq!(__floatundidf(x), (x as f64).to_bits());
        assert_eq!(__floatundidf(s), (s as f64).to_bits());
    }
}

#[test]
fn truncation_matches_the_language_casts() {
    let mut g = Lcg(11);
    for _ in 0..200_000 {
        let x = g.next();
        let f = f32::from_bits(x as u32);
        let d = f64::from_bits(x);
        if !f.is_nan() {
            assert_eq!(__fixsfsi(x as u32), f as i32);
            assert_eq!(__fixsfdi(x as u32), f as i64);
        }
        if !d.is_nan() {
            assert_eq!(__fixdfsi(x), d as i32);
            assert_eq!(__fixdfdi(x), d as i64);
        }
        // Values of moderate size exercise both shift directions.
        let v = ((x % 2_000_000_000) as f64 - 1e9) / 7.0;
        assert_eq!(__fixdfsi(v.to_bits()), v as i32);
        assert_eq!(__fixsfsi((v as f32).to_bits()), v as f32 as i32);
    }
}

#[test]
fn round_trip_within_precision() {
    for i in (-(1i32 << 24)..=(1i32 << 24)).step_by(97) {
        assert_eq!(__fixsfsi(__floatsisf(i)), i);
        assert_eq!(__fixdfsi(__floatsidf(i)), i);
    }
    for i in [i32::MIN, i32::MAX, -1, 1, 0] {
        assert_eq!(__fixdfsi(__floatsidf(i)), i);
    }
    for i in [(1i64 << 53), -(1i64 << 53), 123456789012345, i64::MIN] {
        assert_eq!(__fixdfdi(__floatdidf(i)), i);
    }
}

#[test]
fn format_parameters() {
    let f = FloatFormat::binary32();
    assert_eq!(f.bits(), 32);
    assert_eq!(f.exponent_bias(), 127);
    assert_eq!(f.exponent_max(), 255);
    assert_eq!(f.sign_mask(), 0x8000_0000);
    assert_eq!(f.exponent_mask(), 0x7F80_0000);
    assert_eq!(f.significand_mask(), 0x007F_FFFF);
    assert_eq!(f.implicit_bit(), 0x0080_0000);
    assert_eq!(f.from_parts(false, 127, 0), 1.0f32.to_bits() as u64);
    assert_eq!(f.from_parts(true, 128, 0x40_0000), (-3.0f32).to_bits() as u64);
    let d = FloatFormat::binary64();
    assert_eq!(d.bits(), 64);
    assert_eq!(d.exponent_bias(), 1023);
    assert_eq!(d.exponent_max(), 2047);
    assert_eq!(d.sign_mask(), 0x8000_0000_0000_0000);
    assert_eq!(d.exponent_mask(), 0x7FF0_0000_0000_0000);
    assert_eq!(d.significand_mask(), 0x000F_FFFF_FFFF_FFFF);
    assert_eq!(d.from_parts(true, 1023, 0), (-1.0f64).to_bits());
}

#[test]
fn field_decoding() {
    let f = FloatFormat::binary32();
    let bits = (-6.5f32).to_bits() as u64;
    assert!(f.is_negative(bits));
    assert_eq!(f.exponent_field(bits), 129);
    assert_eq!(f.fraction_field(bits), 0x50_0000);
    assert!(!f.is_negative(6.5f32.to_bits() as u64));
}

#[test]
fn overflow_to_infinity_in_a_narrow_format() {
    // A half-precision layout: 10 fraction bits, 5 exponent bits.
    let half = FloatFormat { significand_bits: 10, exponent_bits: 5 };
    assert_eq!(magnitude_to_float(half, false, 65504), 0x7BFF);
    assert_eq!(magnitude_to_float(half, false, 65519), 0x7BFF);
    // 65520 rounds up to 2^16, beyond the largest finite value.
    assert_eq!(magnitude_to_float(half, false, 65520), 0x7C00);
    assert_eq!(magnitude_to_float(half, false, 65536), 0x7C00);
    assert_eq!(magnitude_to_float(half, true, 1 << 40), 0xFC00);
    assert_eq!(magnitude_to_float(half, true, 1), 0xBC00);
    assert_eq!(magnitude_to_float(half, false, 0), 0);
}

#[test]
fn float_to_int_in_a_narrow_format() {
    let half = FloatFormat { significand_bits: 10, exponent_bits: 5 };
    // 1.5 in half precision truncates to 1; -2.75 to -2.
    assert_eq!(float_bits_to_int(half, 0x3E00, 32), 1);
    assert_eq!(float_bits_to_int(half, 0xC180, 32), -2);
    // 65504 does not fit in 16 bits signed: it saturates.
    assert_eq!(float_bits_to_int(half, 0x7BFF, 16), 32767);
    assert_eq!(float_bits_to_int(half, 0xFBFF, 16), -32768);
    assert_eq!(float_bits_to_int(half, 0x7BFF, 32), 65504);
}
