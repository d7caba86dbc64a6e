//! Conversion of a floating-point bit pattern to a signed integer, truncating
//! toward zero and saturating at the ends of the integer's range.
use vstd::prelude::*;
use vstd::arithmetic::power2::{pow2, lemma_pow2_pos, lemma_pow2_adds, lemma_pow2_strictly_increases};
use vstd::arithmetic::div_mod::{
    lemma_div_multiples_vanish,
    lemma_div_denominator,
    lemma_div_is_ordered,
    lemma_multiply_divide_lt,
};
use vstd::arithmetic::mul::{lemma_mul_is_associative, lemma_mul_inequality};
use vstd::bits::{lemma_u64_shl_is_mul, lemma_u64_shr_is_div};
use crate::format::{FloatFormat, lemma_pow2_shl};

verus! {

/// `v` clamped to the range of a signed integer of `w` bits.
pub open spec fn saturate(w: nat, v: int) -> int {
    if v < -pow2((w - 1) as nat) {
        -pow2((w - 1) as nat)
    } else if v > pow2((w - 1) as nat) - 1 {
        pow2((w - 1) as nat) - 1
    } else {
        v
    }
}

/// The largest integer not above the magnitude of the value a bit pattern
/// encodes, reading the exponent field as that of a normal number (every
/// pattern whose exponent field is below the bias has a magnitude below one).
pub open spec fn magnitude_floor(fmt: FloatFormat, repr: nat) -> nat {
    let e = fmt.exp_field_of(repr);
    if e < fmt.bias() {
        0
    } else {
        ((pow2(fmt.m()) + fmt.frac_field_of(repr)) * pow2((e - fmt.bias()) as nat)) / pow2(
            fmt.m(),
        )
    }
}

/// The value a bit pattern truncates to, toward zero, as a signed integer of
/// `w` bits, saturated to that type's range.
pub open spec fn float_to_int(fmt: FloatFormat, repr: nat, w: nat) -> int {
    let mag = magnitude_floor(fmt, repr) as int;
    saturate(w, if fmt.sign_bit_of(repr) { -mag } else { mag })
}

/// Scaling `a` by `2^u` and dividing by `2^m` is a single shift.
proof fn lemma_scale(a: nat, u: nat, m: nat)
    ensures
        u <= m ==> (a * pow2(u)) / pow2(m) == a / pow2((m - u) as nat),
        u >= m ==> (a * pow2(u)) / pow2(m) == a * pow2((u - m) as nat),
{
    lemma_pow2_pos(u);
    lemma_pow2_pos(m);
    vstd::arithmetic::power2::lemma2_to64();
    if u < m {
        let d = (m - u) as nat;
        lemma_pow2_pos(d);
        lemma_pow2_adds(u, d);
        lemma_div_denominator((a * pow2(u)) as int, pow2(u) as int, pow2(d) as int);
        lemma_div_multiples_vanish(a as int, pow2(u) as int);
        assert(a * pow2(u) == pow2(u) * a) by (nonlinear_arith);
    } else {
        let d = (u - m) as nat;
        lemma_pow2_adds(d, m);
        lemma_mul_is_associative(a as int, pow2(d) as int, pow2(m) as int);
        lemma_div_multiples_vanish((a * pow2(d)) as int, pow2(m) as int);
        assert((a * pow2(d)) * pow2(m) == pow2(m) * (a * pow2(d))) by (nonlinear_arith);
        if u == m {
            assert(a * pow2(0) == a);
            assert(a / pow2(0) == a);
        }
    }
}

/// A significand in `[2^m, 2^(m+1))` scaled by `2^u` and divided by `2^m`
/// lies in `[2^u, 2^(u+1))`.
proof fn lemma_scale_bounds(a: nat, u: nat, m: nat)
    requires
        pow2(m) <= a < 2 * pow2(m),
    ensures
        pow2(u) <= (a * pow2(u)) / pow2(m) < pow2(u + 1),
{
    lemma_pow2_pos(u);
    lemma_pow2_pos(m);
    lemma_pow2_adds(u, 1);
    vstd::arithmetic::power2::lemma2_to64();
    lemma_mul_inequality(pow2(m) as int, a as int, pow2(u) as int);
    lemma_div_is_ordered((pow2(m) * pow2(u)) as int, (a * pow2(u)) as int, pow2(m) as int);
    lemma_div_multiples_vanish(pow2(u) as int, pow2(m) as int);
    assert(a * pow2(u) < pow2(m) * pow2(u + 1)) by (nonlinear_arith)
        requires
            a < 2 * pow2(m),
            pow2(u + 1) == pow2(u) * 2,
            pow2(u) > 0,
    ;
    lemma_multiply_divide_lt((a * pow2(u)) as int, pow2(m) as int, pow2(u + 1) as int);
}

/// Converts the bit pattern `repr` of a value of format `fmt` to a signed
/// integer of `w` bits (returned in an `i64`): the value is truncated toward
/// zero, and a magnitude beyond the integer's range gives its minimum or
/// maximum according to the sign.
pub fn float_bits_to_int(fmt: FloatFormat, repr: u64, w: u32) -> (r: i64)
    requires
        fmt.wf(),
        2 <= w <= 64,
    ensures
        r == float_to_int(fmt, repr as nat, w as nat),
        -pow2((w - 1) as nat) <= r < pow2((w - 1) as nat),
        fmt.exp_field_of(repr as nat) < fmt.bias() ==> r == 0,
        magnitude_floor(fmt, repr as nat) >= pow2(w as nat) ==> r == if fmt.sign_bit_of(
            repr as nat,
        ) {
            -pow2((w - 1) as nat)
        } else {
            pow2((w - 1) as nat) - 1
        },
{
    let m = fmt.significand_bits as u64;
    let bias = fmt.exponent_bias();
    let negative = fmt.is_negative(repr);
    let exponent = fmt.exponent_field(repr);
    let fraction = fmt.fraction_field(repr);
    let significand = fraction | fmt.implicit_bit();
    let limit: u64 = 1u64 << (w - 1) as u64;
    proof {
        lemma_pow2_shl(m);
        lemma_pow2_shl((w - 1) as u64);
        assert(fraction < (1u64 << m) ==> fraction | (1u64 << m) == fraction + (1u64 << m))
            by (bit_vector)
            requires
                m < 64,
        ;
        lemma_pow2_adds(fmt.m(), 1);
        lemma_pow2_adds((w - 1) as nat, 1);
        vstd::arithmetic::power2::lemma2_to64();
    }
    let ghost mag = magnitude_floor(fmt, repr as nat) as int;
    if exponent < bias {
        return 0;
    }
    let unbiased = exponent - bias;
    proof {
        lemma_scale_bounds(significand as nat, unbiased as nat, fmt.m());
    }
    if unbiased >= w as u64 {
        proof {
            if unbiased > w {
                lemma_pow2_strictly_increases(w as nat, unbiased as nat);
            }
            lemma_pow2_adds((w - 1) as nat, 1);
        }
        return if negative {
            -((limit - 1) as i64) - 1
        } else {
            (limit - 1) as i64
        };
    }
    let magnitude: u64 = if unbiased < m {
        proof {
            lemma_scale(significand as nat, unbiased as nat, fmt.m());
            lemma_u64_shr_is_div(significand, (m - unbiased) as u64);
        }
        significand >> (m - unbiased)
    } else {
        proof {
            lemma_scale(significand as nat, unbiased as nat, fmt.m());
            if unbiased + 1 < 64 {
                lemma_pow2_strictly_increases((unbiased + 1) as nat, 64);
            }
            assert(pow2(64) == 0x1_0000_0000_0000_0000) by {
                vstd::arithmetic::power2::lemma2_to64_rest();
            }
            lemma_u64_shl_is_mul(significand, (unbiased - m) as u64);
        }
        significand << (unbiased - m)
    };
    assert(magnitude == mag);
    if magnitude >= limit {
        if negative {
            -((limit - 1) as i64) - 1
        } else {
            (limit - 1) as i64
        }
    } else if negative {
        -(magnitude as i64)
    } else {
        magnitude as i64
    }
}

} // verus!
