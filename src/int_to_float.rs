//! Conversion of an integer magnitude and sign to a floating-point bit pattern.
//!
//! The magnitude is left-aligned in a work register of `significand_bits + 4`
//! bits: the kept significand (implicit bit included) above three guard bits.
//! Bits shifted out on the right are folded into the lowest guard bit, so that
//! the guard bits tell whether the discarded part is below, at, or above half a
//! unit in the last kept place. The kept significand is then rounded to the
//! nearest, ties to even.
use vstd::prelude::*;
use vstd::arithmetic::power2::{pow2, lemma_pow2_pos, lemma_pow2_adds};
use vstd::arithmetic::div_mod::{
    lemma_div_denominator,
    lemma_fundamental_div_mod,
    lemma_fundamental_div_mod_converse,
    lemma_mod_breakdown,
};
use vstd::arithmetic::mul::lemma_mul_is_associative;
use vstd::bits::{
    lemma_u64_shl_is_mul,
    lemma_u64_shr_is_div,
    lemma_u64_low_bits_mask_is_mod,
};
use vstd::std_specs::bits::u64_leading_zeros;
use crate::format::{FloatFormat, lemma_pow2_shl};

verus! {

/// Number of binary digits of `m` (0 for 0).
pub open spec fn bit_len(m: nat) -> nat
    decreases m,
{
    if m == 0 {
        0
    } else {
        1 + bit_len(m / 2)
    }
}

/// Width of the work register: kept significand plus three guard bits.
pub open spec fn work_width(fmt: FloatFormat) -> nat {
    fmt.m() + 4
}

/// The magnitude `m > 0` left-aligned in the work register, its leading bit at
/// the register's top bit; when bits have to be shifted out, the lowest bit of
/// the register is set if any of them was set.
pub open spec fn aligned(fmt: FloatFormat, m: nat) -> nat {
    let p = bit_len(m);
    let w = work_width(fmt);
    if p <= w {
        m * pow2((w - p) as nat)
    } else {
        let t = m / pow2((p - w) as nat);
        let sticky = m % pow2((p - w) as nat) != 0;
        if sticky && t % 2 == 0 {
            t + 1
        } else {
            t
        }
    }
}

/// The significand kept from a work register value `x`: `x / 8` rounded to
/// the nearest, ties to even, on the three guard bits `x % 8`.
pub open spec fn rounded(x: nat) -> nat {
    let q = x / 8;
    let g = x % 8;
    if g > 4 || (g == 4 && q % 2 == 1) {
        q + 1
    } else {
        q
    }
}

/// `m / 2^k` rounded to the nearest integer, ties to the even one.
pub open spec fn round_half_even(m: nat, k: nat) -> nat {
    let q = m / pow2(k);
    let r = m % pow2(k);
    if 2 * r > pow2(k) || (2 * r == pow2(k) && q % 2 == 1) {
        q + 1
    } else {
        q
    }
}

/// The significand (implicit bit included, `significand_bits + 1` bits) of the
/// value nearest to `m > 0`, ties to even: `m` itself shifted to the top of
/// those bits when it fits, else `m` rounded after dropping its low bits. It
/// may reach `2^(significand_bits + 1)` when rounding carries out.
pub open spec fn nearest_significand(fmt: FloatFormat, m: nat) -> nat {
    let p = bit_len(m);
    if p <= fmt.m() + 1 {
        m * pow2((fmt.m() + 1 - p) as nat)
    } else {
        round_half_even(m, (p - fmt.m() - 1) as nat)
    }
}

/// The bit pattern, in format `fmt`, of the integer whose magnitude is `m` and
/// whose sign is given by `negative`. Zero gives positive zero; a magnitude
/// that rounds beyond the largest finite value gives the infinity of the sign.
pub open spec fn int_to_float(fmt: FloatFormat, negative: bool, m: nat) -> nat {
    if m == 0 {
        0
    } else {
        let sig = nearest_significand(fmt, m);
        let carry = sig == pow2(fmt.m() + 1);
        let exp = fmt.bias() + bit_len(m) - 1 + if carry { 1nat } else { 0nat };
        if exp >= fmt.max_exp() {
            fmt.pack(negative, fmt.max_exp(), 0)
        } else {
            fmt.pack(
                negative,
                exp as nat,
                if carry { 0nat } else { (sig - pow2(fmt.m())) as nat },
            )
        }
    }
}

/// `bit_len` is what `leading_zeros` leaves of 64 bits, and brackets `m`
/// between consecutive powers of two.
pub proof fn lemma_bit_len(m: u64)
    ensures
        bit_len(m as nat) == 64 - u64_leading_zeros(m),
        bit_len(m as nat) <= 64,
        m > 0 ==> pow2((bit_len(m as nat) - 1) as nat) <= m < pow2(bit_len(m as nat)),
    decreases m,
{
    reveal(u64_leading_zeros);
    vstd::arithmetic::power2::lemma2_to64();
    if m > 0 {
        lemma_bit_len(m / 2);
        let p = bit_len(m as nat);
        if m / 2 > 0 {
            lemma_pow2_adds((p - 2) as nat, 1);
            lemma_pow2_adds((p - 1) as nat, 1);
        }
        vstd::std_specs::bits::axiom_u64_leading_zeros(m);
    }
}

/// The masking and rounding steps on a work register `x` whose top bit is bit
/// `k`: dropping that bit, adding half a unit on the guard bits where they call
/// for rounding up, and reading the result back.
proof fn lemma_round_register(x: u64, k: u64)
    by (bit_vector)
    requires
        4 <= k <= 62,
        (1u64 << k) <= x < (1u64 << ((k + 1) as u64)),
    ensures
        ({
            let x2 = x & ((((1u64 << ((k - 3) as u64)) - 1) as u64) << 3u64 | 15u64);
            let up = x % 8 > 4 || (x % 8 == 4 && (x / 8) % 2 == 1);
            let rnd = if up { (x / 8 + 1) as u64 } else { x / 8 };
            let x3 = if x2 & 15 > 4 { (x2 + 4) as u64 } else { x2 };
            &&& x2 < (1u64 << k)
            &&& (1u64 << ((k - 3) as u64)) <= rnd <= (1u64 << ((k - 2) as u64))
            &&& (x3 >= (1u64 << k)) == (rnd == (1u64 << ((k - 2) as u64)))
            &&& (x3 >> 3u64) & (((1u64 << ((k - 3) as u64)) - 1) as u64) == if rnd == (1u64 << ((
            k - 2) as u64)) {
                0
            } else {
                (rnd - (1u64 << ((k - 3) as u64))) as u64
            }
        }),
{
}

/// Bounds of the aligned work register: its top bit is bit `significand_bits + 3`.
proof fn lemma_aligned_bounds(fmt: FloatFormat, m: u64)
    requires
        fmt.wf(),
        m > 0,
    ensures
        pow2(fmt.m() + 3) <= aligned(fmt, m as nat) < pow2(fmt.m() + 4),
{
    lemma_bit_len(m);
    let p = bit_len(m as nat);
    let w = work_width(fmt);
    vstd::arithmetic::power2::lemma2_to64();
    lemma_pow2_adds(fmt.m() + 3, 1);
    if p <= w {
        let ls = (w - p) as nat;
        lemma_pow2_pos(ls);
        lemma_pow2_adds((p - 1) as nat, ls);
        lemma_pow2_adds(p, ls);
        vstd::arithmetic::mul::lemma_mul_inequality(pow2((p - 1) as nat) as int, m as int, pow2(ls) as int);
        vstd::arithmetic::mul::lemma_mul_strict_inequality(m as int, pow2(p) as int, pow2(ls) as int);
    } else {
        let rs = (p - w) as nat;
        lemma_pow2_pos(rs);
        lemma_pow2_adds(fmt.m() + 3, rs);
        lemma_pow2_adds(fmt.m() + 4, rs);
        let t = m as nat / pow2(rs);
        vstd::arithmetic::div_mod::lemma_div_is_ordered(
            (pow2(fmt.m() + 3) * pow2(rs)) as int,
            m as int,
            pow2(rs) as int,
        );
        vstd::arithmetic::div_mod::lemma_div_by_multiple(pow2(fmt.m() + 3) as int, pow2(rs) as int);
        vstd::arithmetic::mul::lemma_mul_is_commutative(pow2(rs) as int, pow2(fmt.m() + 4) as int);
        vstd::arithmetic::div_mod::lemma_multiply_divide_lt(
            m as int,
            pow2(rs) as int,
            pow2(fmt.m() + 4) as int,
        );
        assert(pow2(fmt.m() + 4) % 2 == 0);
    }
}

/// The guard bits of the aligned work register decide the rounding as the
/// whole discarded part of `m` would: rounding the register is rounding `m`
/// to the nearest, ties to even.
proof fn lemma_rounded_is_nearest(fmt: FloatFormat, m: u64)
    requires
        fmt.wf(),
        m > 0,
    ensures
        rounded(aligned(fmt, m as nat)) == nearest_significand(fmt, m as nat),
{
    lemma_bit_len(m);
    let p = bit_len(m as nat);
    let w = work_width(fmt);
    vstd::arithmetic::power2::lemma2_to64();
    if p <= fmt.m() + 1 {
        let s = (fmt.m() + 1 - p) as nat;
        let sig = m * pow2(s);
        lemma_pow2_pos(s);
        lemma_pow2_adds(s, 3);
        lemma_mul_is_associative(m as int, pow2(s) as int, 8);
        assert(aligned(fmt, m as nat) == sig * 8);
        lemma_fundamental_div_mod_converse((sig * 8) as int, 8, sig as int, 0);
    } else if p <= w {
        let k = (p - fmt.m() - 1) as nat;
        let c = pow2((3 - k) as nat);
        lemma_pow2_pos(k);
        lemma_pow2_adds(k, (3 - k) as nat);
        let q = m as nat / pow2(k);
        let r = m as nat % pow2(k);
        lemma_fundamental_div_mod(m as int, pow2(k) as int);
        assert(m * c == q * 8 + r * c && r * c < 8) by (nonlinear_arith)
            requires
                m == pow2(k) * q + r,
                r < pow2(k),
                pow2(k) * c == 8,
                c > 0,
        ;
        lemma_fundamental_div_mod_converse((m * c) as int, 8, q as int, (r * c) as int);
        assert((r * c > 4) == (2 * r > pow2(k)) && (r * c == 4) == (2 * r == pow2(k)))
            by (nonlinear_arith)
            requires
                pow2(k) * c == 8,
                c > 0,
        ;
    } else {
        let rs = (p - w) as nat;
        let k = rs + 3;
        lemma_pow2_pos(rs);
        lemma_pow2_adds(rs, 3);
        let t = m as nat / pow2(rs);
        let l = m as nat % pow2(rs);
        let q = t / 8;
        let h = t % 8;
        lemma_div_denominator(m as int, pow2(rs) as int, 8);
        lemma_mod_breakdown(m as int, pow2(rs) as int, 8);
        assert(q == m as nat / pow2(k));
        let r = m as nat % pow2(k);
        assert(r == pow2(rs) * h + l);
        lemma_fundamental_div_mod(t as int, 8);
        let x = aligned(fmt, m as nat);
        let bump: nat = if l != 0 && t % 2 == 0 { 1 } else { 0 };
        assert(t % 2 == h % 2);
        assert(x == q * 8 + (h + bump));
        lemma_fundamental_div_mod_converse(x as int, 8, q as int, (h + bump) as int);
        assert((2 * r > pow2(k)) == (h > 4 || (h == 4 && l > 0))) by (nonlinear_arith)
            requires
                r == pow2(rs) * h + l,
                l < pow2(rs),
                pow2(k) == pow2(rs) * 8,
                h < 8,
        ;
        assert((2 * r == pow2(k)) == (h == 4 && l == 0)) by (nonlinear_arith)
            requires
                r == pow2(rs) * h + l,
                l < pow2(rs),
                pow2(k) == pow2(rs) * 8,
                h < 8,
        ;
    }
}

/// Step one of the conversion: the magnitude `m > 0`, of `payload_len`
/// binary digits, left-aligned in the work register, with the bits shifted out
/// on the right folded into its lowest bit.
fn align_work_register(fmt: FloatFormat, m: u64, payload_len: u64) -> (wr: u64)
    requires
        fmt.wf(),
        m > 0,
        payload_len == bit_len(m as nat),
    ensures
        wr == aligned(fmt, m as nat),
        pow2(fmt.m() + 3) <= wr < pow2(fmt.m() + 4),
{
    let significand_wbits = fmt.significand_bits as u64 + 4;
    proof {
        lemma_bit_len(m);
        lemma_aligned_bounds(fmt, m);
        lemma_pow2_shl((fmt.significand_bits + 4) as u64);
        vstd::arithmetic::power2::lemma2_to64();
    }
    if payload_len < significand_wbits {
        let left_shift = significand_wbits - payload_len;
        proof {
            assert(left_shift == work_width(fmt) - bit_len(m as nat));
            assert(m * pow2(left_shift as nat) == aligned(fmt, m as nat));
            lemma_u64_shl_is_mul(m, left_shift);
        }
        m << left_shift
    } else {
        let right_shift = payload_len - significand_wbits;
        let has_spare_bits: u64 = if right_shift == 0 {
            0
        } else if m.wrapping_shl((64 - right_shift) as u32) != 0 {
            1
        } else {
            0
        };
        proof {
            lemma_pow2_shl(right_shift);
            lemma_u64_shr_is_div(m, right_shift);
            if right_shift > 0 {
                lemma_u64_low_bits_mask_is_mod(m, right_shift as nat);
                assert((m << ((64 - right_shift) as u32)) == 0 <==> m & (((1u64 << right_shift) - 1) as u64) == 0)
                    by (bit_vector)
                    requires
                        0 < right_shift < 64,
                ;
            }
            assert(((m >> right_shift) | has_spare_bits) == (m >> right_shift) + if has_spare_bits == 1
                && (m >> right_shift) % 2 == 0 { 1u64 } else { 0u64 }) by (bit_vector)
                requires
                    has_spare_bits <= 1,
                    has_spare_bits == 1 ==> right_shift > 0,
                    right_shift < 64,
            ;
            assert((m as nat) % pow2(right_shift as nat) != 0 <==> has_spare_bits == 1);
            if right_shift == 0 {
                assert(m * pow2(0) == m);
                assert(aligned(fmt, m as nat) == m);
                assert(m >> right_shift == m) by (bit_vector)
                    requires
                        right_shift == 0,
                ;
                assert(((m >> right_shift) | has_spare_bits) == m);
            } else {
                let t = m as nat / pow2(right_shift as nat);
                assert(bit_len(m as nat) > work_width(fmt));
                assert((bit_len(m as nat) - work_width(fmt)) as nat == right_shift as nat);
                assert(aligned(fmt, m as nat) == if (m as nat) % pow2(right_shift as nat) != 0 && t % 2
                    == 0 { t + 1 } else { t });
                assert(t == m >> right_shift);
                assert(((m >> right_shift) | has_spare_bits) == aligned(fmt, m as nat));
            }
            assert(((m >> right_shift) | has_spare_bits) == aligned(fmt, m as nat));
        }
        (m >> right_shift) | has_spare_bits
    }
}

/// Step two: the work register `wr` with its top bit dropped and half a unit
/// added where the guard bits call for rounding up. The result reaches the
/// dropped bit exactly when rounding carries out of the kept significand; its
/// kept fraction is that of the rounded significand.
fn round_work_register(fmt: FloatFormat, wr: u64) -> (r: u64)
    requires
        fmt.wf(),
        pow2(fmt.m() + 3) <= wr < pow2(fmt.m() + 4),
    ensures
        pow2(fmt.m()) <= rounded(wr as nat) <= pow2(fmt.m() + 1),
        (r >= pow2(fmt.m() + 3)) == (rounded(wr as nat) == pow2(fmt.m() + 1)),
        (r >> 3u64) & ((pow2(fmt.m()) - 1) as u64) == if rounded(wr as nat) == pow2(fmt.m() + 1) {
            0
        } else {
            rounded(wr as nat) - pow2(fmt.m())
        },
{
    let work_bits: u64 = 3;
    let work_round: u64 = 4;
    let work_mask: u64 = 15;
    let ghost k = (fmt.significand_bits + 3) as u64;
    proof {
        lemma_pow2_shl(fmt.significand_bits as u64);
        lemma_pow2_shl((fmt.significand_bits + 1) as u64);
        lemma_pow2_shl((fmt.significand_bits + 3) as u64);
        lemma_pow2_shl((fmt.significand_bits + 4) as u64);
        assert(1u64 << ((k - 2) as u64) == pow2(fmt.m() + 1));
        assert(1u64 << ((k - 3) as u64) == pow2(fmt.m()));
        assert(1u64 << k == pow2(fmt.m() + 3));
        assert(1u64 << ((k + 1) as u64) == pow2(fmt.m() + 4));
        lemma_round_register(wr, k);
    }
    let significand_mask = fmt.significand_mask();
    assert(significand_mask == ((1u64 << ((k - 3) as u64)) - 1) as u64);
    let ghost up = wr % 8 > 4 || (wr % 8 == 4 && (wr / 8) % 2 == 1);
    assert(rounded(wr as nat) == if up { (wr / 8 + 1) as u64 } else { wr / 8 });
    let wr = wr & ((significand_mask << work_bits) | work_mask);
    if (wr & work_mask) > work_round {
        wr + work_round
    } else {
        wr
    }
}

/// Converts a magnitude `m` with a sign to the bit pattern, in format `fmt`,
/// of the nearest representable value (ties to even); magnitudes that round
/// beyond the finite range give the infinity of that sign.
pub fn magnitude_to_float(fmt: FloatFormat, negative: bool, m: u64) -> (r: u64)
    requires
        fmt.wf(),
    ensures
        r == int_to_float(fmt, negative, m as nat),
        r < pow2(fmt.width()),
        m == 0 ==> r == 0,
        m > 0 && fmt.bias() + bit_len(m as nat) - 1 >= fmt.max_exp() ==> r == fmt.pack(
            negative,
            fmt.max_exp(),
            0,
        ),
{
    let work_bits: u64 = 3;
    let exponent_bias = fmt.exponent_bias();
    let exponent_max = fmt.exponent_max();
    proof {
        lemma_pow2_shl(fmt.exponent_bits as u64);
        lemma_pow2_shl((fmt.exponent_bits - 1) as u64);
        lemma_pow2_shl(fmt.significand_bits as u64);
        lemma_pow2_shl((fmt.significand_bits + 3) as u64);
        lemma_pow2_adds(fmt.m(), 1);
        vstd::arithmetic::power2::lemma2_to64();
    }
    if m == 0 {
        return fmt.from_parts(false, 0, 0);
    }
    proof {
        lemma_bit_len(m);
    }
    let payload_len = 64 - m.leading_zeros() as u64;
    let mut exp = exponent_bias + payload_len - 1;
    if exp >= exponent_max {
        return fmt.from_parts(negative, exponent_max, 0);
    }
    let wr = align_work_register(fmt, m, payload_len);
    proof {
        lemma_rounded_is_nearest(fmt, m);
    }
    let wr = round_work_register(fmt, wr);
    if wr >= (1u64 << (fmt.significand_bits as u64 + work_bits)) {
        exp += 1;
        if exp >= exponent_max {
            return fmt.from_parts(negative, exponent_max, 0);
        }
    }
    let frac = (wr >> work_bits) & fmt.significand_mask();
    fmt.from_parts(negative, exp, frac)
}

} // verus!
