//! Bit layout of IEEE-754 binary floating-point formats.
//!
//! A value of a format is handled through its raw bit pattern, held in a
//! `u64` (a `binary32` pattern occupies the low 32 bits). The layout is, from
//! the most significant bit down: one sign bit, `exponent_bits` bits of biased
//! exponent, and `significand_bits` bits of stored fraction.
use vstd::prelude::*;
use vstd::arithmetic::power2::{pow2, lemma_pow2_pos, lemma_pow2_adds, lemma_pow2_strictly_increases};
use vstd::arithmetic::div_mod::lemma_fundamental_div_mod_converse;
use vstd::bits::{
    lemma_u64_shl_is_mul,
    lemma_u64_shr_is_div,
    lemma_u64_pow2_no_overflow,
    lemma_u64_low_bits_mask_is_mod,
};

verus! {

/// The widths that describe a binary floating-point format.
#[derive(Clone, Copy, Debug, PartialEq, Eq)]
pub struct FloatFormat {
    /// Number of stored fraction bits (the leading significand bit is implicit).
    pub significand_bits: u32,
    /// Number of biased exponent bits.
    pub exponent_bits: u32,
}

/// `(hi << k) | lo` is `hi * 2^k + lo` when `lo` lies below bit `k`.
proof fn lemma_or_below_shift(hi: u64, lo: u64, k: u64)
    requires
        k < 64,
        lo < pow2(k as nat),
        hi * pow2(k as nat) <= u64::MAX,
    ensures
        (hi << k) | lo == hi * pow2(k as nat) + lo,
{
    lemma_u64_pow2_no_overflow(k as nat);
    lemma_u64_shl_is_mul(1, k);
    lemma_u64_shl_is_mul(hi, k);
    assert(lo < (1u64 << k) ==> (hi << k) | lo == (hi << k) + lo) by (bit_vector)
        requires
            k < 64,
    ;
}

/// `pow2(n)` fits a `u64` for every `n < 64`, and equals `1 << n`.
pub(crate) proof fn lemma_pow2_shl(n: u64)
    requires
        n < 64,
    ensures
        0 < pow2(n as nat) <= 0x8000_0000_0000_0000,
        1u64 << n == pow2(n as nat),
{
    lemma_u64_pow2_no_overflow(n as nat);
    lemma_u64_shl_is_mul(1, n);
    if n < 63 {
        lemma_pow2_strictly_increases(n as nat, 63);
    }
    vstd::arithmetic::power2::lemma2_to64_rest();
}

/// Unpacking a packed bit pattern gives back its sign, biased exponent and
/// fraction field.
pub proof fn lemma_unpack(fmt: FloatFormat, negative: bool, exponent: nat, fraction: nat)
    requires
        fmt.wf(),
        exponent < pow2(fmt.e()),
        fraction < pow2(fmt.m()),
    ensures
        fmt.sign_bit_of(fmt.pack(negative, exponent, fraction)) == negative,
        fmt.exp_field_of(fmt.pack(negative, exponent, fraction)) == exponent,
        fmt.frac_field_of(fmt.pack(negative, exponent, fraction)) == fraction,
{
    let s: nat = if negative { 1 } else { 0 };
    let r = fmt.pack(negative, exponent, fraction);
    lemma_pow2_pos(fmt.m());
    lemma_pow2_pos(fmt.e());
    lemma_pow2_adds(fmt.e(), fmt.m());
    let hi = s * pow2(fmt.e()) + exponent;
    assert(r == hi * pow2(fmt.m()) + fraction) by (nonlinear_arith)
        requires
            r == s * pow2(fmt.m() + fmt.e()) + exponent * pow2(fmt.m()) + fraction,
            pow2(fmt.e() + fmt.m()) == pow2(fmt.e()) * pow2(fmt.m()),
            hi == s * pow2(fmt.e()) + exponent,
            fmt.m() + fmt.e() == fmt.e() + fmt.m(),
    ;
    lemma_fundamental_div_mod_converse(r as int, pow2(fmt.m()) as int, hi as int, fraction as int);
    lemma_fundamental_div_mod_converse(hi as int, pow2(fmt.e()) as int, s as int, exponent as int);
    assert(r == s * pow2(fmt.m() + fmt.e()) + (exponent * pow2(fmt.m()) + fraction));
    assert(exponent * pow2(fmt.m()) + fraction < pow2(fmt.e()) * pow2(fmt.m())) by (nonlinear_arith)
        requires
            exponent + 1 <= pow2(fmt.e()),
            fraction < pow2(fmt.m()),
    ;
    lemma_fundamental_div_mod_converse(
        r as int,
        pow2(fmt.m() + fmt.e()) as int,
        s as int,
        (exponent * pow2(fmt.m()) + fraction) as int,
    );
}

impl FloatFormat {
    /// The widths are those of a format this library can work with: a work
    /// register of `significand_bits + 4` bits and a whole bit pattern both fit
    /// in 64 bits.
    pub open spec fn wf(self) -> bool {
        &&& 1 <= self.significand_bits
        &&& 2 <= self.exponent_bits
        &&& self.significand_bits + 4 < 64
        &&& self.significand_bits + self.exponent_bits < 64
    }

    pub open spec fn m(self) -> nat {
        self.significand_bits as nat
    }

    pub open spec fn e(self) -> nat {
        self.exponent_bits as nat
    }

    /// Total width of a bit pattern.
    pub open spec fn width(self) -> nat {
        self.m() + self.e() + 1
    }

    pub open spec fn bias(self) -> nat {
        (pow2((self.e() - 1) as nat) - 1) as nat
    }

    /// The biased exponent reserved for infinities and NaNs.
    pub open spec fn max_exp(self) -> nat {
        (pow2(self.e()) - 1) as nat
    }

    /// The bit pattern with the given sign, biased exponent and fraction field.
    pub open spec fn pack(self, negative: bool, exponent: nat, fraction: nat) -> nat {
        (if negative { pow2(self.m() + self.e()) } else { 0 }) + exponent * pow2(self.m())
            + fraction
    }

    /// Whether the sign bit of a bit pattern is set.
    pub open spec fn sign_bit_of(self, repr: nat) -> bool {
        (repr / pow2(self.m() + self.e())) % 2 == 1
    }

    /// The biased exponent field of a bit pattern.
    pub open spec fn exp_field_of(self, repr: nat) -> nat {
        (repr / pow2(self.m())) % pow2(self.e())
    }

    /// The stored fraction field of a bit pattern.
    pub open spec fn frac_field_of(self, repr: nat) -> nat {
        repr % pow2(self.m())
    }

    /// IEEE-754 `binary32`.
    pub open spec fn spec_binary32() -> FloatFormat {
        FloatFormat { significand_bits: 23, exponent_bits: 8 }
    }

    /// IEEE-754 `binary64`.
    pub open spec fn spec_binary64() -> FloatFormat {
        FloatFormat { significand_bits: 52, exponent_bits: 11 }
    }

    /// IEEE-754 `binary32`.
    pub fn binary32() -> (r: FloatFormat)
        ensures
            r == Self::spec_binary32(),
            r.wf(),
    {
        FloatFormat { significand_bits: 23, exponent_bits: 8 }
    }

    /// IEEE-754 `binary64`.
    pub fn binary64() -> (r: FloatFormat)
        ensures
            r == Self::spec_binary64(),
            r.wf(),
    {
        FloatFormat { significand_bits: 52, exponent_bits: 11 }
    }

    /// Total width of a bit pattern.
    pub fn bits(&self) -> (r: u32)
        requires
            self.wf(),
        ensures
            r == self.width(),
    {
        self.significand_bits + self.exponent_bits + 1
    }

    pub fn exponent_bias(&self) -> (r: u64)
        requires
            self.wf(),
        ensures
            r == self.bias(),
    {
        proof {
            lemma_pow2_shl((self.exponent_bits - 1) as u64);
        }
        (1u64 << (self.exponent_bits - 1) as u64) - 1
    }

    /// The biased exponent reserved for infinities and NaNs.
    pub fn exponent_max(&self) -> (r: u64)
        requires
            self.wf(),
        ensures
            r == self.max_exp(),
    {
        proof {
            lemma_pow2_shl(self.exponent_bits as u64);
        }
        (1u64 << self.exponent_bits as u64) - 1
    }

    pub fn sign_mask(&self) -> (r: u64)
        requires
            self.wf(),
        ensures
            r == pow2(self.m() + self.e()),
    {
        proof {
            lemma_pow2_shl((self.significand_bits + self.exponent_bits) as u64);
        }
        1u64 << (self.significand_bits + self.exponent_bits) as u64
    }

    pub fn exponent_mask(&self) -> (r: u64)
        requires
            self.wf(),
        ensures
            r == self.max_exp() * pow2(self.m()),
    {
        proof {
            lemma_pow2_shl(self.exponent_bits as u64);
            lemma_pow2_shl(self.significand_bits as u64);
            lemma_pow2_shl((self.significand_bits + self.exponent_bits) as u64);
            lemma_pow2_adds(self.e(), self.m());
            assert(self.max_exp() * pow2(self.m()) <= pow2(self.e()) * pow2(self.m()))
                by (nonlinear_arith)
                requires
                    self.max_exp() <= pow2(self.e()),
            ;
            lemma_u64_shl_is_mul(self.max_exp() as u64, self.significand_bits as u64);
        }
        ((1u64 << self.exponent_bits as u64) - 1) << self.significand_bits as u64
    }

    pub fn significand_mask(&self) -> (r: u64)
        requires
            self.wf(),
        ensures
            r == pow2(self.m()) - 1,
    {
        proof {
            lemma_pow2_shl(self.significand_bits as u64);
        }
        (1u64 << self.significand_bits as u64) - 1
    }

    /// The leading significand bit, which a normal value does not store.
    pub fn implicit_bit(&self) -> (r: u64)
        requires
            self.wf(),
        ensures
            r == pow2(self.m()),
    {
        proof {
            lemma_pow2_shl(self.significand_bits as u64);
        }
        1u64 << self.significand_bits as u64
    }

    /// Packs a sign, a biased exponent and a fraction field into a bit pattern.
    pub fn from_parts(&self, negative: bool, exponent: u64, fraction: u64) -> (r: u64)
        requires
            self.wf(),
            exponent < pow2(self.e()),
            fraction < pow2(self.m()),
        ensures
            r == self.pack(negative, exponent as nat, fraction as nat),
            r < pow2(self.width()),
    {
        let m = self.significand_bits as u64;
        let e = self.exponent_bits as u64;
        let s: u64 = if negative { 1 } else { 0 };
        proof {
            lemma_pow2_shl(e);
            lemma_pow2_shl(m);
            lemma_pow2_shl((m + e) as u64);
            lemma_pow2_adds(self.e(), self.m());
            lemma_pow2_adds(1, self.m() + self.e());
            vstd::arithmetic::power2::lemma2_to64();
            lemma_or_below_shift(s, exponent, e);
            let hi = s * pow2(self.e()) + exponent;
            assert(hi * pow2(self.m()) <= (2 * pow2(self.e()) - 1) * pow2(self.m()))
                by (nonlinear_arith)
                requires
                    hi <= 2 * pow2(self.e()) - 1,
            ;
            assert((2 * pow2(self.e()) - 1) * pow2(self.m()) == 2 * pow2(self.e()) * pow2(self.m())
                - pow2(self.m())) by (nonlinear_arith);
            assert(pow2(self.e()) * pow2(self.m()) == pow2(self.m() + self.e()));
            assert(pow2(self.width()) == 2 * pow2(self.m() + self.e()));
            assert(2 * pow2(self.e()) * pow2(self.m()) == 2 * (pow2(self.e()) * pow2(self.m())))
                by (nonlinear_arith);
            assert(hi * pow2(self.m()) <= u64::MAX);
            assert(exponent * pow2(self.m()) <= (pow2(self.e()) - 1) * pow2(self.m()))
                by (nonlinear_arith)
                requires
                    exponent <= pow2(self.e()) - 1,
            ;
            assert((pow2(self.e()) - 1) * pow2(self.m()) == pow2(self.e()) * pow2(self.m())
                - pow2(self.m())) by (nonlinear_arith);
            lemma_or_below_shift(hi as u64, fraction, m);
            assert(hi * pow2(self.m()) == s * pow2(self.m() + self.e()) + exponent * pow2(self.m()))
                by (nonlinear_arith)
                requires
                    hi == s * pow2(self.e()) + exponent,
                    pow2(self.e()) * pow2(self.m()) == pow2(self.m() + self.e()),
            ;
        }
        (((s << e) | exponent) << m) | fraction
    }

    /// Whether the sign bit of a bit pattern is set.
    pub fn is_negative(&self, repr: u64) -> (r: bool)
        requires
            self.wf(),
        ensures
            r == self.sign_bit_of(repr as nat),
    {
        let k = (self.significand_bits + self.exponent_bits) as u64;
        proof {
            lemma_u64_shr_is_div(repr, k);
            lemma_u64_low_bits_mask_is_mod(repr >> k, 1);
            vstd::arithmetic::power2::lemma2_to64();
        }
        (repr >> k) & 1 == 1
    }

    /// The biased exponent field of a bit pattern.
    pub fn exponent_field(&self, repr: u64) -> (r: u64)
        requires
            self.wf(),
        ensures
            r == self.exp_field_of(repr as nat),
            r <= self.max_exp(),
    {
        let m = self.significand_bits as u64;
        let e = self.exponent_bits as u64;
        proof {
            lemma_pow2_shl(e);
            lemma_u64_shr_is_div(repr, m);
            lemma_u64_low_bits_mask_is_mod(repr >> m, self.e());
        }
        (repr >> m) & ((1u64 << e) - 1)
    }

    /// The stored fraction field of a bit pattern.
    pub fn fraction_field(&self, repr: u64) -> (r: u64)
        requires
            self.wf(),
        ensures
            r == self.frac_field_of(repr as nat),
            r < pow2(self.m()),
    {
        proof {
            lemma_pow2_shl(self.significand_bits as u64);
            lemma_u64_low_bits_mask_is_mod(repr, self.m());
        }
        repr & self.significand_mask()
    }
}

} // verus!
