//! Properties that relate the two conversions.
use vstd::prelude::*;
use vstd::arithmetic::power2::{pow2, lemma_pow2_pos, lemma_pow2_adds, lemma_pow2_strictly_increases};
use vstd::arithmetic::mul::lemma_mul_is_associative;
use crate::format::{FloatFormat, lemma_unpack};
use crate::int_to_float::{bit_len, int_to_float, lemma_bit_len};
use crate::float_to_int::{float_to_int, magnitude_floor};

verus! {

/// A nonzero magnitude that fits in `significand_bits + 1` bits converts
/// exactly: the result is the normal number of that sign whose exponent field
/// is `bias + bit_len(m) - 1` and whose value `(2^M + fraction) * 2^(exponent -
/// bias) / 2^M` is `m` itself. Normal encodings are unique, so this is the
/// pattern of the exact value. The exponent field must stay below the one
/// reserved for infinities, which holds for `binary32` and `binary64`.
pub proof fn lemma_exact_conversion(fmt: FloatFormat, negative: bool, m: u64)
    requires
        fmt.wf(),
        0 < m < pow2(fmt.m() + 1),
        fmt.bias() + bit_len(m as nat) - 1 < fmt.max_exp(),
    ensures
        ({
            let p = bit_len(m as nat);
            let r = int_to_float(fmt, negative, m as nat);
            &&& p <= fmt.m() + 1
            &&& r == fmt.pack(
                negative,
                (fmt.bias() + p - 1) as nat,
                (m * pow2((fmt.m() + 1 - p) as nat) - pow2(fmt.m())) as nat,
            )
            &&& fmt.sign_bit_of(r) == negative
            &&& fmt.exp_field_of(r) == fmt.bias() + p - 1
            &&& (pow2(fmt.m()) + fmt.frac_field_of(r)) * pow2((p - 1) as nat) == m * pow2(fmt.m())
        }),
{
    lemma_bit_len(m);
    let p = bit_len(m as nat);
    if p > fmt.m() + 1 {
        lemma_pow2_strictly_increases(fmt.m() + 1, (p - 1) as nat);
    }
    let s = (fmt.m() + 1 - p) as nat;
    let sig = m * pow2(s);
    lemma_pow2_pos(s);
    lemma_pow2_pos(fmt.e());
    lemma_pow2_pos(fmt.m());
    lemma_pow2_pos((p - 1) as nat);
    vstd::arithmetic::power2::lemma2_to64();
    // The shifted magnitude is a normal significand.
    lemma_pow2_adds((p - 1) as nat, s);
    lemma_pow2_adds(p, s);
    vstd::arithmetic::mul::lemma_mul_inequality(pow2((p - 1) as nat) as int, m as int, pow2(s) as int);
    vstd::arithmetic::mul::lemma_mul_strict_inequality(m as int, pow2(p) as int, pow2(s) as int);
    assert(pow2(fmt.m()) <= sig < pow2(fmt.m() + 1));
    let e = (fmt.bias() + p - 1) as nat;
    let f = (sig - pow2(fmt.m())) as nat;
    lemma_pow2_adds(fmt.m(), 1);
    assert(e < pow2(fmt.e()));
    assert(f < pow2(fmt.m()));
    lemma_unpack(fmt, negative, e, f);
    lemma_mul_is_associative(m as int, pow2(s) as int, pow2((p - 1) as nat) as int);
    lemma_pow2_adds(s, (p - 1) as nat);
}

/// Converting an integer to a float and back gives the integer again, for
/// every integer that the float represents exactly (its magnitude fits in
/// `significand_bits + 1` bits) and that the destination of `w` bits holds.
pub proof fn lemma_round_trip(fmt: FloatFormat, negative: bool, m: u64, w: nat)
    requires
        fmt.wf(),
        2 <= w,
        m < pow2(fmt.m() + 1),
        m > 0 ==> fmt.bias() + bit_len(m as nat) - 1 < fmt.max_exp(),
        negative ==> m <= pow2((w - 1) as nat),
        !negative ==> m < pow2((w - 1) as nat),
    ensures
        float_to_int(fmt, int_to_float(fmt, negative, m as nat), w) == if negative {
            -(m as int)
        } else {
            m as int
        },
{
    lemma_pow2_pos(fmt.m());
    lemma_pow2_pos(fmt.e());
    lemma_pow2_pos((w - 1) as nat);
    if m == 0 {
        assert(fmt.bias() > 0) by {
            lemma_pow2_adds(1, (fmt.e() - 2) as nat);
            lemma_pow2_pos((fmt.e() - 2) as nat);
            vstd::arithmetic::power2::lemma2_to64();
        }
        vstd::arithmetic::div_mod::lemma_div_of0(pow2(fmt.m()) as int);
        vstd::arithmetic::div_mod::lemma_small_mod(0, pow2(fmt.e()));
        assert(fmt.exp_field_of(0) == 0);
        assert(int_to_float(fmt, negative, 0) == 0);
        assert(magnitude_floor(fmt, 0) == 0);
    } else {
        lemma_exact_conversion(fmt, negative, m);
        let p = bit_len(m as nat);
        let r = int_to_float(fmt, negative, m as nat);
        assert(fmt.exp_field_of(r) >= fmt.bias());
        assert((fmt.exp_field_of(r) - fmt.bias()) as nat == (p - 1) as nat);
        vstd::arithmetic::div_mod::lemma_div_multiples_vanish(m as int, pow2(fmt.m()) as int);
        assert(m * pow2(fmt.m()) == pow2(fmt.m()) * m) by (nonlinear_arith);
        assert(magnitude_floor(fmt, r) == m);
    }
}

} // verus!
