//! Floating-point numbers of any width.
//!
//! A code of `bits` bits has, from the high end, a sign bit, `e` exponent bits
//! and the mantissa. Where the sign is *stolen* (all numbers of the array are
//! zero or above) there is no sign bit and the mantissa is one bit wider.

use crate::bits::{
    lemma_limbs_single, lemma_limbs_zero, lemma_div_multiples_vanish_fancy_sum, lemma_limbs_bit,
    lemma_limbs_bound, lemma_nat_bit_past, lemma_nat_bit_split, lemma_nat_bits_eq, lemma_pow2_64,
    lemma_pow2_le, lemma_u64_one_shl, lemma_u64_shr, limb_bit, limb_count, limbs_nat, nat_bit,
    word_bit, word_low,
};
use crate::limbs::{lemma_limbs_of_nat, count_limbs, get_bits, set_bits, split_u128, zero_limbs};
use crate::soft_float::{
    exp_of, f64_exp, f64_frac, f64_is_infinite, f64_is_nan, f64_is_negative, f64_is_zero,
    f64_pattern, f64_scaled, frac_of, is_infinite, is_nan, is_negative, is_zero, lemma_round_bound,
    lemma_top_bit, pattern, round_even, round_even_u64, round_half_up, round_half_up_u64, scaled,
    shift_left, significand, top_bit, top_bit_u64, F64Bits,
};
use vstd::arithmetic::div_mod::*;
use vstd::arithmetic::mul::*;
use vstd::arithmetic::power2::*;
use vstd::bits::*;
use vstd::prelude::*;

verus! {

// ─── Model ───────────────────────────────────────────────────────────────────

/// The power of two by which the codec scales the magnitude of a double to
/// bring it between one and two. A subnormal double is scaled up first, and the
/// steps that this takes are counted from the lowest exponent on.
pub open spec fn float_exponent(b: u64) -> int {
    if f64_exp(b) > 0 {
        f64_exp(b) - 1023
    } else if f64_frac(b) == 0 {
        -1023
    } else {
        -1023 - (1074 - top_bit(f64_frac(b)))
    }
}

/// What the scaled magnitude of a double exceeds one by, in units of `2^-52`.
pub open spec fn float_fraction(b: u64) -> nat {
    if f64_exp(b) > 0 || f64_frac(b) == 0 {
        f64_frac(b)
    } else {
        (f64_frac(b) * pow2((52 - top_bit(f64_frac(b))) as nat) - 0x10_0000_0000_0000) as nat
    }
}

/// How many mantissa bits a code has.
pub open spec fn mantissa_width(bits: nat, e: nat, steal_sign: bool) -> nat {
    if steal_sign {
        (bits - e) as nat
    } else {
        (bits - e - 1) as nat
    }
}

/// The code has room for its exponent and, unless stolen, for its sign.
pub open spec fn float_layout(bits: nat, e: nat, steal_sign: bool) -> bool {
    1 <= e && e + (if steal_sign {
        0nat
    } else {
        1nat
    }) <= bits
}

/// The exponent field of the number one.
pub open spec fn exponent_bias(e: nat) -> int {
    pow2((e - 1) as nat) - 1
}

/// A fraction in units of `2^-52` as a mantissa of `m` bits: rounded to the
/// nearest, halves upward, but never beyond the greatest mantissa.
pub open spec fn mantissa_code(frac: nat, m: nat) -> nat {
    let r = if m <= 52 {
        round_half_up(frac, (52 - m) as nat)
    } else {
        frac * pow2((m - 52) as nat)
    };
    if r > pow2(m) - 1 {
        (pow2(m) - 1) as nat
    } else {
        r
    }
}

/// The code of the double `b`.
pub open spec fn float_code(b: u64, bits: nat, e: nat, steal_sign: bool) -> nat {
    let m = mantissa_width(bits, e, steal_sign);
    let x = float_exponent(b) + exponent_bias(e);
    let sign = if !steal_sign && f64_is_negative(b) {
        pow2((bits - 1) as nat)
    } else {
        0
    };
    if f64_is_zero(b) {
        0
    } else if x >= pow2(e) - 1 {
        sign + ((pow2(e) - 1) * pow2(m)) as nat
    } else if x <= 0 {
        0
    } else {
        sign + (x * pow2(m)) as nat + mantissa_code(float_fraction(b), m)
    }
}

/// `n` rounded to 53 significant bits.
pub open spec fn nearest_53(n: nat) -> nat {
    if top_bit(n) <= 52 {
        n
    } else {
        round_even(n, (top_bit(n) - 52) as nat) * pow2((top_bit(n) - 52) as nat)
    }
}

/// A mantissa of `m` bits as a fraction in units of `2^-52`, rounded the way
/// double-precision arithmetic rounds.
pub open spec fn unit_fraction(mant: nat, m: nat) -> nat {
    if m <= 52 {
        mant * pow2((52 - m) as nat)
    } else {
        round_even(nearest_53(mant), (m - 52) as nat)
    }
}

/// The sign of a code.
pub open spec fn code_negative(code: nat, bits: nat, steal_sign: bool) -> bool {
    !steal_sign && nat_bit(code, (bits - 1) as nat)
}

/// The exponent field of a code.
pub open spec fn code_exponent(code: nat, bits: nat, e: nat, steal_sign: bool) -> nat {
    (code / pow2(mantissa_width(bits, e, steal_sign))) % pow2(e)
}

/// The mantissa of a code.
pub open spec fn code_mantissa(code: nat, bits: nat, e: nat, steal_sign: bool) -> nat {
    code % pow2(mantissa_width(bits, e, steal_sign))
}

/// The double that a code of at most one word stands for.
pub open spec fn float_value(code: nat, bits: nat, e: nat, steal_sign: bool) -> u64 {
    let m = mantissa_width(bits, e, steal_sign);
    let negative = code_negative(code, bits, steal_sign);
    let x = code_exponent(code, bits, e, steal_sign);
    if code == 0 {
        0
    } else if x == pow2(e) - 1 {
        f64_pattern(negative, 0x7ff0_0000_0000_0000)
    } else {
        f64_scaled(
            negative,
            unit_fraction(code_mantissa(code, bits, e, steal_sign), m),
            x - exponent_bias(e),
        )
    }
}

/// The 52 leading bits of a mantissa of `m` bits.
pub open spec fn leading_fraction(mant: nat, m: nat) -> nat {
    if m <= 52 {
        mant * pow2((52 - m) as nat)
    } else {
        mant / pow2((m - 52) as nat)
    }
}

/// The double that a code of several words stands for. Mantissa bits past the
/// 52nd are dropped.
pub open spec fn float_value_wide(code: nat, bits: nat, e: nat, steal_sign: bool) -> u64 {
    let m = mantissa_width(bits, e, steal_sign);
    let negative = code_negative(code, bits, steal_sign);
    let x = code_exponent(code, bits, e, steal_sign);
    if code == 0 {
        0
    } else if x == pow2(e) - 1 {
        f64_pattern(negative, 0x7ff0_0000_0000_0000)
    } else {
        f64_scaled(
            negative,
            leading_fraction(code_mantissa(code, bits, e, steal_sign), m),
            x - exponent_bias(e),
        )
    }
}

/// The exponent width of a plain float of at most one word.
pub open spec fn float_exponent_width(bits: u32) -> u32 {
    if bits <= 16 {
        5
    } else if bits <= 32 {
        8
    } else {
        11
    }
}

// ─── Scaling ─────────────────────────────────────────────────────────────────

pub proof fn lemma_float_fraction_bound(b: u64)
    ensures
        float_fraction(b) < 0x10_0000_0000_0000,
        -2097 <= float_exponent(b) <= 1024,
        f64_exp(b) == 0 && f64_frac(b) != 0 ==> top_bit(f64_frac(b)) < 52 && f64_frac(b) * pow2(
            (52 - top_bit(f64_frac(b))) as nat,
        ) >= 0x10_0000_0000_0000,
{
    if f64_exp(b) == 0 && f64_frac(b) != 0 {
        let n = f64_frac(b);
        let p = top_bit(n);
        lemma_top_bit(n);
        lemma2_to64_rest();
        if p >= 52 {
            lemma_pow2_le(52, p);
        }
        let d = (52 - p) as nat;
        lemma_pow2_adds(p, d);
        lemma_pow2_adds(p + 1, d);
        lemma_pow2_pos(d);
        assert(pow2(p) * pow2(d) <= n * pow2(d) < pow2(p + 1) * pow2(d)) by (nonlinear_arith)
            requires
                pow2(p) <= n < pow2(p + 1),
                pow2(d) > 0,
        ;
    }
}

/// Scales the magnitude of a double to between one and two: the fraction above
/// one in units of `2^-52`, and the exponent taken out.
pub fn scale_float(val: F64Bits) -> (r: (u64, i32))
    ensures
        r.0 as nat == float_fraction(val),
        r.1 as int == float_exponent(val),
        r.0 < 0x10_0000_0000_0000,
        -2097 <= r.1 <= 1024,
{
    let exponent_raw: u64 = exp_of(val);
    let fraction_bits: u64 = frac_of(val);
    proof {
        lemma_float_fraction_bound(val);
    }
    if exponent_raw == 0 {
        if fraction_bits == 0 {
            (0, -1023)
        } else {
            let p: u32 = top_bit_u64(fraction_bits);
            proof {
                let d = (52 - p) as nat;
                lemma2_to64_rest();
                lemma_pow2_adds(p as nat + 1, d);
                assert(fraction_bits * pow2(d) <= pow2(p as nat + 1) * pow2(d)) by (nonlinear_arith)
                    requires
                        (fraction_bits as nat) < pow2(p as nat + 1),
                ;
            }
            let scaled_up: u64 = shift_left(fraction_bits, 52 - p);
            (scaled_up - 0x10_0000_0000_0000, -1023 - (1074 - p as i32))
        }
    } else {
        (fraction_bits, exponent_raw as i32 - 1023)
    }
}

// ─── Choosing a width ────────────────────────────────────────────────────────

/// An exponent field of `e` bits can hold the exponent `x` of a finite number.
pub open spec fn exponent_fits(x: int, e: nat) -> bool {
    1 - exponent_bias(e) <= x <= (pow2(e) - 2) - exponent_bias(e)
}

/// The mantissa width chosen for numbers of this order of magnitude.
pub open spec fn scalable_mantissa(x: int) -> u32 {
    let mag = if x < 0 {
        -x
    } else {
        x
    };
    if mag <= 4 {
        8
    } else if mag <= 10 {
        16
    } else if mag <= 20 {
        24
    } else if mag <= 40 {
        32
    } else {
        40
    }
}

/// The narrowest exponent width from `e` on, below fifteen, that holds an
/// exponent, or fifteen.
pub open spec fn first_fit(x: int, e: nat) -> nat
    decreases 15 - e,
{
    if e >= 15 || exponent_fits(x, e) {
        e
    } else {
        first_fit(x, e + 1)
    }
}

/// The width and the exponent width chosen for a number.
pub open spec fn float_config(b: u64, steal_sign: bool) -> (u32, u32) {
    if f64_is_zero(b) || f64_is_nan(b) || f64_is_infinite(b) {
        (8, 4)
    } else {
        let e = first_fit(float_exponent(b), 2);
        let sign: nat = if steal_sign {
            0
        } else {
            1
        };
        ((e + scalable_mantissa(float_exponent(b)) + sign) as u32, e as u32)
    }
}

proof fn lemma_first_fit(x: int, from: nat, e: nat)
    requires
        from <= e <= 15,
        e < 15 ==> exponent_fits(x, e),
        forall|d: nat| from <= d < e ==> !#[trigger] exponent_fits(x, d),
    ensures
        first_fit(x, from) == e,
    decreases e - from,
{
    if from < e {
        assert(!exponent_fits(x, from));
        lemma_first_fit(x, from + 1, e);
    }
}

/// Chooses a width and an exponent width for a number: the narrowest exponent
/// from two to fourteen bits that holds it, or fifteen, and a mantissa that
/// grows with its order of magnitude.
pub fn compute_scalable_float_config(val: F64Bits, steal_sign: bool) -> (r: (u32, u32))
    ensures
        r == float_config(val, steal_sign),
        f64_is_zero(val) || f64_is_nan(val) || f64_is_infinite(val) ==> r == (8u32, 4u32),
        !(f64_is_zero(val) || f64_is_nan(val) || f64_is_infinite(val)) ==> {
            &&& 2 <= r.1 <= 15
            &&& r.1 < 15 ==> exponent_fits(float_exponent(val), r.1 as nat)
            &&& forall|e: nat| 2 <= e < r.1 ==> !#[trigger] exponent_fits(float_exponent(val), e)
            &&& r.0 == r.1 + scalable_mantissa(float_exponent(val)) + (if steal_sign {
                0u32
            } else {
                1u32
            })
        },
{
    if is_zero(val) || is_nan(val) || is_infinite(val) {
        return (8, 4);
    }
    let (_frac, exponent_raw) = scale_float(val);
    let x: i64 = exponent_raw as i64;
    let mut e: u32 = 2;
    let mut half: i64 = 2;
    proof {
        lemma2_to64();
    }
    while e < 15
        invariant_except_break
            2 <= e <= 15,
            half == pow2((e - 1) as nat),
            half <= 0x4000,
            forall|d: nat| 2 <= d < e ==> !#[trigger] exponent_fits(x as int, d),
        ensures
            2 <= e <= 15,
            e < 15 ==> exponent_fits(x as int, e as nat),
            forall|d: nat| 2 <= d < e ==> !#[trigger] exponent_fits(x as int, d),
        decreases 15 - e,
    {
        let bias: i64 = half - 1;
        let min_exp: i64 = 1 - bias;
        let max_exp: i64 = (2 * half - 2) - bias;
        proof {
            lemma_pow2_unfold(e as nat);
            assert(exponent_fits(x as int, e as nat) == (min_exp <= x <= max_exp));
        }
        if x >= min_exp && x <= max_exp {
            break;
        }
        proof {
            lemma2_to64();
            lemma_pow2_le(e as nat, 14);
        }
        e = e + 1;
        half = 2 * half;
    }
    proof {
        lemma_first_fit(x as int, 2, e as nat);
    }
    let mag: i64 = if x < 0 {
        -x
    } else {
        x
    };
    let m: u32 = if mag <= 4 {
        8
    } else if mag <= 10 {
        16
    } else if mag <= 20 {
        24
    } else if mag <= 40 {
        32
    } else {
        40
    };
    let sign_bit: u32 = if steal_sign {
        0
    } else {
        1
    };
    (e + m + sign_bit, e)
}

// ─── Codes of at most one word ───────────────────────────────────────────────

pub proof fn lemma_mantissa_code_bound(frac: nat, m: nat)
    requires
        frac < 0x10_0000_0000_0000,
    ensures
        mantissa_code(frac, m) < pow2(m),
        m > 52 ==> frac * pow2((m - 52) as nat) < pow2(m),
{
    lemma_pow2_pos(m);
    if m > 52 {
        let d = (m - 52) as nat;
        lemma2_to64_rest();
        lemma_pow2_adds(52, d);
        lemma_pow2_pos(d);
        assert(frac * pow2(d) < pow2(52) * pow2(d)) by (nonlinear_arith)
            requires
                frac < pow2(52),
                pow2(d) > 0,
        ;
    }
}

/// Rounds a fraction in units of `2^-52` to a mantissa.
fn encode_mantissa(frac: u64, m: u32) -> (r: u64)
    requires
        frac < 0x10_0000_0000_0000,
        m < 64,
    ensures
        r as nat == mantissa_code(frac as nat, m as nat),
{
    proof {
        lemma_u64_one_shl(m);
        lemma_pow2_pos(m as nat);
        lemma_mantissa_code_bound(frac as nat, m as nat);
        lemma2_to64_rest();
        if m > 52 {
            lemma_pow2_le(m as nat, 63);
            lemma_pow2_64();
        }
    }
    let max_mantissa: u64 = (1u64 << m) - 1;
    let r: u64 = if m <= 52 {
        round_half_up_u64(frac, 52 - m)
    } else {
        shift_left(frac, m - 52)
    };
    if r > max_mantissa {
        max_mantissa
    } else {
        r
    }
}

/// Encodes a double in `bits` bits, `e` of them for the exponent.
///
/// A magnitude too great for the exponent becomes infinite; one too small
/// becomes zero.
pub fn encode_custom_float_with_e(val: F64Bits, bits: u32, e: u32, steal_sign: bool) -> (r: u64)
    requires
        e <= 30,
        bits <= 64,
        float_layout(bits as nat, e as nat, steal_sign),
    ensures
        r as nat == float_code(val, bits as nat, e as nat, steal_sign),
{
    if is_zero(val) {
        return 0;
    }
    proof {
        lemma2_to64();
        lemma2_to64_rest();
        lemma_pow2_le((e - 1) as nat, 29);
        lemma_pow2_le(e as nat, 30);
        lemma_u64_one_shl((e - 1) as u32);
        lemma_u64_one_shl(e);
        lemma_float_fraction_bound(val);
    }
    let bias: i64 = (1u64 << (e - 1)) as i64 - 1;
    let negative: bool = is_negative(val);
    let (frac, exponent_raw) = scale_float(val);
    let exponent: i64 = exponent_raw as i64 + bias;
    let m_bits: u32 = if steal_sign {
        bits - e
    } else {
        bits - e - 1
    };
    let top: u64 = (1u64 << e) - 1;
    let ghost pe = pow2(e as nat);
    let ghost pm = pow2(m_bits as nat);
    proof {
        // The exponent field lies below the sign bit, or below the end of the code.
        let w = (e + m_bits) as nat;
        lemma_pow2_adds(e as nat, m_bits as nat);
        lemma_pow2_pos(m_bits as nat);
        lemma_pow2_64();
        lemma_pow2_le(w, 64);
        if !steal_sign {
            lemma_pow2_le(w, 63);
            lemma_u64_one_shl((bits - 1) as u32);
            lemma_pow2_unfold(64);
        }
        assert((pe - 1) * pm == pe * pm - pm) by (nonlinear_arith);
        assert((top as int) * pm <= (pe - 1) * pm) by (nonlinear_arith)
            requires
                top == pe - 1,
        ;
    }
    let sign: u64 = if !steal_sign && negative {
        1u64 << (bits - 1)
    } else {
        0
    };
    if exponent >= top as i64 {
        return sign + shift_left(top, m_bits);
    }
    if exponent <= 0 {
        return 0;
    }
    let mantissa_encoded: u64 = encode_mantissa(frac, m_bits);
    proof {
        lemma_mantissa_code_bound(frac as nat, m_bits as nat);
        assert((exponent as int) * pm <= (pe - 2) * pm) by (nonlinear_arith)
            requires
                exponent <= pe - 2,
                pm > 0,
        ;
        assert((pe - 2) * pm == pe * pm - 2 * pm) by (nonlinear_arith);
    }
    sign + shift_left(exponent as u64, m_bits) + mantissa_encoded
}

/// Rounds a mantissa to a fraction in units of `2^-52`.
fn decode_mantissa(mant: u64, m: u32) -> (f: u64)
    requires
        m < 64,
        (mant as nat) < pow2(m as nat),
    ensures
        f as nat == unit_fraction(mant as nat, m as nat),
        f <= 0x10_0000_0000_0000,
{
    proof {
        lemma2_to64();
        lemma2_to64_rest();
        lemma_pow2_le(m as nat, 63);
    }
    if m <= 52 {
        proof {
            let d = (52 - m) as nat;
            lemma_pow2_adds(m as nat, d);
            lemma_pow2_pos(d);
            assert(mant * pow2(d) <= pow2(m as nat) * pow2(d)) by (nonlinear_arith)
                requires
                    (mant as nat) < pow2(m as nat),
            ;
        }
        return shift_left(mant, 52 - m);
    }
    let d: u32 = m - 52;
    let near: u64 = if mant == 0 {
        0
    } else {
        let p: u32 = top_bit_u64(mant);
        if p <= 52 {
            mant
        } else {
            let s: u64 = significand(mant);
            proof {
                // p < m, so the rounded number is at most 2^m.
                if p >= m {
                    lemma_pow2_le(m as nat, p as nat);
                }
                lemma_pow2_adds(53, (p - 52) as nat);
                lemma_pow2_le(p as nat + 1, m as nat);
                let w = pow2((p - 52) as nat);
                assert(s * w <= pow2(53) * w) by (nonlinear_arith)
                    requires
                        s <= pow2(53),
                ;
            }
            shift_left(s, p - 52)
        }
    };
    proof {
        lemma_pow2_adds(52, d as nat);
        lemma_pow2_pos(d as nat);
    }
    if near == 0x8000_0000_0000_0000 {
        proof {
            lemma_div_by_multiple(pow2(52) as int, pow2(d as nat) as int);
            lemma_mod_multiples_basic(pow2(52) as int, pow2(d as nat) as int);
            assert(m == 63) by {
                if m < 63 {
                    lemma_pow2_le(m as nat, 62);
                }
            }
        }
        0x10_0000_0000_0000
    } else {
        proof {
            if near as nat == pow2(m as nat) {
                lemma_div_by_multiple(pow2(52) as int, pow2(d as nat) as int);
                lemma_mod_multiples_basic(pow2(52) as int, pow2(d as nat) as int);
            } else {
                lemma_round_bound(near as nat, m as nat, d as nat);
            }
        }
        round_even_u64(near, d)
    }
}

/// Decodes a code of `bits` bits, `e` of them for the exponent.
pub fn decode_custom_float_with_e(val: u64, bits: u32, e: u32, steal_sign: bool) -> (r: F64Bits)
    requires
        e <= 30,
        bits <= 64,
        float_layout(bits as nat, e as nat, steal_sign),
    ensures
        r == float_value(val as nat, bits as nat, e as nat, steal_sign),
{
    if val == 0 {
        return 0;
    }
    proof {
        lemma2_to64();
        lemma2_to64_rest();
        lemma_pow2_le((e - 1) as nat, 29);
        lemma_pow2_le(e as nat, 30);
        lemma_u64_one_shl((e - 1) as u32);
        lemma_u64_one_shl(e);
    }
    let bias: i64 = (1u64 << (e - 1)) as i64 - 1;
    let m_bits: u32 = if steal_sign {
        bits - e
    } else {
        bits - e - 1
    };
    proof {
        lemma_u64_shr(val, m_bits);
        lemma_pow2_pos(m_bits as nat);
        lemma_mod_bound(val as int, pow2(m_bits as nat) as int);
    }
    let mantissa_bits: u64 = word_low(val, m_bits);
    let exponent_bits: u64 = word_low(val >> m_bits, e);
    let negative: bool = !steal_sign && word_bit(val, bits - 1);
    proof {
        lemma_mod_bound((val >> m_bits) as int, pow2(e as nat) as int);
    }
    if exponent_bits == (1u64 << e) - 1 {
        return pattern(negative, 0x7ff0_0000_0000_0000);
    }
    let exponent: i64 = exponent_bits as i64 - bias;
    let fraction: u64 = decode_mantissa(mantissa_bits, m_bits);
    scaled(negative, fraction, exponent)
}

/// Encodes a double as a plain float of `bits` bits.
pub fn encode_custom_float(val: F64Bits, bits: u32, steal_sign: bool) -> (r: u64)
    requires
        bits <= 64,
        float_layout(bits as nat, float_exponent_width(bits) as nat, steal_sign),
    ensures
        r as nat == float_code(val, bits as nat, float_exponent_width(bits) as nat, steal_sign),
{
    let e: u32 = if bits <= 16 {
        5
    } else if bits <= 32 {
        8
    } else {
        11
    };
    encode_custom_float_with_e(val, bits, e, steal_sign)
}

/// Decodes a plain float of `bits` bits.
pub fn decode_custom_float(val: u64, bits: u32, steal_sign: bool) -> (r: F64Bits)
    requires
        bits <= 64,
        float_layout(bits as nat, float_exponent_width(bits) as nat, steal_sign),
    ensures
        r == float_value(
            val as nat,
            bits as nat,
            float_exponent_width(bits) as nat,
            steal_sign,
        ),
{
    let e: u32 = if bits <= 16 {
        5
    } else if bits <= 32 {
        8
    } else {
        11
    };
    decode_custom_float_with_e(val, bits, e, steal_sign)
}

// ─── Codes of several words ──────────────────────────────────────────────────

/// Two to the power `k`.
pub fn pow2_u128(k: u32) -> (r: u128)
    requires
        k < 127,
    ensures
        r as nat == pow2(k as nat),
        r < 0x8000_0000_0000_0000_0000_0000_0000_0000,
{
    let mut r: u128 = 1;
    let mut i: u32 = 0;
    proof {
        lemma2_to64();
    }
    while i < k
        invariant
            i <= k,
            k < 127,
            r as nat == pow2(i as nat),
        decreases k - i,
    {
        proof {
            lemma_pow2_126();
            lemma_pow2_le(i as nat, 126);
            lemma_pow2_unfold(i as nat + 1);
        }
        r = r * 2;
        i = i + 1;
    }
    proof {
        lemma_pow2_126();
        lemma_pow2_le(k as nat, 126);
    }
    r
}

pub proof fn lemma_pow2_126()
    ensures
        pow2(126) == 0x4000_0000_0000_0000_0000_0000_0000_0000,
{
    lemma2_to64_rest();
    lemma_pow2_adds(63, 63);
    assert(0x8000_0000_0000_0000 * 0x8000_0000_0000_0000
        == 0x4000_0000_0000_0000_0000_0000_0000_0000);
}

/// The limb string of a number below `2^128`.
proof fn lemma_two_limbs(lo: u64, hi: u64)
    ensures
        limbs_nat(seq![lo, hi]) == lo as nat + 0x1_0000_0000_0000_0000 * (hi as nat),
{
    let s = seq![lo, hi];
    lemma_pow2_64();
    lemma_limbs_single(lo);
    assert(s.drop_last() =~= seq![lo]);
    assert(limbs_nat(s) == limbs_nat(seq![lo]) + (hi as nat) * pow2(64));
}

/// A limb string whose bits are laid out as a mantissa of `m` bits, an exponent
/// of `e` bits and a sign denotes the corresponding code.
proof fn lemma_fields_value(s: Seq<u64>, mant: nat, m: nat, x: nat, e: nat, sign: bool)
    requires
        mant < pow2(m),
        x < pow2(e),
        m + e + (if sign {
            1nat
        } else {
            0nat
        }) <= 64 * s.len(),
        forall|j: nat|
            j < 64 * s.len() ==> #[trigger] limb_bit(s, j) == if j < m {
                nat_bit(mant, j)
            } else if j < m + e {
                nat_bit(x, (j - m) as nat)
            } else {
                sign && j == m + e
            },
    ensures
        limbs_nat(s) == (if sign {
            pow2(m + e)
        } else {
            0
        }) + x * pow2(m) + mant,
{
    let w = (64 * s.len()) as nat;
    let b: nat = if sign {
        1
    } else {
        0
    };
    let hi = x + pow2(e) * b;
    let n = mant + pow2(m) * hi;
    lemma2_to64();
    lemma_pow2_adds(m, e);
    lemma_pow2_pos(m);
    lemma_pow2_pos(e);
    assert(n == b * pow2(m + e) + x * pow2(m) + mant) by (nonlinear_arith)
        requires
            n == mant + pow2(m) * (x + pow2(e) * b),
            pow2(m + e) == pow2(m) * pow2(e),
    ;
    assert(b * pow2(m + e) == if sign {
        pow2(m + e)
    } else {
        0
    });
    assert(n < pow2(m + e) * (1 + b)) by (nonlinear_arith)
        requires
            n == mant + pow2(m) * (x + pow2(e) * b),
            pow2(m + e) == pow2(m) * pow2(e),
            mant < pow2(m),
            x + 1 <= pow2(e),
    ;
    lemma_pow2_unfold(m + e + 1);
    lemma_pow2_le(m + e + b, w);
    assert(pow2(m + e) * (1 + b) == pow2(m + e + b)) by {
        if sign {
            assert(pow2(m + e) * 2 == 2 * pow2(m + e));
        } else {
            lemma_mul_basics(pow2(m + e) as int);
        }
    }
    lemma_limbs_bound(s);
    assert forall|j: nat| j < w implies #[trigger] nat_bit(limbs_nat(s), j) == nat_bit(n, j) by {
        lemma_limbs_bit(s, j);
        lemma_nat_bit_split(mant, hi, m, j);
        assert(limb_bit(s, j) == if j < m {
            nat_bit(mant, j)
        } else if j < m + e {
            nat_bit(x, (j - m) as nat)
        } else {
            sign && j == m + e
        });
        if j >= m {
            let i = (j - m) as nat;
            lemma_nat_bit_split(x, b, e, i);
            if i >= e {
                let t = (i - e) as nat;
                if t == 0 {
                    assert(nat_bit(b, 0) == (b == 1)) by {
                        assert(b / 1 == b);
                    }
                } else {
                    lemma_pow2_le(1, t);
                    lemma_nat_bit_past(b, t);
                }
            }
        }
    }
    lemma_nat_bits_eq(limbs_nat(s), n, w);
}

/// Encodes a double in `bits` bits, `e` of them for the exponent, as a limb
/// string.
pub fn encode_custom_float_limbs(val: F64Bits, bits: u32, e: u32, steal_sign: bool) -> (r: Vec<u64>)
    requires
        e <= 126,
        bits <= u32::MAX - 63,
        float_layout(bits as nat, e as nat, steal_sign),
    ensures
        r@.len() == limb_count(bits as nat),
        limbs_nat(r@) == float_code(val, bits as nat, e as nat, steal_sign),
{
    let k: usize = count_limbs(bits);
    let mut limbs: Vec<u64> = zero_limbs(k);
    if is_zero(val) {
        return limbs;
    }
    proof {
        lemma_float_fraction_bound(val);
        lemma_pow2_unfold(e as nat);
        lemma_pow2_pos((e - 1) as nat);
        assert forall|j: nat| !#[trigger] limb_bit(limbs@, j) by {
            lemma_limbs_bit(limbs@, j);
            lemma_pow2_pos(j);
            lemma_div_of0(pow2(j) as int);
        }
    }
    let half: u128 = pow2_u128(e - 1);
    proof {
        lemma_pow2_126();
        lemma_pow2_le((e - 1) as nat, 125);
        lemma_pow2_unfold(126);
    }
    let bias: i128 = half as i128 - 1;
    let top: u128 = 2 * half - 1;
    let negative: bool = !steal_sign && is_negative(val);
    let (frac, exponent_raw) = scale_float(val);
    let exponent: i128 = exponent_raw as i128 + bias;
    let m_bits: u32 = if steal_sign {
        bits - e
    } else {
        bits - e - 1
    };
    let ghost m = m_bits as nat;
    let ghost mant: nat;
    let x: u128;
    if exponent >= top as i128 {
        x = top;
        proof {
            mant = 0;
            lemma_pow2_pos(m);
            assert forall|j: nat| !#[trigger] nat_bit(0, j) by {
                lemma_pow2_pos(j);
                lemma_div_of0(pow2(j) as int);
            }
        }
    } else if exponent <= 0 {
        return limbs;
    } else {
        x = exponent as u128;
        proof {
            mant = mantissa_code(frac as nat, m);
            lemma_mantissa_code_bound(frac as nat, m);
            lemma2_to64_rest();
        }
        if m_bits <= 52 {
            let value: u64 = encode_mantissa(frac, m_bits);
            let one: [u64; 1] = [value];
            set_bits(&mut limbs, one.as_slice(), 0, m_bits);
            proof {
                assert(one@ =~= seq![value]);
                lemma_limbs_single(value);
                assert forall|j: nat| j < 64 * k implies #[trigger] limb_bit(limbs@, j) == (j < m
                    && nat_bit(mant, j)) by {
                    lemma_limbs_bit(one@, j);
                }
            }
        } else {
            let d: u32 = m_bits - 52;
            let one: [u64; 1] = [frac];
            set_bits(&mut limbs, one.as_slice(), d, 52);
            proof {
                assert(one@ =~= seq![frac]);
                lemma_limbs_single(frac);
                assert(mant == 0 + pow2(d as nat) * (frac as nat)) by (nonlinear_arith)
                    requires
                        mant == (frac as nat) * pow2(d as nat),
                ;
                lemma_pow2_pos(d as nat);
                assert forall|j: nat| j < 64 * k implies #[trigger] limb_bit(limbs@, j) == (j < m
                    && nat_bit(mant, j)) by {
                    lemma_nat_bit_split(0, frac as nat, d as nat, j);
                    if j >= d as nat {
                        lemma_limbs_bit(one@, (j - d) as nat);
                    } else {
                        lemma_pow2_pos(j);
                        lemma_div_of0(pow2(j) as int);
                    }
                }
            }
        }
    }
    proof {
        assert forall|j: nat| j < 64 * k implies #[trigger] limb_bit(limbs@, j) == (j < m
            && nat_bit(mant, j)) by {
        }
    }
    let (x_low, x_high) = split_u128(x);
    let x_limbs: [u64; 2] = [x_low, x_high];
    set_bits(&mut limbs, x_limbs.as_slice(), m_bits, e);
    proof {
        assert(x_limbs@ =~= seq![x_low, x_high]);
        lemma_two_limbs(x_low, x_high);
        assert(limbs_nat(x_limbs@) == x as nat);
        assert forall|j: nat| j < 64 * k implies #[trigger] limb_bit(limbs@, j) == if j < m {
            nat_bit(mant, j)
        } else {
            j < m + e && nat_bit(x as nat, (j - m) as nat)
        } by {
            if m <= j < m + e {
                lemma_limbs_bit(x_limbs@, (j - m) as nat);
            }
        }
    }
    if negative {
        let one: [u64; 1] = [1];
        set_bits(&mut limbs, one.as_slice(), bits - 1, 1);
        proof {
            assert(one@ =~= seq![1u64]);
            lemma2_to64();
            assert(nat_bit(1, 0)) by {
                assert(1nat / 1 == 1);
            }
            assert(limb_bit(one@, 0));
        }
    }
    proof {
        assert forall|j: nat| j < 64 * k implies #[trigger] limb_bit(limbs@, j) == if j < m {
            nat_bit(mant, j)
        } else if j < m + e {
            nat_bit(x as nat, (j - m) as nat)
        } else {
            negative && j == m + e
        } by {
        }
        lemma_fields_value(limbs@, mant, m, x as nat, e as nat, negative);
    }
    limbs
}

/// Decodes a limb string of `bits` bits, `e` of them for the exponent.
pub fn decode_custom_float_limbs(limbs: &[u64], bits: u32, e: u32, steal_sign: bool) -> (r: F64Bits)
    requires
        e <= 32,
        bits <= u32::MAX - 63,
        float_layout(bits as nat, e as nat, steal_sign),
    ensures
        r == float_value_wide(limbs_nat(limbs@), bits as nat, e as nat, steal_sign),
{
    let mut all_zero: bool = true;
    let mut i: usize = 0;
    while i < limbs.len()
        invariant
            i <= limbs@.len(),
            all_zero <==> (forall|j: int| 0 <= j < i ==> limbs@[j] == 0),
        decreases limbs@.len() - i,
    {
        if limbs[i] != 0 {
            all_zero = false;
        }
        i = i + 1;
    }
    let ghost n = limbs_nat(limbs@);
    if all_zero {
        proof {
            lemma_limbs_zero(limbs@);
        }
        return 0;
    }
    proof {
        if n == 0 {
            assert forall|j: int| 0 <= j < limbs@.len() implies limbs@[j] == 0 by {
                lemma_limbs_of_nat(limbs@);
                lemma_pow2_pos((64 * j) as nat);
                lemma_div_of0(pow2((64 * j) as nat) as int);
            }
        }
        lemma2_to64();
        lemma_pow2_le((e - 1) as nat, 31);
        lemma_pow2_le(e as nat, 32);
        lemma_u64_one_shl((e - 1) as u32);
        lemma_u64_one_shl(e);
    }
    let m_bits: u32 = if steal_sign {
        bits - e
    } else {
        bits - e - 1
    };
    let exp_limbs: Vec<u64> = get_bits(limbs, m_bits, e);
    proof {
        lemma_single_value(exp_limbs@);
    }
    let exponent_bits: u64 = exp_limbs[0];
    let negative: bool = if steal_sign {
        false
    } else {
        let s_limbs: Vec<u64> = get_bits(limbs, bits - 1, 1);
        proof {
            lemma_single_value(s_limbs@);
        }
        s_limbs[0] == 1
    };
    let top: u64 = (1u64 << e) - 1;
    if exponent_bits == top {
        return pattern(negative, 0x7ff0_0000_0000_0000);
    }
    let bias: i64 = (1u64 << (e - 1)) as i64 - 1;
    proof {
        lemma_mod_bound((n / pow2(m_bits as nat)) as int, pow2(e as nat) as int);
        lemma_pow2_pos(m_bits as nat);
        lemma_mod_bound(n as int, pow2(m_bits as nat) as int);
        lemma2_to64_rest();
    }
    let exponent: i64 = exponent_bits as i64 - bias;
    let fraction: u64 = if m_bits == 0 {
        proof {
            assert(n % 1 == 0);
            lemma_mul_basics(pow2(52) as int);
        }
        0
    } else if m_bits <= 52 {
        let mantissa_limbs: Vec<u64> = get_bits(limbs, 0, m_bits);
        proof {
            lemma_single_value(mantissa_limbs@);
            assert(n / 1 == n);
            let d = (52 - m_bits) as nat;
            let mant = n % pow2(m_bits as nat);
            lemma_pow2_adds(m_bits as nat, d);
            lemma_pow2_pos(d);
            assert(mant * pow2(d) <= pow2(m_bits as nat) * pow2(d)) by (nonlinear_arith)
                requires
                    mant < pow2(m_bits as nat),
            ;
        }
        shift_left(mantissa_limbs[0], 52 - m_bits)
    } else {
        let lead: Vec<u64> = get_bits(limbs, m_bits - 52, 52);
        proof {
            lemma_single_value(lead@);
            let d = (m_bits - 52) as nat;
            lemma_pow2_adds(d, 52);
            lemma_pow2_pos(d);
            lemma_mod_of_div(n, d, 52);
            lemma_mod_bound((n / pow2(d)) as int, pow2(52) as int);
        }
        lead[0]
    };
    scaled(negative, fraction, exponent)
}

/// A limb string of one limb denotes that limb.
proof fn lemma_single_value(s: Seq<u64>)
    requires
        s.len() == 1,
    ensures
        limbs_nat(s) == s[0] as nat,
{
    assert(s =~= seq![s[0]]);
    lemma_limbs_single(s[0]);
}

/// Cutting the low bits off a remainder is taking the remainder of what is left.
proof fn lemma_mod_of_div(n: nat, a: nat, b: nat)
    ensures
        (n % pow2(a + b)) / pow2(a) == (n / pow2(a)) % pow2(b),
{
    lemma_pow2_adds(a, b);
    lemma_pow2_pos(a);
    lemma_pow2_pos(b);
    lemma_mod_breakdown(n as int, pow2(a) as int, pow2(b) as int);
    let lo = n % pow2(a);
    let hi = (n / pow2(a)) % pow2(b);
    lemma_mod_bound(n as int, pow2(a) as int);
    lemma_div_multiples_vanish_fancy_sum(lo, hi, pow2(a));
    lemma_basic_div(lo as int, pow2(a) as int);
}

} // verus!
