//! What coding keeps: values that fit their type come back unchanged.

use crate::bits;
use crate::bits::{limb_bit, limb_count, limbs_nat, nat_bit, signed_value};
use crate::elements::{
    decoded_values, element_scalar, encoded_values, integer_limbs, packed_values, scale_or_one,
    value_limbs,
};
use crate::hardware;
use crate::hardware::{element_count, trimmed_word, unpacked_word};
use crate::limbs::limbs_of;
use crate::soft_float;
use crate::soft_float::laws::{apart, f32_exp, f32_frac};
use crate::soft_float::{
    exact_integer, f64_exp, f64_frac, f64_is_infinite, f64_is_negative, f64_is_non_negative,
    f64_is_zero, f64_of_f32, f64_of_int, f64_pattern, f64_rounded, f64_sign, round_even,
    round_half_up, top_bit, FloatOp,
};
use crate::types::float_codec::{
    code_exponent, code_mantissa, code_negative, exponent_bias, float_code, float_exponent,
    float_fraction, float_layout, float_value, float_value_wide, leading_fraction, mantissa_code,
    mantissa_width, nearest_53, unit_fraction,
};
use crate::types::int_codec::{decoded_int, extended_bit, f64_integer, limbs_negative};
use crate::types::{
    codable, dtype_width, fixed_point_double, int_limbs, limbs_scalar, nearest_fixed_point,
    scalar_double, scalar_limbs, standard_exponent_width, DataType, ScalarView,
};
use vstd::arithmetic::div_mod::*;
use vstd::arithmetic::mul::*;
use vstd::arithmetic::power2::*;
use vstd::prelude::*;

verus! {

// ─── Integers ────────────────────────────────────────────────────────────────

/// That an integer has a two's complement of `b` bits.
pub open spec fn int_fits(v: int, b: nat) -> bool {
    b >= 1 && -pow2((b - 1) as nat) <= v < pow2((b - 1) as nat)
}

/// The two's complement of an integer stands for that integer.
pub proof fn law_twos_complement(v: int, b: nat)
    requires
        int_fits(v, b),
    ensures
        signed_value((v % pow2(b) as int) as nat, b) == v,
{
    let m = pow2(b) as int;
    lemma_pow2_unfold(b);
    lemma_pow2_pos(b);
    lemma_mod_bound(v, m);
    lemma_mod_twice(v, m);
    if v >= 0 {
        lemma_small_mod(v as nat, m as nat);
    } else {
        lemma_mod_add_multiples_vanish(v, m);
        lemma_small_mod((v + m) as nat, m as nat);
    }
}

/// A signed value depends on the low bits alone.
pub proof fn lemma_signed_value_low(x: nat, y: nat, b: nat)
    requires
        x % pow2(b) == y % pow2(b),
    ensures
        signed_value(x, b) == signed_value(y, b),
{
}

/// An integer that fits a type of up to 64 bits comes back from its limbs.
pub proof fn law_int_round_trip(v: i64, b: u32, scale: Option<u32>, steal_sign: bool)
    requires
        b <= 64,
        int_fits(v as int, b as nat),
    ensures
        limbs_scalar(
            scalar_limbs(ScalarView::Int(v, b), steal_sign),
            DataType::Int(b),
            scale,
            steal_sign,
        ) == ScalarView::Int(v, b),
        limbs_scalar(
            scalar_limbs(ScalarView::ScalableInt(v, b), steal_sign),
            DataType::ScalableInt(b),
            scale,
            steal_sign,
        ) == ScalarView::ScalableInt(v, b),
{
    lemma_low_word_signed(v, b as nat);
}

/// The low word of an integer has the signed value of the integer.
proof fn lemma_low_word_signed(v: i64, b: nat)
    requires
        b <= 64,
        int_fits(v as int, b),
    ensures
        signed_value(((v as int) % 0x1_0000_0000_0000_0000) as u64 as nat, b) == v,
{
    bits::lemma_pow2_64();
    bits::lemma_mod_pow2_mod(v as int, b, 64);
    lemma_pow2_pos(b);
    lemma_mod_bound(v as int, pow2(b) as int);
    lemma_mod_twice(v as int, pow2(b) as int);
    lemma_mod_bound(v as int, 0x1_0000_0000_0000_0000);
    law_twos_complement(v as int, b);
    lemma_signed_value_low(
        ((v as int) % 0x1_0000_0000_0000_0000) as nat,
        ((v as int) % pow2(b) as int) as nat,
        b,
    );
}

/// A fixed-point number comes back from its limbs, under its scale.
pub proof fn law_fixed_point_round_trip(value: i64, scale: u32, steal_sign: bool)
    ensures
        limbs_scalar(
            scalar_limbs(ScalarView::FloatingInt { value, scale }, steal_sign),
            DataType::FloatingInt,
            Some(scale),
            steal_sign,
        ) == (ScalarView::FloatingInt { value, scale }),
{
    bits::lemma_pow2_64();
    lemma_low_word_signed(value, 64);
}

/// Decoding the limbs of an integer that fits gives the integer, whatever the
/// width.
pub proof fn law_int_limbs_decode(v: i64, b: nat)
    requires
        int_fits(v as int, b),
    ensures
        decoded_int(limbs_of(((v as int) % pow2(b) as int) as nat, limb_count(b)), b) == v,
{
    let n = ((v as int) % pow2(b) as int) as nat;
    let k = limb_count(b);
    let s = limbs_of(n, k);
    lemma_pow2_pos(b);
    lemma_mod_bound(v as int, pow2(b) as int);
    crate::limbs::lemma_limbs_of(n, k);
    bits::lemma_pow2_le(b, 64 * k);
    lemma_small_mod(n, pow2(64 * k));
    assert(limbs_nat(s) == n);
    bits::lemma_pow2_64();
    lemma2_to64();
    assert(n / 1 == n);
    assert(s[0] as nat == n % 0x1_0000_0000_0000_0000) by {
        assert(pow2((64 * 0) as nat) == 1);
    }
    law_twos_complement(v as int, b);
    lemma_small_mod(n, pow2(b));
    bits::lemma_limbs_bit(s, (b - 1) as nat);
    lemma_sign_bit(n, b);
    if k == 1 && b % 64 > 0 {
        assert(b < 64 && b % 64 == b);
        bits::lemma_pow2_le(b, 64);
        lemma_small_mod(n, 0x1_0000_0000_0000_0000);
        if limbs_negative(s, b) {
            // v < 0 and n == v + 2^b
            assert(v == n - pow2(b));
            lemma_pow2_unfold(b);
            let m = pow2(b) as int;
            lemma_mod_add_multiples_vanish(-n, m);
            lemma_small_mod((m - n) as nat, m as nat);
        } else {
            lemma_pow2_unfold(64);
            bits::lemma_pow2_le((b - 1) as nat, 63);
        }
    } else {
        assert(b >= 64);
        bits::lemma_mod_pow2_mod(v as int, 64, b);
        lemma_mod_twice(v as int, 0x1_0000_0000_0000_0000);
        if v < 0 {
            lemma_mod_add_multiples_vanish(v as int, 0x1_0000_0000_0000_0000);
            lemma_small_mod((v + 0x1_0000_0000_0000_0000) as nat, 0x1_0000_0000_0000_0000);
        } else {
            lemma_small_mod(v as nat, 0x1_0000_0000_0000_0000);
        }
    }
}

/// The sign bit of a number of `b` bits.
pub proof fn lemma_sign_bit(n: nat, b: nat)
    requires
        b >= 1,
        n < pow2(b),
    ensures
        nat_bit(n, (b - 1) as nat) == (n >= pow2((b - 1) as nat)),
{
    let h = pow2((b - 1) as nat);
    lemma_pow2_unfold(b);
    lemma_pow2_pos((b - 1) as nat);
    if n >= h {
        lemma_fundamental_div_mod_converse(n as int, h as int, 1, n - h);
    } else {
        lemma_fundamental_div_mod_converse(n as int, h as int, 0, n as int);
    }
}

/// A number of ones.
proof fn lemma_ones_bit(k: nat, j: nat)
    ensures
        nat_bit((pow2(k) - 1) as nat, j) == (j < k),
{
    lemma_pow2_pos(k);
    if j < k {
        let r = (k - j) as nat;
        lemma_pow2_adds(j, r);
        lemma_pow2_pos(j);
        lemma_pow2_unfold(r);
        let hi = (pow2(r) - 1) as nat;
        lemma_mul_is_distributive_sub(pow2(j) as int, pow2(r) as int, 1);
        bits::lemma_nat_bit_split((pow2(j) - 1) as nat, hi, j, j);
        lemma2_to64();
        lemma_pow2_pos((r - 1) as nat);
        assert(hi / 1 == hi);
        assert(hi % 2 == 1);
    } else {
        bits::lemma_pow2_le(k, j);
        bits::lemma_nat_bit_past((pow2(k) - 1) as nat, j);
    }
}

/// Repeating the sign of an integer up to more bits keeps its value.
pub proof fn law_extension_keeps_value(
    limbs: Seq<u64>,
    from_bits: nat,
    to_bits: nat,
    res: Seq<u64>,
)
    requires
        1 <= from_bits <= to_bits,
        limbs_nat(limbs) < pow2(from_bits),
        res.len() == limb_count(to_bits),
        forall|j: nat|
            #[trigger] limb_bit(res, j) == (j < to_bits && extended_bit(limbs, from_bits, j)),
    ensures
        signed_value(limbs_nat(res), to_bits) == signed_value(limbs_nat(limbs), from_bits),
{
    let n = limbs_nat(limbs);
    let neg = limbs_negative(limbs, from_bits);
    let d = (to_bits - from_bits) as nat;
    let hi: nat = if neg {
        (pow2(d) - 1) as nat
    } else {
        0
    };
    let c = n + pow2(from_bits) * hi;
    lemma_pow2_adds(from_bits, d);
    lemma_pow2_pos(from_bits);
    lemma_pow2_pos(d);
    lemma_mul_is_distributive_sub(pow2(from_bits) as int, pow2(d) as int, 1);
    lemma_mul_basics(pow2(from_bits) as int);
    bits::lemma_pow2_le(from_bits, to_bits);
    assert(c < pow2(to_bits));
    bits::lemma_limbs_bit(limbs, (from_bits - 1) as nat);
    lemma_sign_bit(n, from_bits);
    assert forall|j: nat| j < 64 * res.len() implies #[trigger] nat_bit(limbs_nat(res), j)
        == nat_bit(c, j) by {
        bits::lemma_limbs_bit(res, j);
        bits::lemma_limbs_bit(limbs, j);
        bits::lemma_nat_bit_split(n, hi, from_bits, j);
        assert(limb_bit(res, j) == (j < to_bits && extended_bit(limbs, from_bits, j)));
        if j >= from_bits {
            bits::lemma_pow2_le(from_bits, j);
            bits::lemma_nat_bit_past(n, j);
            if neg {
                lemma_ones_bit(d, (j - from_bits) as nat);
            } else {
                lemma_pow2_pos((j - from_bits) as nat);
                bits::lemma_nat_bit_past(0, (j - from_bits) as nat);
            }
        }
    }
    bits::lemma_limbs_bound(res);
    bits::lemma_pow2_le(to_bits, 64 * res.len());
    bits::lemma_nat_bits_eq(limbs_nat(res), c, 64 * res.len());
    lemma_small_mod(c, pow2(to_bits));
    lemma_small_mod(n, pow2(from_bits));
    lemma_pow2_unfold(to_bits);
    lemma_pow2_unfold(from_bits);
    if d > 0 {
        bits::lemma_pow2_le(from_bits, (to_bits - 1) as nat);
    } else {
        lemma2_to64();
    }
}

// ─── Floats ──────────────────────────────────────────────────────────────────

/// Without a sign bit the mantissa has one bit more.
pub proof fn law_stolen_sign_widens_mantissa(bits: nat, e: nat)
    requires
        float_layout(bits, e, false),
    ensures
        float_layout(bits, e, true),
        mantissa_width(bits, e, true) == mantissa_width(bits, e, false) + 1,
{
}

/// That a double is exact in a float format: zero; a normal number whose
/// exponent the format holds and whose fraction the mantissa holds; or infinity. A
/// sign is kept.
pub open spec fn float_exact(b: u64, bits: nat, e: nat, steal_sign: bool) -> bool {
    let m = mantissa_width(bits, e, steal_sign);
    ||| b == 0
    ||| {
        &&& 0 < f64_exp(b) < 2047
        &&& 0 < float_exponent(b) + exponent_bias(e) < pow2(e) - 1
        &&& m < 52 ==> f64_frac(b) % pow2((52 - m) as nat) == 0
        &&& steal_sign ==> !f64_sign(b)
    }
    ||| {
        &&& f64_is_infinite(b)
        &&& steal_sign ==> !f64_sign(b)
    }
}

/// A double is made of its sign, exponent and fraction.
proof fn lemma_pattern_of(b: u64)
    ensures
        b == f64_pattern(f64_sign(b), f64_exp(b) * 0x10_0000_0000_0000 + f64_frac(b)),
        f64_exp(b) < 2048,
        f64_frac(b) < 0x10_0000_0000_0000,
{
    let n = b as nat;
    let q = n / 0x10_0000_0000_0000;
    assert(q < 4096);
    assert(q / 2048 == 0 || q / 2048 == 1);
    assert(n == q * 0x10_0000_0000_0000 + n % 0x10_0000_0000_0000);
}

/// Rounding what is a multiple rounds nothing.
proof fn lemma_round_multiple(q: nat, k: nat)
    ensures
        round_half_up(q * pow2(k), k) == q,
        round_even(q * pow2(k), k) == q,
{
    lemma_pow2_pos(k);
    lemma_fundamental_div_mod_converse((q * pow2(k)) as int, pow2(k) as int, q as int, 0);
}

/// The mantissa of an exact fraction gives the fraction back.
proof fn lemma_mantissa_exact(frac: nat, m: nat)
    requires
        frac < 0x10_0000_0000_0000,
        m < 52 ==> frac % pow2((52 - m) as nat) == 0,
    ensures
        mantissa_code(frac, m) < pow2(m),
        unit_fraction(mantissa_code(frac, m), m) == frac,
        leading_fraction(mantissa_code(frac, m), m) == frac,
{
    crate::types::float_codec::lemma_mantissa_code_bound(frac, m);
    lemma2_to64_rest();
    assert(pow2(52) == 0x10_0000_0000_0000);
    if m <= 52 {
        let k = (52 - m) as nat;
        let q = frac / pow2(k);
        lemma_pow2_pos(k);
        lemma_fundamental_div_mod(frac as int, pow2(k) as int);
        lemma_mul_is_commutative(q as int, pow2(k) as int);
        if m == 52 {
            lemma2_to64();
            assert(frac % 1 == 0);
        }
        assert(frac == q * pow2(k));
        lemma_round_multiple(q, k);
        lemma_pow2_adds(m, k);
        assert(q < pow2(m)) by {
            lemma_multiply_divide_lt(frac as int, pow2(k) as int, pow2(m) as int);
        }
        assert(mantissa_code(frac, m) == q);
    } else {
        let s = (m - 52) as nat;
        let n = frac * pow2(s);
        assert(mantissa_code(frac, m) == n);
        lemma_pow2_pos(s);
        lemma_nearest_exact(frac, s);
        lemma_round_multiple(frac, s);
        lemma_fundamental_div_mod_converse(n as int, pow2(s) as int, frac as int, 0);
    }
}

/// The mantissa of the fraction zero.
proof fn lemma_zero_mantissa(m: nat)
    ensures
        mantissa_code(0, m) == 0,
{
    lemma_pow2_pos(m);
    if m <= 52 {
        lemma_mul_basics(pow2((52 - m) as nat) as int);
        lemma_round_multiple(0, (52 - m) as nat);
    } else {
        lemma_mul_basics(pow2((m - 52) as nat) as int);
    }
}

/// A number of at most 53 significant bits is its own nearest one.
proof fn lemma_nearest_exact(frac: nat, s: nat)
    requires
        frac < 0x10_0000_0000_0000,
    ensures
        nearest_53(frac * pow2(s)) == frac * pow2(s),
{
    let n = frac * pow2(s);
    lemma_pow2_pos(s);
    if frac == 0 {
        assert(n == 0) by {
            lemma_mul_basics(pow2(s) as int);
        }
        assert(top_bit(0) == 0);
    } else {
        let t = top_bit(frac);
        soft_float::lemma_top_bit(frac);
        lemma2_to64_rest();
        assert(pow2(52) == 0x10_0000_0000_0000);
        if t >= 52 {
            bits::lemma_pow2_le(52, t);
        }
        lemma_pow2_adds(t, s);
        lemma_pow2_adds(t + 1, s);
        lemma_mul_inequality(pow2(t) as int, frac as int, pow2(s) as int);
        lemma_mul_strict_inequality(frac as int, pow2(t + 1) as int, pow2(s) as int);
        soft_float::lemma_top_bit_unique(n, t + s);
        if t + s > 52 {
            let k = (t + s - 52) as nat;
            let r = (s - k) as nat;
            lemma_pow2_adds(r, k);
            lemma_mul_is_associative(frac as int, pow2(r) as int, pow2(k) as int);
            lemma_round_multiple(frac * pow2(r), k);
        }
    }
}

/// The fields of a float code.
proof fn lemma_code_fields(mant: nat, x: nat, s: nat, m: nat, e: nat)
    requires
        mant < pow2(m),
        x < pow2(e),
        s <= 1,
    ensures
        ({
            let code = s * pow2(m + e) + x * pow2(m) + mant;
            &&& code % pow2(m) == mant
            &&& (code / pow2(m)) % pow2(e) == x
            &&& nat_bit(code, m + e) == (s == 1)
        }),
{
    let code = s * pow2(m + e) + x * pow2(m) + mant;
    let q = x + pow2(e) * s;
    lemma_pow2_adds(m, e);
    lemma_pow2_pos(m);
    lemma_pow2_pos(e);
    lemma_mul_is_distributive_add(pow2(m) as int, x as int, (pow2(e) * s) as int);
    lemma_mul_is_associative(pow2(m) as int, pow2(e) as int, s as int);
    lemma_mul_is_commutative(s as int, pow2(m + e) as int);
    lemma_mul_is_commutative(x as int, pow2(m) as int);
    assert(code == mant + pow2(m) * q);
    bits::lemma_div_multiples_vanish_fancy_sum(mant, q, pow2(m));
    lemma_small_mod(mant, pow2(m));
    lemma_basic_div(mant as int, pow2(m) as int);
    bits::lemma_div_multiples_vanish_fancy_sum(x, s, pow2(e));
    lemma_small_mod(x, pow2(e));
    bits::lemma_nat_bit_split(mant, q, m, m + e);
    bits::lemma_nat_bit_split(x, s, e, e);
    lemma2_to64();
    assert(s / 1 == s);
}

/// A double that is exact in a float format of up to 64 bits comes back from
/// its code.
pub proof fn law_float_round_trip(b: u64, bits: nat, e: nat, steal_sign: bool)
    requires
        float_layout(bits, e, steal_sign),
        float_exact(b, bits, e, steal_sign),
    ensures
        float_value(float_code(b, bits, e, steal_sign), bits, e, steal_sign) == b,
        float_value_wide(float_code(b, bits, e, steal_sign), bits, e, steal_sign) == b,
        float_code(b, bits, e, steal_sign) < pow2(bits),
{
    let m = mantissa_width(bits, e, steal_sign);
    let frac = f64_frac(b);
    let code = float_code(b, bits, e, steal_sign);
    lemma_pow2_pos(bits);
    lemma_pow2_pos(m);
    if b != 0 {
        let infinite = f64_is_infinite(b);
        let x = if infinite && e <= 11 {
            (pow2(e) - 1) as nat
        } else {
            (float_exponent(b) + exponent_bias(e)) as nat
        };
        let mant = if infinite {
            0
        } else {
            mantissa_code(frac, m)
        };
        let s: nat = if f64_sign(b) {
            1
        } else {
            0
        };
        lemma_pattern_of(b);
        lemma_pow2_unfold(e);
        lemma2_to64();
        if infinite {
            lemma_pow2_pos((e - 1) as nat);
            lemma_pow2_pos((52 - m) as nat);
            lemma_small_mod(0, pow2((52 - m) as nat));
            lemma_mantissa_exact(0, m);
            lemma_zero_mantissa(m);
            if e <= 11 {
                bits::lemma_pow2_le((e - 1) as nat, 10);
                assert(float_exponent(b) + exponent_bias(e) >= pow2(e) - 1);
            } else {
                bits::lemma_pow2_le(11, (e - 1) as nat);
            }
        } else {
            lemma_mantissa_exact(frac, m);
        }
        lemma_code_fields(mant, x, s, m, e);
        lemma_mul_basics(pow2(m + e) as int);
        assert(f64_is_negative(b) == f64_sign(b));
        assert(float_fraction(b) == frac);
        assert(code == s * pow2(m + e) + x * pow2(m) + mant);
        lemma_mul_inequality(1, x as int, pow2(m) as int);
        assert(code > 0);
        assert(code_negative(code, bits, steal_sign) == f64_sign(b));
        // The code takes no more than its bits.
        lemma_mul_inequality(x as int, pow2(e) - 1, pow2(m) as int);
        lemma_mul_is_distributive_sub_other_way(pow2(m) as int, pow2(e) as int, 1);
        lemma_pow2_adds(m, e);
        lemma_mul_is_commutative(pow2(m) as int, pow2(e) as int);
        lemma_pow2_unfold(m + e + 1);
    }
}

/// Between the mantissas of `m` bits, none is nearer to a fraction than the one it is
/// coded as.
proof fn lemma_mantissa_nearest(frac: nat, m: nat, k: nat)
    requires
        m <= 52,
        frac < 0x10_0000_0000_0000,
        k < pow2(m),
    ensures
        ({
            let p = pow2((52 - m) as nat);
            apart(mantissa_code(frac, m) * p as int, frac as int) <= apart(
                k * p as int,
                frac as int,
            )
        }),
{
    let d = (52 - m) as nat;
    let p = pow2(d) as int;
    let r = round_half_up(frac, d) as int;
    lemma_pow2_pos(d);
    lemma_pow2_adds(m, d);
    lemma2_to64_rest();
    soft_float::laws::law_rounding_is_nearest(frac, d, k as int);
    if r > pow2(m) - 1 {
        let top = pow2(m) - 1;
        lemma_mul_inequality(k as int, top, p);
        lemma_fundamental_div_mod(frac as int, p);
        lemma_mod_bound(frac as int, p);
        let q = frac as int / p;
        lemma_mul_is_commutative(q, p);
        if q < top {
            lemma_mul_inequality(q + 1, top, p);
        }
        assert(q >= top);
        lemma_mul_inequality(top, q, p);
    }
}

/// A double in the range of a float format is coded as the nearest that the format has
/// with its exponent: what comes back has its sign and its exponent, and no mantissa
/// of the format is nearer to its fraction. Below the range zero comes back, and above
/// it an infinite number.
pub proof fn law_coded_float_is_nearest(b: u64, bits: nat, e: nat, steal_sign: bool, k: nat)
    requires
        float_layout(bits, e, steal_sign),
        2 <= e <= 11,
        mantissa_width(bits, e, steal_sign) <= 52,
        0 < f64_exp(b) < 2047,
        steal_sign ==> !f64_sign(b),
        k < pow2(mantissa_width(bits, e, steal_sign)),
    ensures
        ({
            let v = float_value(float_code(b, bits, e, steal_sign), bits, e, steal_sign);
            let half = pow2((e - 1) as nat) as int;
            let x = f64_exp(b) - 1023;
            let unit = pow2((52 - mantissa_width(bits, e, steal_sign)) as nat);
            &&& 2 - half <= x < half ==> {
                &&& f64_sign(v) == f64_sign(b)
                &&& f64_exp(v) == f64_exp(b)
                &&& apart(f64_frac(v) as int, f64_frac(b) as int) <= apart(
                    k * unit as int,
                    f64_frac(b) as int,
                )
            }
            &&& x < 2 - half ==> v == 0
            &&& x >= half ==> f64_is_infinite(v) && f64_sign(v) == f64_sign(b)
        }),
{
    let m = mantissa_width(bits, e, steal_sign);
    let frac = f64_frac(b);
    let half = pow2((e - 1) as nat) as int;
    let raw = float_exponent(b) + exponent_bias(e);
    let code = float_code(b, bits, e, steal_sign);
    lemma_pow2_unfold(e);
    lemma_pow2_pos(m);
    lemma_pow2_pos((e - 1) as nat);
    lemma2_to64();
    lemma2_to64_rest();
    bits::lemma_pow2_le((e - 1) as nat, 10);
    lemma_pattern_of(b);
    assert(f64_is_negative(b) == f64_sign(b));
    assert(float_fraction(b) == frac);
    let s: nat = if f64_sign(b) {
        1
    } else {
        0
    };
    lemma_mul_basics(pow2(m + e) as int);
    if raw > 0 {
        let over = raw >= pow2(e) - 1;
        let x = if over {
            (pow2(e) - 1) as nat
        } else {
            raw as nat
        };
        let mant = if over {
            0
        } else {
            mantissa_code(frac, m)
        };
        crate::types::float_codec::lemma_mantissa_code_bound(frac, m);
        lemma_code_fields(mant, x, s, m, e);
        assert(code == s * pow2(m + e) + x * pow2(m) + mant);
        lemma_mul_inequality(1, x as int, pow2(m) as int);
        assert(code > 0);
        assert(code_negative(code, bits, steal_sign) == f64_sign(b));
        if !over {
            lemma_mantissa_nearest(frac, m, k);
            let d = (52 - m) as nat;
            let u = mant * pow2(d);
            lemma_pow2_adds(m, d);
            lemma_pow2_pos(d);
            lemma_mul_strict_inequality(mant as int, pow2(m) as int, pow2(d) as int);
            assert(u < 0x10_0000_0000_0000);
            lemma_fields_of(f64_sign(b), f64_exp(b), u);
        } else {
            lemma_fields_of(f64_sign(b), 2047, 0);
        }
    }
}

/// The fields of a pattern.
proof fn lemma_fields_of(negative: bool, e: nat, u: nat)
    requires
        e < 2048,
        u < 0x10_0000_0000_0000,
    ensures
        ({
            let b = f64_pattern(negative, e * 0x10_0000_0000_0000 + u);
            f64_sign(b) == negative && f64_exp(b) == e && f64_frac(b) == u
        }),
{
}

/// That a float format with `e` exponent bits codes a double by its own exponent. A
/// subnormal double is coded as zero where exponents have no more bits than in a
/// double, and by a lower exponent than its own where they have more.
pub open spec fn coded_in_place(b: u64, e: nat) -> bool {
    e <= 11 || f64_exp(b) > 0 || f64_frac(b) == 0
}

/// What comes back from the code of a double is exact in the format of the code.
pub proof fn law_coded_float_is_exact(b: u64, bits: nat, e: nat, steal_sign: bool)
    requires
        float_layout(bits, e, steal_sign),
        coded_in_place(b, e),
    ensures
        ({
            let code = float_code(b, bits, e, steal_sign);
            &&& code < pow2(bits)
            &&& float_exact(float_value(code, bits, e, steal_sign), bits, e, steal_sign)
            &&& float_exact(float_value_wide(code, bits, e, steal_sign), bits, e, steal_sign)
        }),
{
    let m = mantissa_width(bits, e, steal_sign);
    let frac = float_fraction(b);
    let raw = float_exponent(b) + exponent_bias(e);
    let code = float_code(b, bits, e, steal_sign);
    lemma_float_code_bound(b, bits, e, steal_sign);
    crate::types::float_codec::lemma_float_fraction_bound(b);
    crate::types::float_codec::lemma_mantissa_code_bound(frac, m);
    lemma_pow2_pos(m);
    lemma_pow2_pos((e - 1) as nat);
    lemma_pow2_unfold(e);
    lemma2_to64();
    lemma2_to64_rest();
    lemma_pattern_of(b);
    if e <= 11 {
        bits::lemma_pow2_le((e - 1) as nat, 10);
    }
    if !f64_is_zero(b) && raw > 0 {
        let over = raw >= pow2(e) - 1;
        let x = if over {
            (pow2(e) - 1) as nat
        } else {
            raw as nat
        };
        let mant = if over {
            0
        } else {
            mantissa_code(frac, m)
        };
        let negative = !steal_sign && f64_is_negative(b);
        let s: nat = if negative {
            1
        } else {
            0
        };
        lemma_code_fields(mant, x, s, m, e);
        lemma_mul_basics(pow2(m + e) as int);
        assert(code == s * pow2(m + e) + x * pow2(m) + mant);
        lemma_mul_inequality(1, x as int, pow2(m) as int);
        assert(code > 0);
        assert(code_negative(code, bits, steal_sign) == negative);
        assert(f64_exp(b) > 0);
        lemma_pattern_fields(negative, 2047, 0);
        let value = float_value(code, bits, e, steal_sign);
        let wide = float_value_wide(code, bits, e, steal_sign);
        if over || f64_exp(b) == 2047 {
            assert(value == f64_pattern(negative, 0x7ff0_0000_0000_0000));
            assert(wide == f64_pattern(negative, 0x7ff0_0000_0000_0000));
        } else {
            let u = unit_fraction(mant, m);
            if m <= 52 {
                let k = (52 - m) as nat;
                lemma_pow2_adds(m, k);
                lemma_pow2_pos(k);
                assert(mant * pow2(k) < pow2(m) * pow2(k)) by (nonlinear_arith)
                    requires
                        mant < pow2(m),
                        pow2(k) > 0,
                ;
                lemma_mod_multiples_basic(mant as int, pow2(k) as int);
            } else {
                lemma_mantissa_exact(frac, m);
            }
            lemma_pattern_fields(negative, f64_exp(b), u);
            assert(value == f64_pattern(
                negative,
                (f64_exp(b) * 0x10_0000_0000_0000 + u) as nat,
            ));
            assert(wide == value);
        }
    }
}

/// A float code takes no more than its bits.
proof fn lemma_float_code_bound(b: u64, bits: nat, e: nat, steal_sign: bool)
    requires
        float_layout(bits, e, steal_sign),
    ensures
        float_code(b, bits, e, steal_sign) < pow2(bits),
{
    let m = mantissa_width(bits, e, steal_sign);
    let raw = float_exponent(b) + exponent_bias(e);
    crate::types::float_codec::lemma_float_fraction_bound(b);
    crate::types::float_codec::lemma_mantissa_code_bound(float_fraction(b), m);
    lemma_pow2_pos(bits);
    lemma_pow2_pos(m);
    lemma_pow2_pos(e);
    let x = if raw >= pow2(e) - 1 {
        (pow2(e) - 1) as nat
    } else if raw <= 0 {
        0
    } else {
        raw as nat
    };
    lemma_mul_inequality(x as int, pow2(e) - 1, pow2(m) as int);
    lemma_mul_is_distributive_sub_other_way(pow2(m) as int, pow2(e) as int, 1);
    lemma_pow2_adds(m, e);
    lemma_mul_is_commutative(pow2(m) as int, pow2(e) as int);
    lemma_pow2_unfold(m + e + 1);
}

/// A double written in 64 bits with its sign is its own code, unless it is
/// zero, subnormal, infinite or not a number.
pub proof fn law_float64_is_identity(b: u64)
    requires
        0 < f64_exp(b) < 2047,
    ensures
        float_code(b, 64, 11, false) == b as nat,
{
    lemma2_to64_rest();
    lemma_pattern_of(b);
    assert(pow2(52) == 0x10_0000_0000_0000);
    bits::lemma_pow2_64();
    lemma2_to64();
    assert(pow2(10) == 1024 && pow2(11) == 2048);
    soft_float::lemma_round_even_zero(f64_frac(b));
    lemma_mul_is_commutative(
        float_exponent(b) + exponent_bias(11),
        0x10_0000_0000_0000,
    );
    assert(f64_is_negative(b) == f64_sign(b));
}

/// A single written in 32 bits with its sign is its own code, unless it is zero,
/// subnormal, infinite or not a number.
pub proof fn law_float32_is_single(x: u32)
    requires
        0 < f32_exp(x) < 255,
    ensures
        float_code(f64_of_f32(x), 32, standard_exponent_width(32) as nat, false) == x as nat,
{
    let e = f32_exp(x);
    let m = f32_frac(x);
    let negative = x >= 0x8000_0000;
    lemma2_to64();
    lemma2_to64_rest();
    lemma_fields_of(negative, e + 896, m * 0x2000_0000);
    let b = f64_of_f32(x);
    assert(f64_exp(b) == e + 896 && f64_frac(b) == m * 0x2000_0000 && f64_sign(b) == negative);
    assert(pow2(29) == 0x2000_0000);
    lemma_round_multiple(m, 29);
    assert(mantissa_code(m * 0x2000_0000, 23) == m);
    assert(float_exponent(b) + exponent_bias(8) == e);
    assert(x as nat == (if negative {
        0x8000_0000nat
    } else {
        0
    }) + e * 0x80_0000 + m);
}

/// A code of 16 bits with its sign is a half: a sign, five bits of exponent with a bias
/// of fifteen, and ten bits of fraction.
pub proof fn law_float16_is_half(h: u16)
    requires
        0 < (h as nat / 0x400) % 32 < 31,
    ensures
        ({
            let v = float_value(h as nat, 16, standard_exponent_width(16) as nat, false);
            &&& f64_sign(v) == (h >= 0x8000)
            &&& f64_exp(v) - 1023 == (h as nat / 0x400) % 32 - 15
            &&& f64_frac(v) == (h as nat % 0x400) * 0x400_0000_0000
        }),
{
    let n = h as nat;
    let e = (n / 0x400) % 32;
    let m = n % 0x400;
    lemma2_to64();
    lemma2_to64_rest();
    assert(pow2(15) == 0x8000 && pow2(10) == 0x400 && pow2(5) == 32 && pow2(4) == 16);
    assert(pow2(42) == 0x400_0000_0000);
    assert(nat_bit(n, 15) == (n >= 0x8000));
    lemma_fields_of(h >= 0x8000, (e + 1008) as nat, m * 0x400_0000_0000);
}

// ─── Packed arrays ───────────────────────────────────────────────────────────

/// Limbs cut to a width.
pub open spec fn trimmed(s: Seq<u64>, w: nat) -> Seq<u64> {
    Seq::new(s.len(), |l: int| trimmed_word(s[l], w, l as nat))
}

/// An element read back from a packed list is what its limbs, cut to the width
/// of the type, stand for.
pub proof fn law_packed_element<F: Fn(FloatOp, u64, u64) -> u64>(
    f: F,
    vals: Seq<u64>,
    d: DataType,
    scale: Option<u32>,
    steal_sign: bool,
    wide: bool,
    i: nat,
)
    requires
        codable(d, steal_sign),
        i < vals.len(),
    ensures
        element_scalar(
            packed_values(f, vals, d, scale, steal_sign, wide),
            i,
            d,
            scale,
            steal_sign,
        ) == limbs_scalar(
            trimmed(
                value_limbs(f, vals[i as int], d, scale, steal_sign, wide),
                dtype_width(d) as nat,
            ),
            d,
            scale,
            steal_sign,
        ),
{
    let w = dtype_width(d) as nat;
    let k = limb_count(w);
    let words = encoded_values(f, vals, d, scale, steal_sign, wide);
    let data = packed_values(f, vals, d, scale, steal_sign, wide);
    let limbs = value_limbs(f, vals[i as int], d, scale, steal_sign, wide);
    crate::elements::lemma_codable_width(d, steal_sign);
    crate::elements::lemma_encoded_element(f, vals, d, scale, steal_sign, wide, i as int);
    crate::elements::lemma_value_limbs_len(f, vals[i as int], d, scale, steal_sign, wide);
    lemma_div_by_multiple(vals.len() as int, k as int);
    assert(element_count(words.len(), w) == vals.len());
    let back = Seq::new(k, |l: int| unpacked_word(data, w, (i * k + l) as nat));
    lemma_mul_is_distributive_add_other_way(k as int, i as int, 1);
    lemma_mul_inequality(i as int + 1, vals.len() as int, k as int);
    assert forall|l: int| 0 <= l < k implies back[l] == #[trigger] trimmed(limbs, w)[l] by {
        let j = (i * k + l) as nat;
        hardware::law_unpack_packed(words, w, j);
        lemma_fundamental_div_mod_converse(j as int, k as int, i as int, l);
        assert(words[j as int] == words.subrange(i as int * k, (i as int + 1) * k)[l]);
        lemma_small_mod(l as nat, k);
    }
    assert(back =~= trimmed(limbs, w));
}

/// Cutting the limbs of a code to its width changes nothing.
proof fn lemma_trimmed_code(code: nat, w: nat)
    requires
        w > 0,
        code < pow2(w),
    ensures
        trimmed(limbs_of(code, limb_count(w)), w) == limbs_of(code, limb_count(w)),
        limbs_nat(limbs_of(code, limb_count(w))) == code,
{
    let k = limb_count(w);
    let s = limbs_of(code, k);
    crate::limbs::lemma_limbs_of(code, k);
    bits::lemma_pow2_le(w, 64 * k);
    lemma_small_mod(code, pow2(64 * k));
    bits::lemma_pow2_64();
    assert forall|l: int| 0 <= l < k implies trimmed(s, w)[l] == s[l] by {
        lemma_small_mod(l as nat, k);
        if 64 * l + 64 > w {
            let lo = (64 * l) as nat;
            let hi = (w - lo) as nat;
            lemma_pow2_adds(lo, hi);
            lemma_pow2_pos(lo);
            lemma_pow2_pos(hi);
            assert(code / pow2(lo) < pow2(hi)) by {
                lemma_multiply_divide_lt(code as int, pow2(lo) as int, pow2(hi) as int);
            }
            bits::lemma_pow2_le(hi, 64);
            lemma_small_mod(code / pow2(lo), 0x1_0000_0000_0000_0000);
            lemma_small_mod(code / pow2(lo), pow2(hi));
        }
    }
    assert(trimmed(s, w) =~= s);
}

/// An array of doubles that are exact in its float type comes back unchanged
/// from its packed form.
pub proof fn law_float_array_round_trip<F: Fn(FloatOp, u64, u64) -> u64>(
    f: F,
    vals: Seq<u64>,
    d: DataType,
    scale: Option<u32>,
    steal_sign: bool,
    wide: bool,
)
    requires
        codable(d, steal_sign),
        d is Float || d is DynamicFloat || d is ScalableFloat,
        forall|i: int|
            0 <= i < vals.len() ==> float_exact(
                #[trigger] vals[i],
                dtype_width(d) as nat,
                type_exponent_width(d) as nat,
                steal_sign,
            ),
    ensures
        decoded_values(
            f,
            packed_values(f, vals, d, scale, steal_sign, wide),
            vals.len(),
            d,
            scale,
            steal_sign,
        ) == vals,
{
    let w = dtype_width(d) as nat;
    let e = type_exponent_width(d) as nat;
    let data = packed_values(f, vals, d, scale, steal_sign, wide);
    let back = decoded_values(f, data, vals.len(), d, scale, steal_sign);
    assert forall|i: int| 0 <= i < vals.len() implies back[i] == #[trigger] vals[i] by {
        let v = vals[i];
        law_packed_element(f, vals, d, scale, steal_sign, wide, i as nat);
        lemma_coded_float(f, v, d, scale, steal_sign, wide);
        law_float_round_trip(v, w, e, steal_sign);
    }
    assert(back =~= vals);
}

/// The exponent width of a float type.
pub open spec fn type_exponent_width(d: DataType) -> u32 {
    match d {
        DataType::Float(b) => standard_exponent_width(b),
        DataType::ScalableFloat(_, e) => e,
        _ => 11,
    }
}

/// An array of integers that fit its type of up to 64 bits comes back from its
/// packed form.
pub proof fn law_int_array_round_trip<F: Fn(FloatOp, u64, u64) -> u64>(
    f: F,
    vals: Seq<u64>,
    b: u32,
    scale: Option<u32>,
    steal_sign: bool,
    wide: bool,
    i: nat,
)
    requires
        1 <= b <= 64,
        i < vals.len(),
        int_fits(f64_rounded(vals[i as int]), b as nat),
    ensures
        element_scalar(
            packed_values(f, vals, DataType::Int(b), scale, steal_sign, wide),
            i,
            DataType::Int(b),
            scale,
            steal_sign,
        ) == ScalarView::Int(f64_rounded(vals[i as int]) as i64, b),
        element_scalar(
            packed_values(f, vals, DataType::ScalableInt(b), scale, steal_sign, wide),
            i,
            DataType::ScalableInt(b),
            scale,
            steal_sign,
        ) == ScalarView::ScalableInt(f64_rounded(vals[i as int]) as i64, b),
{
    let w = b as nat;
    law_packed_element(f, vals, DataType::Int(b), scale, steal_sign, wide, i);
    law_packed_element(f, vals, DataType::ScalableInt(b), scale, steal_sign, wide, i);
    let r = f64_rounded(vals[i as int]);
    bits::lemma_pow2_64();
    bits::lemma_pow2_le((w - 1) as nat, 63);
    let v = r as i64;
    assert(v == r);
    let limbs = int_limbs(v, b);
    let x = limbs[0];
    lemma_low_word_signed(v, w);
    lemma_pow2_pos(w);
    assert(limb_count(w) == 1);
    let y = trimmed(limbs, w)[0];
    assert(signed_value(y as nat, w) == v) by {
        if w < 64 {
            lemma_mod_bound(x as int, pow2(w) as int);
            bits::lemma_pow2_le(w, 64);
            lemma_mod_twice(x as int, pow2(w) as int);
            lemma_signed_value_low(y as nat, x as nat, w);
        }
    }
}

/// An array of integers of more than 64 bits keeps the whole integer part of
/// every double.
pub proof fn law_wide_int_array_round_trip<F: Fn(FloatOp, u64, u64) -> u64>(
    f: F,
    vals: Seq<u64>,
    b: u32,
    scale: Option<u32>,
    steal_sign: bool,
    i: nat,
)
    requires
        64 < b <= u32::MAX - 63,
        i < vals.len(),
    ensures
        ({
            let limbs = integer_limbs(vals[i as int], b);
            &&& element_scalar(
                packed_values(f, vals, DataType::Int(b), scale, steal_sign, true),
                i,
                DataType::Int(b),
                scale,
                steal_sign,
            ) == ScalarView::IntLimbs(limbs, b)
            &&& element_scalar(
                packed_values(f, vals, DataType::ScalableInt(b), scale, steal_sign, true),
                i,
                DataType::ScalableInt(b),
                scale,
                steal_sign,
            ) == ScalarView::ScalableIntLimbs(limbs, b)
            &&& int_fits(f64_integer(vals[i as int]), b as nat) ==> signed_value(
                limbs_nat(limbs),
                b as nat,
            ) == f64_integer(vals[i as int])
        }),
{
    let w = b as nat;
    let v = f64_integer(vals[i as int]);
    law_packed_element(f, vals, DataType::Int(b), scale, steal_sign, true, i);
    law_packed_element(f, vals, DataType::ScalableInt(b), scale, steal_sign, true, i);
    lemma_pow2_pos(w);
    lemma_mod_bound(v, pow2(w) as int);
    lemma_trimmed_code((v % pow2(w) as int) as nat, w);
    if int_fits(v, w) {
        law_twos_complement(v, w);
    }
}

// ─── Values that a type holds ────────────────────────────────────────────────

/// The double that a type makes of a value: that of the value's code.
pub open spec fn coded_value<F: Fn(FloatOp, u64, u64) -> u64>(
    f: F,
    v: u64,
    d: DataType,
    scale: Option<u32>,
    steal_sign: bool,
    wide: bool,
) -> u64 {
    scalar_double(
        f,
        limbs_scalar(
            trimmed(value_limbs(f, v, d, scale, steal_sign, wide), dtype_width(d) as nat),
            d,
            scale,
            steal_sign,
        ),
    )
}

/// That a type holds a value: it comes back from its code.
pub open spec fn held<F: Fn(FloatOp, u64, u64) -> u64>(
    f: F,
    v: u64,
    d: DataType,
    scale: Option<u32>,
    steal_sign: bool,
    wide: bool,
) -> bool {
    coded_value(f, v, d, scale, steal_sign, wide) == v
}

/// An element of an array is what its type makes of the value that was packed.
pub proof fn law_array_holds_codes<F: Fn(FloatOp, u64, u64) -> u64>(
    f: F,
    vals: Seq<u64>,
    d: DataType,
    scale: Option<u32>,
    steal_sign: bool,
    wide: bool,
    i: nat,
)
    requires
        codable(d, steal_sign),
        i < vals.len(),
    ensures
        decoded_values(
            f,
            packed_values(f, vals, d, scale, steal_sign, wide),
            vals.len(),
            d,
            scale,
            steal_sign,
        )[i as int] == coded_value(f, vals[i as int], d, scale, steal_sign, wide),
{
    law_packed_element(f, vals, d, scale, steal_sign, wide, i);
}

/// A float type holds the doubles that are exact in it.
pub proof fn law_exact_float_is_held<F: Fn(FloatOp, u64, u64) -> u64>(
    f: F,
    v: u64,
    d: DataType,
    scale: Option<u32>,
    steal_sign: bool,
    wide: bool,
)
    requires
        codable(d, steal_sign),
        d is Float || d is DynamicFloat || d is ScalableFloat,
        float_exact(v, dtype_width(d) as nat, type_exponent_width(d) as nat, steal_sign),
    ensures
        held(f, v, d, scale, steal_sign, wide),
{
    let vals = seq![v];
    law_float_array_round_trip(f, vals, d, scale, steal_sign, wide);
    law_array_holds_codes(f, vals, d, scale, steal_sign, wide, 0);
}

/// An integer type of up to 64 bits holds the integers that fit it and are exact
/// as doubles.
pub proof fn law_exact_integer_is_held<F: Fn(FloatOp, u64, u64) -> u64>(
    f: F,
    n: int,
    b: u32,
    scale: Option<u32>,
    steal_sign: bool,
    wide: bool,
)
    requires
        1 <= b <= 64,
        int_fits(n, b as nat),
        exact_integer(n),
    ensures
        held(f, f64_of_int(n), DataType::Int(b), scale, steal_sign, wide),
        held(f, f64_of_int(n), DataType::ScalableInt(b), scale, steal_sign, wide),
{
    let v = f64_of_int(n);
    let vals = seq![v];
    bits::lemma_pow2_64();
    bits::lemma_pow2_le((b - 1) as nat, 63);
    law_int_array_round_trip(f, vals, b, scale, steal_sign, wide, 0);
    law_array_holds_codes(f, vals, DataType::Int(b), scale, steal_sign, wide, 0);
    law_array_holds_codes(f, vals, DataType::ScalableInt(b), scale, steal_sign, wide, 0);
    assert(n as i64 == n);
}

/// A fixed-point type holds a number whose double gives the number back.
pub proof fn law_fixed_point_is_held<F: Fn(FloatOp, u64, u64) -> u64>(
    f: F,
    value: i64,
    scale: Option<u32>,
    steal_sign: bool,
    wide: bool,
)
    requires
        nearest_fixed_point(
            f,
            fixed_point_double(f, value, scale_or_one(scale)),
            scale_or_one(scale),
        ) == (ScalarView::FloatingInt { value, scale: scale_or_one(scale) }),
    ensures
        held(
            f,
            fixed_point_double(f, value, scale_or_one(scale)),
            DataType::FloatingInt,
            scale,
            steal_sign,
            wide,
        ),
{
    let s = scale_or_one(scale);
    let v = fixed_point_double(f, value, s);
    let limbs = value_limbs(f, v, DataType::FloatingInt, scale, steal_sign, wide);
    law_fixed_point_round_trip(value, s, steal_sign);
    assert(trimmed(limbs, 64) =~= limbs);
}

/// What a float type makes of a value is that of the value's float code.
proof fn lemma_coded_float<F: Fn(FloatOp, u64, u64) -> u64>(
    f: F,
    v: u64,
    d: DataType,
    scale: Option<u32>,
    steal_sign: bool,
    wide: bool,
)
    requires
        codable(d, steal_sign),
        d is Float || d is DynamicFloat || d is ScalableFloat,
    ensures
        ({
            let w = dtype_width(d) as nat;
            let e = type_exponent_width(d) as nat;
            let code = float_code(v, w, e, steal_sign);
            &&& float_layout(w, e, steal_sign)
            &&& coded_value(f, v, d, scale, steal_sign, wide) == if w <= 64 {
                float_value(code, w, e, steal_sign)
            } else {
                float_value_wide(code, w, e, steal_sign)
            }
        }),
{
    let w = dtype_width(d) as nat;
    let e = type_exponent_width(d) as nat;
    crate::elements::lemma_codable_width(d, steal_sign);
    let code = float_code(v, w, e, steal_sign);
    let limbs = value_limbs(f, v, d, scale, steal_sign, wide);
    lemma_float_code_bound(v, w, e, steal_sign);
    lemma_trimmed_code(code, w);
    if w <= 64 {
        bits::lemma_pow2_le(w, 64);
        bits::lemma_pow2_64();
        lemma2_to64();
        assert(limb_count(w) == 1);
        assert(code / 1 == code);
        lemma_small_mod(code, 0x1_0000_0000_0000_0000);
        assert(limbs =~= seq![code as u64]);
        assert(limbs_of(code, 1) =~= limbs) by {
            assert(pow2((64 * 0int) as nat) == 1);
        }
    }
    assert(trimmed(limbs, w) == limbs);
}

/// What a float type with a sign bit makes of a value stays as it is when it is
/// coded anew without the sign bit, unless it is negative.
pub proof fn law_coded_without_sign<F: Fn(FloatOp, u64, u64) -> u64>(
    f: F,
    v: u64,
    d: DataType,
    scale: Option<u32>,
    wide: bool,
    again: bool,
)
    requires
        codable(d, false),
        d is Float || d is DynamicFloat || d is ScalableFloat,
        coded_in_place(v, type_exponent_width(d) as nat),
        f64_is_non_negative(coded_value(f, v, d, scale, false, wide)),
    ensures
        held(f, coded_value(f, v, d, scale, false, wide), d, scale, true, again),
{
    let w = dtype_width(d) as nat;
    let e = type_exponent_width(d) as nat;
    let x = coded_value(f, v, d, scale, false, wide);
    lemma_coded_float(f, v, d, scale, false, wide);
    law_coded_float_is_exact(v, w, e, false);
    lemma_pattern_of(x);
    law_exact_without_sign(x, w, e);
    law_exact_float_is_held(f, x, d, scale, true, again);
}

/// What is exact in a float format with a sign bit is exact without it, unless
/// it is negative.
pub proof fn law_exact_without_sign(b: u64, bits: nat, e: nat)
    requires
        float_layout(bits, e, false),
        float_exact(b, bits, e, false),
        !f64_sign(b),
    ensures
        float_exact(b, bits, e, true),
{
    let m = mantissa_width(bits, e, false);
    if m + 1 < 52 {
        let k = (52 - (m + 1)) as nat;
        bits::lemma_mod_pow2_mod(f64_frac(b) as int, k, k + 1);
        lemma_pow2_pos(k);
        lemma_small_mod(0, pow2(k));
    }
}

/// A code with an exponent that is neither the lowest nor the highest, and that
/// rounding does not take to the highest, stands for a double that is exact in
/// its format.
pub proof fn law_normal_code_is_exact(code: nat, bits: nat, e: nat, steal_sign: bool)
    requires
        float_layout(bits, e, steal_sign),
        e <= 11,
        0 < code_exponent(code, bits, e, steal_sign) < pow2(e) - if mantissa_width(
            bits,
            e,
            steal_sign,
        ) <= 52 {
            1int
        } else {
            2
        },
    ensures
        float_exact(float_value(code, bits, e, steal_sign), bits, e, steal_sign),
{
    let m = mantissa_width(bits, e, steal_sign);
    let x = code_exponent(code, bits, e, steal_sign);
    let mant = code_mantissa(code, bits, e, steal_sign);
    let negative = code_negative(code, bits, steal_sign);
    let u = unit_fraction(mant, m);
    let b = float_value(code, bits, e, steal_sign);
    lemma_pow2_pos(m);
    lemma_mod_bound(code as int, pow2(m) as int);
    lemma2_to64();
    lemma2_to64_rest();
    lemma_pow2_unfold(e);
    bits::lemma_pow2_le((e - 1) as nat, 10);
    lemma_pow2_pos((e - 1) as nat);
    if code == 0 {
        lemma_basic_div(0, pow2(m) as int);
        lemma_pow2_pos(e);
        lemma_small_mod(0, pow2(e));
    }
    if m <= 52 {
        let k = (52 - m) as nat;
        lemma_pow2_adds(m, k);
        lemma_pow2_pos(k);
        assert(mant * pow2(k) < pow2(m) * pow2(k)) by (nonlinear_arith)
            requires
                mant < pow2(m),
                pow2(k) > 0,
        ;
        lemma_mod_multiples_basic(mant as int, pow2(k) as int);
    } else {
        lemma_unit_fraction_bound(mant, m);
    }
    let (g, y) = if u == 0x10_0000_0000_0000 {
        (0nat, x - exponent_bias(e) + 1)
    } else {
        (u, x - exponent_bias(e))
    };
    assert(b == f64_pattern(negative, ((y + 1023) * 0x10_0000_0000_0000 + g) as nat));
    lemma_pattern_fields(negative, (y + 1023) as nat, g);
}

/// The fields of a double made of a sign, an exponent and a fraction.
proof fn lemma_pattern_fields(negative: bool, x: nat, frac: nat)
    requires
        x < 2048,
        frac < 0x10_0000_0000_0000,
    ensures
        ({
            let b = f64_pattern(negative, (x * 0x10_0000_0000_0000 + frac) as nat);
            f64_exp(b) == x && f64_frac(b) == frac && f64_sign(b) == negative
        }),
{
}

/// A mantissa as a fraction is one at most.
proof fn lemma_unit_fraction_bound(mant: nat, m: nat)
    requires
        m > 52,
        mant < pow2(m),
    ensures
        unit_fraction(mant, m) <= 0x10_0000_0000_0000,
{
    let n = nearest_53(mant);
    let k = (m - 52) as nat;
    lemma2_to64_rest();
    assert(n <= pow2(m)) by {
        let p = top_bit(mant);
        if p > 52 {
            lemma_pow2_pos(53);
            assert(mant > 0);
            soft_float::lemma_top_bit(mant);
            if p >= m {
                bits::lemma_pow2_le(m, p);
            }
            let j = (p - 52) as nat;
            soft_float::lemma_round_bound(mant, p + 1, j);
            lemma_pow2_adds(53, j);
            lemma_mul_inequality(round_even(mant, j) as int, pow2(53) as int, pow2(j) as int);
            bits::lemma_pow2_le(p + 1, m);
        }
    }
    lemma_pow2_adds(52, k);
    lemma_pow2_pos(k);
    if n == pow2(m) {
        lemma_mod_multiples_basic(pow2(52) as int, pow2(k) as int);
        lemma_div_by_multiple(pow2(52) as int, pow2(k) as int);
    } else {
        soft_float::lemma_round_bound(n, m, k);
    }
}

} // verus!
