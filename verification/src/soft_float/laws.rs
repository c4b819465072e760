//! What rounding and the conversions between doubles and singles are: the nearest
//! number, and the same number.

use crate::bits::lemma_pow2_le;
use crate::soft_float::{
    f32_magnitude, f32_of_f64, f64_exp, f64_floor_magnitude, f64_frac, f64_is_infinite, f64_is_nan,
    f64_of_f32, f64_of_int, f64_pattern, f64_round_magnitude, f64_rounded, f64_scaled, f64_sig,
    f64_sign, f64_significand, f64_weight, lemma_round_bound, lemma_round_lower, lemma_round_small,
    lemma_significand_range, lemma_top_bit, round_even, round_half_up, top_bit,
};
use vstd::arithmetic::div_mod::*;
use vstd::arithmetic::mul::*;
use vstd::arithmetic::power2::*;
use vstd::prelude::*;

verus! {

// ─── Rounding ────────────────────────────────────────────────────────────────

/// The distance of two numbers.
pub open spec fn apart(a: int, b: int) -> int {
    if a < b {
        b - a
    } else {
        a - b
    }
}

/// No multiple of `2^k` is nearer to a number than the one that it is rounded to; where
/// another is equally near, the one that was taken is even, or the greater one.
pub proof fn law_rounding_is_nearest(n: nat, k: nat, z: int)
    ensures
        ({
            let q = round_even(n, k) as int;
            let d = apart(q * pow2(k), n as int);
            &&& d <= apart(z * pow2(k), n as int)
            &&& z != q && d == apart(z * pow2(k), n as int) ==> q % 2 == 0
        }),
        ({
            let q = round_half_up(n, k) as int;
            let d = apart(q * pow2(k), n as int);
            &&& d <= apart(z * pow2(k), n as int)
            &&& z != q && d == apart(z * pow2(k), n as int) ==> q > z
        }),
{
    let p = pow2(k) as int;
    lemma_pow2_pos(k);
    lemma_fundamental_div_mod(n as int, p);
    lemma_mod_bound(n as int, p);
    let c = n as int / p;
    let r = n as int % p;
    lemma_mul_is_commutative(c, p);
    lemma_mul_is_distributive_add_other_way(p, c, 1);
    assert((c + 1) * p == c * p + p);
    if z <= c - 1 {
        lemma_mul_inequality(z, c - 1, p);
        lemma_mul_is_distributive_sub_other_way(p, c, 1);
    } else if z >= c + 2 {
        lemma_mul_inequality(c + 2, z, p);
        lemma_mul_is_distributive_add_other_way(p, c, 2);
    }
}

// ─── Singles ─────────────────────────────────────────────────────────────────

/// The exponent field of a single.
pub open spec fn f32_exp(x: u32) -> nat {
    (x as nat / 0x80_0000) % 256
}

/// The fraction field of a single.
pub open spec fn f32_frac(x: u32) -> nat {
    x as nat % 0x80_0000
}

/// That a single is a number, neither infinite nor not-a-number.
pub open spec fn f32_is_finite(x: u32) -> bool {
    f32_exp(x) != 255
}

/// The significand of a finite single.
pub open spec fn f32_sig(x: u32) -> nat {
    if f32_exp(x) == 0 {
        f32_frac(x)
    } else {
        f32_frac(x) + 0x80_0000
    }
}

/// The weight of the last bit of the significand, as a power of two.
pub open spec fn f32_weight(x: u32) -> int {
    if f32_exp(x) == 0 {
        -149
    } else {
        f32_exp(x) - 150
    }
}

/// The magnitude of a finite single, in units of the least double.
pub open spec fn f32_units(x: u32) -> nat {
    f32_sig(x) * pow2((f32_weight(x) + 1074) as nat)
}

/// The magnitude of a finite double, in units of the least double.
pub open spec fn f64_units(b: u64) -> nat {
    f64_sig(b) * pow2((f64_weight(b) + 1074) as nat)
}

pub open spec fn f64_is_finite(b: u64) -> bool {
    f64_exp(b) != 2047
}

proof fn lemma_pattern_fields(negative: bool, e: nat, m: nat)
    requires
        e < 2048,
        m < 0x10_0000_0000_0000,
    ensures
        ({
            let b = f64_pattern(negative, e * 0x10_0000_0000_0000 + m);
            f64_sign(b) == negative && f64_exp(b) == e && f64_frac(b) == m
        }),
{
}

proof fn lemma_shift(s: nat, a: nat, b: nat)
    ensures
        (s * pow2(a)) * pow2(b) == s * pow2(a + b),
{
    lemma_pow2_adds(a, b);
    lemma_mul_is_associative(s as int, pow2(a) as int, pow2(b) as int);
}

proof fn lemma_least_widened(m: nat)
    requires
        0 < m < 0x80_0000,
    ensures
        top_bit(m) < 23,
        0x10_0000_0000_0000 <= m * pow2((52 - top_bit(m)) as nat) < 0x20_0000_0000_0000,
{
    lemma_top_bit(m);
    lemma2_to64();
    lemma2_to64_rest();
    let p = top_bit(m);
    if p >= 23 {
        lemma_pow2_le(23, p);
    }
    let k = (52 - p) as nat;
    lemma_pow2_adds(p, k);
    lemma_pow2_adds(p + 1, k);
    lemma_pow2_pos(k);
    lemma_mul_inequality(pow2(p) as int, m as int, pow2(k) as int);
    lemma_mul_strict_inequality(m as int, pow2(p + 1) as int, pow2(k) as int);
}

/// A finite single is widened to the same number, with the same sign; an infinite one to
/// an infinite one, and not-a-number to not-a-number.
pub proof fn law_widening_keeps_value(x: u32)
    ensures
        f64_sign(f64_of_f32(x)) == (x >= 0x8000_0000),
        f32_is_finite(x) ==> f64_is_finite(f64_of_f32(x)) && f64_units(f64_of_f32(x)) == f32_units(
            x,
        ),
        f64_is_infinite(f64_of_f32(x)) == (f32_exp(x) == 255 && f32_frac(x) == 0),
        f64_is_nan(f64_of_f32(x)) == (f32_exp(x) == 255 && f32_frac(x) != 0),
{
    let negative = x >= 0x8000_0000;
    let e = f32_exp(x);
    let m = f32_frac(x);
    let b = f64_of_f32(x);
    if e == 255 && m != 0 {
        lemma_pattern_fields(
            negative,
            2047,
            (0x8_0000_0000_0000 + (m % 0x40_0000) * 0x2000_0000) as nat,
        );
    } else if e == 255 {
        lemma_pattern_fields(negative, 2047, 0);
    } else if e > 0 {
        lemma_pattern_fields(negative, e + 896, m * 0x2000_0000);
        lemma2_to64();
        let s = f32_sig(x);
        assert(f64_sig(b) == s * pow2(29));
        lemma_shift(s, 29, (e + 895) as nat);
    } else if m == 0 {
        lemma_pattern_fields(negative, 0, 0);
        assert(f64_sig(b) == 0 && f32_sig(x) == 0);
        lemma_mul_basics(pow2((f64_weight(b) + 1074) as nat) as int);
        lemma_mul_basics(pow2((f32_weight(x) + 1074) as nat) as int);
    } else {
        let p = top_bit(m);
        lemma_least_widened(m);
        let s = m * pow2((52 - p) as nat);
        lemma_pattern_fields(negative, p + 874, (s - 0x10_0000_0000_0000) as nat);
        assert(f64_sig(b) == s);
        lemma_shift(m, (52 - p) as nat, (p + 873) as nat);
    }
}

/// How many bits of the significand of a double are rounded away where it is narrowed:
/// as many as leave 24, or more where the last bit would lie below that of the least
/// single.
pub open spec fn dropped_bits(b: u64) -> nat {
    if f64_weight(b) + 29 >= -149 {
        29
    } else {
        (-149 - f64_weight(b)) as nat
    }
}

/// The significand that is left, at the weight of the last bit that is left.
pub open spec fn narrowed_sig(b: u64) -> nat {
    round_even(f64_sig(b), dropped_bits(b))
}

proof fn lemma_narrowed_sig(b: u64)
    requires
        f64_is_finite(b),
    ensures
        narrowed_sig(b) <= 0x100_0000,
        dropped_bits(b) > 29 ==> narrowed_sig(b) <= 0x80_0000,
        f64_weight(b) >= -178 ==> narrowed_sig(b) >= 0x80_0000,
{
    let s = f64_sig(b);
    let k = dropped_bits(b);
    lemma2_to64();
    lemma2_to64_rest();
    if k <= 53 {
        lemma_round_bound(s, 53, k);
        if k > 29 {
            lemma_pow2_le((53 - k) as nat, 23);
        }
    } else {
        lemma_pow2_le(54, k);
        if 2 * s < pow2(k) {
            lemma_round_small(s, k);
        }
    }
    if f64_weight(b) >= -178 {
        lemma_round_lower(s, 52, 29);
    }
}

proof fn lemma_single_fields(negative: bool, g: nat)
    requires
        g <= 0x7f80_0000,
    ensures
        ({
            let x = ((if negative {
                0x8000_0000nat
            } else {
                0
            }) + g) as u32;
            (x >= 0x8000_0000) == negative && f32_exp(x) == g / 0x80_0000 && f32_frac(x) == g
                % 0x80_0000
        }),
{
}

/// A finite double is narrowed to a single next to it: the sign stays, and the magnitude
/// is rounded to 24 bits, or to a multiple of the least single, the even one of two
/// equally near; where that is 2^128 or more, the single is infinite.
pub proof fn law_narrowing_rounds(b: u64)
    requires
        f64_is_finite(b),
    ensures
        ({
            let x = f32_of_f64(b);
            let unit = pow2((dropped_bits(b) + f64_weight(b) + 1074) as nat);
            &&& (x >= 0x8000_0000) == f64_sign(b)
            &&& f32_is_finite(x) == (narrowed_sig(b) * unit < pow2(1202))
            &&& f32_is_finite(x) ==> f32_units(x) == narrowed_sig(b) * unit
            &&& !f32_is_finite(x) ==> f32_frac(x) == 0
        }),
{
    let x = f32_of_f64(b);
    let w = f64_weight(b);
    let q = narrowed_sig(b);
    let k = dropped_bits(b);
    let v = (k + w + 1074) as nat;
    lemma_narrowed_sig(b);
    lemma2_to64();
    if w + 52 >= -126 {
        let m = ((w + 178) * 0x80_0000 + q) as nat;
        assert(f32_magnitude(f64_sig(b), w + 52) == if m >= 0x7f80_0000 {
            0x7f80_0000
        } else {
            m
        });
        let g = f32_magnitude(f64_sig(b), w + 52);
        lemma_single_fields(f64_sign(b), g);
        lemma_overflow(w, q, v);
        if m < 0x7f80_0000 {
            if q == 0x100_0000 {
                assert(g == (w + 180) * 0x80_0000);
                assert(f32_exp(x) == w + 180 && f32_frac(x) == 0);
                lemma_shift(0x80_0000, 1, v);
            } else {
                assert(f32_exp(x) == w + 179 && f32_frac(x) == q - 0x80_0000);
            }
        }
    } else {
        assert(k == -149 - w);
        let g = f32_magnitude(f64_sig(b), w + 52);
        assert(g == q);
        lemma_single_fields(f64_sign(b), g);
        assert(v == 925);
        lemma_pow2_adds(23, 925);
        lemma_mul_inequality(q as int, 0x80_0000, pow2(925) as int);
        lemma_pow2_strictly_increases(948, 1202);
        if q == 0x80_0000 {
            assert(f32_exp(x) == 1 && f32_frac(x) == 0);
        }
    }
}

/// Where a rounded magnitude is out of the range of singles.
proof fn lemma_overflow(w: int, q: nat, v: nat)
    requires
        v == w + 1103,
        -178 <= w,
        0x80_0000 <= q <= 0x100_0000,
    ensures
        (q * pow2(v) < pow2(1202)) == ((w + 178) * 0x80_0000 + q < 0x7f80_0000),
{
    lemma2_to64();
    lemma_pow2_pos(v);
    lemma_mul_inequality(0x80_0000, q as int, pow2(v) as int);
    lemma_mul_inequality(q as int, 0x100_0000, pow2(v) as int);
    lemma_pow2_adds(23, v);
    lemma_pow2_adds(24, v);
    if w >= 76 {
        lemma_pow2_le(1202, v + 23);
    } else if w <= 74 {
        lemma_pow2_strictly_increases(v + 24, 1202);
    } else {
        if q < 0x100_0000 {
            lemma_mul_strict_inequality(q as int, 0x100_0000, pow2(v) as int);
        }
    }
}

/// A finite single comes back where it is widened and narrowed again.
pub proof fn law_single_comes_back(x: u32)
    requires
        f32_exp(x) != 255 || f32_frac(x) == 0,
    ensures
        f32_of_f64(f64_of_f32(x)) == x,
{
    let negative = x >= 0x8000_0000;
    let e = f32_exp(x);
    let m = f32_frac(x);
    let b = f64_of_f32(x);
    if e == 255 {
        lemma_pattern_fields(negative, 2047, 0);
    } else if e > 0 {
        lemma_pattern_fields(negative, e + 896, m * 0x2000_0000);
        lemma2_to64();
        let s = f32_sig(x);
        assert(f64_sig(b) == s * pow2(29));
        lemma_round_exact(s, 29);
    } else if m == 0 {
        lemma_pattern_fields(negative, 0, 0);
        lemma_pow2_pos(925);
        lemma_round_small(0, 925);
    } else {
        let p = top_bit(m);
        lemma_least_widened(m);
        let s = m * pow2((52 - p) as nat);
        lemma_pattern_fields(negative, p + 874, (s - 0x10_0000_0000_0000) as nat);
        assert(f64_sig(b) == s);
        lemma_round_exact(m, (52 - p) as nat);
    }
}

/// A multiple of `2^k` is rounded to itself.
proof fn lemma_round_exact(s: nat, k: nat)
    ensures
        round_even(s * pow2(k), k) == s,
{
    lemma_pow2_pos(k);
    lemma_div_by_multiple(s as int, pow2(k) as int);
    lemma_mod_multiples_basic(s as int, pow2(k) as int);
}

// ─── Building doubles ────────────────────────────────────────────────────────

/// The double that is built of a significand and an exponent is that number, rounded to
/// a multiple of the least double where it lies below the normal ones, and infinite
/// where it is 2^1024 or more.
pub proof fn law_built_double_has_value(negative: bool, f: nat, x: int)
    requires
        f <= 0x10_0000_0000_0000,
    ensures
        ({
            let b = f64_scaled(negative, f, x);
            let s = 0x10_0000_0000_0000 + f;
            &&& f64_sign(b) == negative
            &&& -1022 <= x && (x < 1023 || (x == 1023 && f < 0x10_0000_0000_0000)) ==> {
                &&& f64_is_finite(b)
                &&& f64_units(b) == s * pow2((x + 1022) as nat)
            }
            &&& x > 1023 || (x == 1023 && f == 0x10_0000_0000_0000) ==> f64_is_infinite(b)
            &&& x < -1022 ==> f64_is_finite(b) && f64_units(b) == round_even(
                s as nat,
                (-1022 - x) as nat,
            )
        }),
{
    let b = f64_scaled(negative, f, x);
    let top = 0x10_0000_0000_0000nat;
    lemma2_to64();
    lemma2_to64_rest();
    if x > 1023 {
        lemma_pattern_fields(negative, 2047, 0);
    } else if x >= -1022 {
        if f == top {
            if x < 1023 {
                lemma_pattern_fields(negative, (x + 1024) as nat, 0);
                lemma_shift(top, 1, (x + 1022) as nat);
            } else {
                lemma_pattern_fields(negative, 2047, 0);
            }
        } else {
            lemma_pattern_fields(negative, (x + 1023) as nat, f);
        }
    } else {
        lemma_built_least(negative, f, x);
    }
}

/// The fields of a pattern at the lower end.
proof fn lemma_least_pattern(negative: bool, g: nat)
    requires
        g <= 0x10_0000_0000_0000,
    ensures
        f64_sign(f64_pattern(negative, g)) == negative,
        f64_is_finite(f64_pattern(negative, g)),
        f64_units(f64_pattern(negative, g)) == g,
{
    lemma2_to64();
    if g == 0x10_0000_0000_0000 {
        lemma_pattern_fields(negative, 1, 0);
    } else {
        lemma_pattern_fields(negative, 0, g);
    }
    let b = f64_pattern(negative, g);
    assert(f64_weight(b) == -1074 && f64_sig(b) == g);
    assert(pow2((f64_weight(b) + 1074) as nat) == 1);
}

proof fn lemma_built_least(negative: bool, f: nat, x: int)
    requires
        f <= 0x10_0000_0000_0000,
        x < -1022,
    ensures
        ({
            let b = f64_scaled(negative, f, x);
            let g = round_even((0x10_0000_0000_0000 + f) as nat, (-1022 - x) as nat);
            f64_sign(b) == negative && f64_is_finite(b) && f64_units(b) == g
        }),
{
    let top = 0x10_0000_0000_0000nat;
    let k = (-1022 - x) as nat;
    lemma2_to64();
    lemma2_to64_rest();
    if f == top {
        lemma_round_doubled(top, (k - 1) as nat);
        if k == 1 {
            crate::soft_float::lemma_round_even_zero(top);
        } else {
            lemma_round_low(top, (k - 1) as nat);
        }
        lemma_least_pattern(negative, round_even(top, (k - 1) as nat));
    } else {
        lemma_round_low(top + f, k);
        lemma_least_pattern(negative, round_even(top + f, k));
    }
}

/// Rounding twice a number by one bit more.
proof fn lemma_round_doubled(n: nat, k: nat)
    ensures
        round_even(2 * n, k + 1) == round_even(n, k),
{
    lemma_pow2_pos(k);
    lemma_pow2_unfold(k + 1);
    let p = pow2(k) as int;
    lemma_fundamental_div_mod(n as int, p);
    lemma_mod_bound(n as int, p);
    let q = n as int / p;
    let r = n as int % p;
    lemma_mul_is_associative(2, p, q);
    lemma_fundamental_div_mod_converse(2 * n as int, 2 * p, q, 2 * r);
}

/// Rounding a significand away by a bit or more leaves no more than the least normal one.
proof fn lemma_round_low(n: nat, k: nat)
    requires
        n < 0x20_0000_0000_0000,
        k >= 1,
    ensures
        round_even(n, k) <= 0x10_0000_0000_0000,
{
    lemma2_to64();
    lemma2_to64_rest();
    if k <= 53 {
        lemma_round_bound(n, 53, k);
        lemma_pow2_le((53 - k) as nat, 52);
    } else {
        lemma_pow2_le(54, k);
        lemma_round_small(n, k);
    }
}

/// The double of a whole number is that number, rounded to 53 bits, the even one of two
/// equally near.
pub proof fn law_integer_is_rounded(n: int)
    requires
        -0x1_0000_0000_0000_0000 < n < 0x1_0000_0000_0000_0000,
        n != 0,
    ensures
        ({
            let m = apart(n, 0) as nat;
            let k: nat = if top_bit(m) > 52 {
                (top_bit(m) - 52) as nat
            } else {
                0
            };
            let b = f64_of_int(n);
            &&& f64_sign(b) == (n < 0)
            &&& f64_is_finite(b)
            &&& f64_units(b) == round_even(m, k) * pow2(k + 1074)
        }),
{
    let m = apart(n, 0) as nat;
    let p = top_bit(m);
    lemma_significand_range(m);
    lemma_top_bit(m);
    lemma2_to64();
    crate::bits::lemma_pow2_64();
    if p >= 64 {
        lemma_pow2_le(64, p);
    }
    let s = f64_significand(m);
    law_built_double_has_value(n < 0, (s - 0x10_0000_0000_0000) as nat, p as int);
    if p <= 52 {
        crate::soft_float::lemma_round_even_zero(m);
        lemma_shift(m, (52 - p) as nat, (p + 1022) as nat);
    } else {
        assert(p + 1022 == (p - 52) + 1074);
    }
}

// ─── Whole numbers ───────────────────────────────────────────────────────────

proof fn lemma_apart_scaled(a: int, b: int, c: int)
    requires
        c > 0,
    ensures
        apart(a * c, b * c) == apart(a, b) * c,
{
    lemma_mul_is_distributive_sub_other_way(c, a, b);
    lemma_mul_is_distributive_sub_other_way(c, b, a);
    if a < b {
        lemma_mul_strict_inequality(a, b, c);
    } else {
        lemma_mul_inequality(b, a, c);
    }
}

/// A finite double is rounded to the whole number next to it, away from zero where two
/// are equally near, and with its sign, unless that is out of range; not-a-number counts
/// as zero.
pub proof fn law_rounded_is_nearest(b: u64, z: nat)
    ensures
        f64_is_nan(b) ==> f64_rounded(b) == 0,
        f64_rounded(b) > 0 ==> !f64_sign(b),
        f64_rounded(b) < 0 ==> f64_sign(b),
        f64_is_finite(b) && -0x8000_0000_0000_0000 < f64_rounded(b) < 0x7fff_ffff_ffff_ffff ==> ({
            let m = apart(f64_rounded(b), 0);
            let d = apart(m * pow2(1074), f64_units(b) as int);
            let other = apart(z * pow2(1074) as int, f64_units(b) as int);
            d <= other && (z != m && d == other ==> m > z)
        }),
{
    let w = f64_weight(b);
    let s = f64_sig(b);
    let m = f64_round_magnitude(b);
    if f64_is_finite(b) {
        lemma_pow2_pos(1074);
        if w >= 0 {
            lemma_shift(s, w as nat, 1074);
            if z != m {
                lemma_apart_scaled(z as int, m as int, pow2(1074) as int);
                lemma_mul_inequality(1, apart(z as int, m as int), pow2(1074) as int);
            }
        } else {
            let k = (-w) as nat;
            let c = (1074 - k) as nat;
            law_rounding_is_nearest(s, k, z as int);
            lemma_shift(m, k, c);
            lemma_shift(z, k, c);
            lemma_pow2_pos(c);
            let near = apart(m * pow2(k) as int, s as int);
            let far = apart(z * pow2(k) as int, s as int);
            lemma_apart_scaled(m * pow2(k) as int, s as int, pow2(c) as int);
            lemma_apart_scaled(z * pow2(k) as int, s as int, pow2(c) as int);
            lemma_mul_inequality(near, far, pow2(c) as int);
            if near < far {
                lemma_mul_strict_inequality(near, far, pow2(c) as int);
            }
        }
    }
}

/// The magnitude of a finite double, cut to a whole number, is its whole part: no more
/// than it, and more than it less one.
pub proof fn law_cut_is_whole_part(b: u64)
    requires
        f64_is_finite(b),
    ensures
        f64_floor_magnitude(b) * pow2(1074) <= f64_units(b) < (f64_floor_magnitude(b) + 1) * pow2(
            1074,
        ),
{
    let w = f64_weight(b);
    let s = f64_sig(b);
    let m = f64_floor_magnitude(b);
    lemma_pow2_pos(1074);
    lemma_mul_is_distributive_add_other_way(pow2(1074) as int, m as int, 1);
    if w >= 0 {
        lemma_shift(s, w as nat, 1074);
    } else {
        let k = (-w) as nat;
        let c = (1074 - k) as nat;
        lemma_pow2_pos(k);
        lemma_pow2_pos(c);
        lemma_fundamental_div_mod(s as int, pow2(k) as int);
        lemma_mod_bound(s as int, pow2(k) as int);
        lemma_mul_is_commutative(m as int, pow2(k) as int);
        lemma_mul_is_distributive_add_other_way(pow2(k) as int, m as int, 1);
        lemma_shift(m, k, c);
        lemma_shift(m + 1, k, c);
        lemma_mul_inequality((m * pow2(k)) as int, s as int, pow2(c) as int);
        lemma_mul_strict_inequality(s as int, ((m + 1) * pow2(k)) as int, pow2(c) as int);
    }
}

} // verus!
