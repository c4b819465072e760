//! Double-precision numbers as bit patterns.
//!
//! The library holds a double as the 64-bit pattern that IEEE 754 gives it and
//! reads, classifies, rounds and rescales it with integer arithmetic. What
//! needs the floating-point unit itself (sums, products, quotients, powers of
//! ten) is asked of the caller, through a function from an operation and two
//! patterns to a pattern.

pub mod laws;

use crate::bits::{lemma_pow2_64, lemma_pow2_le, lemma_u64_one_shl, lemma_u64_shr};
use vstd::arithmetic::div_mod::*;
use vstd::arithmetic::mul::*;
use vstd::arithmetic::power2::*;
use vstd::bits::*;
use vstd::prelude::*;

verus! {

/// The bit pattern of a double.
pub type F64Bits = u64;

/// The bit pattern of a single.
pub type F32Bits = u32;

pub const F64_ZERO: u64 = 0;

pub const F64_ONE: u64 = 0x3ff0_0000_0000_0000;

pub const F64_INFINITY: u64 = 0x7ff0_0000_0000_0000;

pub const F64_NEG_INFINITY: u64 = 0xfff0_0000_0000_0000;

// ─── The caller's floating-point unit ────────────────────────────────────────

/// What a floating-point unit is asked to do.
#[derive(Clone, Copy, Debug, PartialEq, Eq, Structural)]
pub enum FloatOp {
    /// The sum of two doubles.
    Add,
    /// The difference of two doubles.
    Sub,
    /// The product of two doubles.
    Mul,
    /// The quotient of two doubles.
    Div,
    /// Ten to the power of the integer given as first operand.
    Pow10,
}

/// `f` can be asked anything, and always answers the same question alike.
pub open spec fn is_float_unit<F: Fn(FloatOp, u64, u64) -> u64>(f: F) -> bool {
    &&& forall|op: FloatOp, a: u64, b: u64| #[trigger] f.requires((op, a, b))
    &&& forall|op: FloatOp, a: u64, b: u64, r: u64, s: u64| #[trigger]
        f.ensures((op, a, b), r) && #[trigger] f.ensures((op, a, b), s) ==> r == s
}

/// The answer of the floating-point unit `f`.
pub open spec fn float_answer<F: Fn(FloatOp, u64, u64) -> u64>(
    f: F,
    op: FloatOp,
    a: u64,
    b: u64,
) -> u64 {
    choose|r: u64| f.ensures((op, a, b), r)
}

/// Asks the floating-point unit.
pub fn ask<F: Fn(FloatOp, u64, u64) -> u64>(f: &F, op: FloatOp, a: u64, b: u64) -> (r: u64)
    requires
        is_float_unit(*f),
    ensures
        r == float_answer(*f, op, a, b),
{
    let r: u64 = f(op, a, b);
    r
}

// ─── Fields and classes ──────────────────────────────────────────────────────

pub open spec fn f64_sign(b: u64) -> bool {
    b >= 0x8000_0000_0000_0000
}

pub open spec fn f64_exp(b: u64) -> nat {
    (b as nat / 0x10_0000_0000_0000) % 2048
}

pub open spec fn f64_frac(b: u64) -> nat {
    b as nat % 0x10_0000_0000_0000
}

pub open spec fn f64_is_zero(b: u64) -> bool {
    f64_exp(b) == 0 && f64_frac(b) == 0
}

pub open spec fn f64_is_nan(b: u64) -> bool {
    f64_exp(b) == 2047 && f64_frac(b) != 0
}

pub open spec fn f64_is_infinite(b: u64) -> bool {
    f64_exp(b) == 2047 && f64_frac(b) == 0
}

/// The number compares as below zero.
pub open spec fn f64_is_negative(b: u64) -> bool {
    f64_sign(b) && !f64_is_zero(b) && !f64_is_nan(b)
}

/// The number compares as zero or above.
pub open spec fn f64_is_non_negative(b: u64) -> bool {
    !f64_is_nan(b) && (!f64_sign(b) || f64_is_zero(b))
}

/// The pattern with the given sign, and exponent and fraction fields given
/// together as one number below `2^63`.
pub open spec fn f64_pattern(negative: bool, magnitude: nat) -> u64 {
    if negative {
        (0x8000_0000_0000_0000 + magnitude) as u64
    } else {
        magnitude as u64
    }
}

pub fn sign_of(b: F64Bits) -> (r: bool)
    ensures
        r == f64_sign(b),
{
    b >= 0x8000_0000_0000_0000
}

pub fn exp_of(b: F64Bits) -> (r: u64)
    ensures
        r as nat == f64_exp(b),
        r < 2048,
{
    (b / 0x10_0000_0000_0000) % 2048
}

pub fn frac_of(b: F64Bits) -> (r: u64)
    ensures
        r as nat == f64_frac(b),
        r < 0x10_0000_0000_0000,
{
    b % 0x10_0000_0000_0000
}

pub fn is_zero(b: F64Bits) -> (r: bool)
    ensures
        r == f64_is_zero(b),
{
    exp_of(b) == 0 && frac_of(b) == 0
}

pub fn is_nan(b: F64Bits) -> (r: bool)
    ensures
        r == f64_is_nan(b),
{
    exp_of(b) == 2047 && frac_of(b) != 0
}

pub fn is_infinite(b: F64Bits) -> (r: bool)
    ensures
        r == f64_is_infinite(b),
{
    exp_of(b) == 2047 && frac_of(b) == 0
}

pub fn is_negative(b: F64Bits) -> (r: bool)
    ensures
        r == f64_is_negative(b),
{
    sign_of(b) && !is_zero(b) && !is_nan(b)
}

pub fn is_non_negative(b: F64Bits) -> (r: bool)
    ensures
        r == f64_is_non_negative(b),
{
    !is_nan(b) && (!sign_of(b) || is_zero(b))
}

pub fn pattern(negative: bool, magnitude: u64) -> (r: u64)
    requires
        magnitude < 0x8000_0000_0000_0000,
    ensures
        r == f64_pattern(negative, magnitude as nat),
{
    if negative {
        0x8000_0000_0000_0000 + magnitude
    } else {
        magnitude
    }
}

// ─── Rounding of integers ────────────────────────────────────────────────────

/// The integer nearest to `n / 2^k`, the even one of two equally near.
pub open spec fn round_even(n: nat, k: nat) -> nat {
    let q = n / pow2(k);
    let r = n % pow2(k);
    if 2 * r > pow2(k) || (2 * r == pow2(k) && q % 2 == 1) {
        q + 1
    } else {
        q
    }
}

/// The integer nearest to `n / 2^k`, the greater of two equally near.
pub open spec fn round_half_up(n: nat, k: nat) -> nat {
    let q = n / pow2(k);
    let r = n % pow2(k);
    if 2 * r >= pow2(k) {
        q + 1
    } else {
        q
    }
}

pub proof fn lemma_round_even_zero(n: nat)
    ensures
        round_even(n, 0) == n,
        round_half_up(n, 0) == n,
{
    lemma2_to64();
    assert(n / 1 == n);
    assert(n % 1 == 0);
}

/// A number below half of `2^k` rounds to zero.
pub proof fn lemma_round_small(n: nat, k: nat)
    requires
        2 * n < pow2(k),
    ensures
        round_even(n, k) == 0,
        round_half_up(n, k) == 0,
{
    lemma_small_mod(n, pow2(k));
    lemma_basic_div(n as int, pow2(k) as int);
}

/// Rounding a number that fits in `a` bits away by `k` leaves at most `2^(a-k)`.
pub proof fn lemma_round_bound(n: nat, a: nat, k: nat)
    requires
        n < pow2(a),
        k <= a,
    ensures
        round_even(n, k) <= pow2((a - k) as nat),
        round_half_up(n, k) <= pow2((a - k) as nat),
{
    let d = (a - k) as nat;
    lemma_pow2_adds(k, d);
    lemma_pow2_pos(k);
    lemma_pow2_pos(d);
    lemma_fundamental_div_mod(n as int, pow2(k) as int);
    let q = n / pow2(k);
    assert(q < pow2(d)) by (nonlinear_arith)
        requires
            pow2(k) * q <= n,
            n < pow2(k) * pow2(d),
            pow2(k) > 0,
    ;
}

/// Rounding keeps at least what was shifted into place.
pub proof fn lemma_round_lower(n: nat, a: nat, k: nat)
    requires
        n >= pow2(a),
        k <= a,
    ensures
        round_even(n, k) >= pow2((a - k) as nat),
{
    let d = (a - k) as nat;
    lemma_pow2_adds(k, d);
    lemma_pow2_pos(k);
    lemma_div_is_ordered(pow2(a) as int, n as int, pow2(k) as int);
    lemma_div_by_multiple(pow2(d) as int, pow2(k) as int);
    assert(pow2(d) * pow2(k) == pow2(k) * pow2(d)) by (nonlinear_arith);
}

pub fn round_even_u64(n: u64, k: u32) -> (r: u64)
    requires
        k < 64,
        n < 0x8000_0000_0000_0000,
    ensures
        r as nat == round_even(n as nat, k as nat),
{
    proof {
        lemma_u64_one_shl(k);
        lemma_u64_shr(n, k);
        lemma_pow2_pos(k as nat);
        lemma_fundamental_div_mod(n as int, pow2(k as nat) as int);
        lemma_mod_bound(n as int, pow2(k as nat) as int);
        lemma_div_nonincreasing(n as int, pow2(k as nat) as int);
    }
    let q: u64 = n >> k;
    let unit: u64 = 1u64 << k;
    let r: u64 = n % unit;
    if r > unit - r || (r == unit - r && q % 2 == 1) {
        q + 1
    } else {
        q
    }
}

pub fn round_half_up_u64(n: u64, k: u32) -> (r: u64)
    requires
        k < 64,
        n < 0x8000_0000_0000_0000,
    ensures
        r as nat == round_half_up(n as nat, k as nat),
{
    proof {
        lemma_u64_one_shl(k);
        lemma_u64_shr(n, k);
        lemma_pow2_pos(k as nat);
        lemma_fundamental_div_mod(n as int, pow2(k as nat) as int);
        lemma_mod_bound(n as int, pow2(k as nat) as int);
        lemma_div_nonincreasing(n as int, pow2(k as nat) as int);
    }
    let q: u64 = n >> k;
    let unit: u64 = 1u64 << k;
    let r: u64 = n % unit;
    if r >= unit - r {
        q + 1
    } else {
        q
    }
}

/// The position of the highest set bit.
pub open spec fn top_bit(n: nat) -> nat
    decreases n,
{
    if n < 2 {
        0
    } else {
        1 + top_bit(n / 2)
    }
}

pub proof fn lemma_top_bit(n: nat)
    requires
        n > 0,
    ensures
        pow2(top_bit(n)) <= n < pow2(top_bit(n) + 1),
    decreases n,
{
    lemma2_to64();
    if n >= 2 {
        lemma_top_bit(n / 2);
        lemma_pow2_unfold(top_bit(n));
        lemma_pow2_unfold(top_bit(n) + 1);
    }
}

pub proof fn lemma_top_bit_unique(n: nat, p: nat)
    requires
        pow2(p) <= n < pow2(p + 1),
    ensures
        top_bit(n) == p,
{
    lemma_pow2_pos(p);
    lemma_top_bit(n);
    let t = top_bit(n);
    if t < p {
        lemma_pow2_le(t + 1, p);
    } else if p < t {
        lemma_pow2_le(p + 1, t);
    }
}

proof fn lemma_leading_zeros(n: u64)
    requires
        n > 0,
    ensures
        vstd::std_specs::bits::u64_leading_zeros(n) == 63 - top_bit(n as nat),
        top_bit(n as nat) < 64,
    decreases n,
{
    reveal(vstd::std_specs::bits::u64_leading_zeros);
    if n >= 2 {
        lemma_leading_zeros(n / 2);
    } else {
        assert(vstd::std_specs::bits::u64_leading_zeros(0) == 64);
        assert(n / 2 == 0);
    }
    lemma_top_bit(n as nat);
    if top_bit(n as nat) >= 64 {
        lemma_pow2_le(64, top_bit(n as nat));
        lemma_pow2_64();
    }
}

/// The position of the highest set bit of a word that is not zero.
pub fn top_bit_u64(n: u64) -> (p: u32)
    requires
        n > 0,
    ensures
        p as nat == top_bit(n as nat),
        p < 64,
        pow2(p as nat) <= (n as nat) < pow2(p as nat + 1),
{
    proof {
        lemma_leading_zeros(n);
        lemma_top_bit(n as nat);
    }
    63 - n.leading_zeros()
}

/// `n * 2^k` for a product that fits in a word.
pub fn shift_left(n: u64, k: u32) -> (r: u64)
    requires
        k < 64,
        n * pow2(k as nat) <= u64::MAX,
    ensures
        r as nat == n as nat * pow2(k as nat),
{
    proof {
        lemma_u64_shl_is_mul(n, k as u64);
    }
    n << k
}

// ─── Building doubles ────────────────────────────────────────────────────────

/// The double nearest to `(2^52 + f) * 2^(x - 52)`, for `f` up to `2^52`.
pub open spec fn f64_scaled(negative: bool, f: nat, x: int) -> u64 {
    if f == 0x10_0000_0000_0000 {
        f64_scaled_unit(negative, 0, x + 1)
    } else {
        f64_scaled_unit(negative, f, x)
    }
}

/// The double nearest to `(2^52 + f) * 2^(x - 52)`, for `f` below `2^52`.
pub open spec fn f64_scaled_unit(negative: bool, f: nat, x: int) -> u64 {
    if x > 1023 {
        f64_pattern(negative, 0x7ff0_0000_0000_0000)
    } else if x >= -1022 {
        f64_pattern(negative, ((x + 1023) * 0x10_0000_0000_0000 + f) as nat)
    } else {
        f64_pattern(negative, round_even(0x10_0000_0000_0000 + f, (-1022 - x) as nat))
    }
}

/// Builds the double nearest to `(2^52 + f) * 2^(x - 52)`.
pub fn scaled(negative: bool, f: u64, x: i64) -> (r: F64Bits)
    requires
        f <= 0x10_0000_0000_0000,
        -0x1_0000_0000_0000 < x < 0x1_0000_0000_0000,
    ensures
        r == f64_scaled(negative, f as nat, x as int),
{
    let (g, y): (u64, i64) = if f == 0x10_0000_0000_0000 {
        (0, x + 1)
    } else {
        (f, x)
    };
    if y > 1023 {
        pattern(negative, 0x7ff0_0000_0000_0000)
    } else if y >= -1022 {
        pattern(negative, ((y + 1023) as u64) * 0x10_0000_0000_0000 + g)
    } else {
        let shift: i64 = -1022 - y;
        let ghost n = (0x10_0000_0000_0000 + g) as nat;
        if shift > 54 {
            proof {
                lemma2_to64_rest();
                lemma_pow2_le(55, shift as nat);
                lemma_round_small(n, shift as nat);
            }
            pattern(negative, 0)
        } else {
            proof {
                lemma2_to64_rest();
                lemma2_to64();
                if shift <= 53 {
                    lemma_round_bound(n, 53, shift as nat);
                    lemma_pow2_le((53 - shift) as nat, 52);
                } else {
                    lemma_pow2_le(53, shift as nat);
                    lemma_basic_div(n as int, pow2(shift as nat) as int);
                }
            }
            pattern(negative, round_even_u64(0x10_0000_0000_0000 + g, shift as u32))
        }
    }
}

/// The significand of the double nearest to `m`: between `2^52` and `2^53`, to
/// be read with the weight `2^(top_bit(m) - 52)`.
pub open spec fn f64_significand(m: nat) -> nat {
    let p = top_bit(m);
    if p <= 52 {
        m * pow2((52 - p) as nat)
    } else {
        round_even(m, (p - 52) as nat)
    }
}

/// The double nearest to the integer `±m`.
pub open spec fn f64_of_nat(negative: bool, m: nat) -> u64 {
    if m == 0 {
        0
    } else {
        f64_scaled(
            negative,
            (f64_significand(m) - 0x10_0000_0000_0000) as nat,
            top_bit(m) as int,
        )
    }
}

pub proof fn lemma_significand_range(m: nat)
    requires
        m > 0,
    ensures
        0x10_0000_0000_0000 <= f64_significand(m) <= 0x20_0000_0000_0000,
{
    let p = top_bit(m);
    lemma_top_bit(m);
    lemma2_to64_rest();
    if p <= 52 {
        let d = (52 - p) as nat;
        lemma_pow2_adds(p, d);
        lemma_pow2_adds(p + 1, d);
        lemma_pow2_pos(d);
        assert(pow2(p) * pow2(d) <= m * pow2(d) <= pow2(p + 1) * pow2(d)) by (nonlinear_arith)
            requires
                pow2(p) <= m < pow2(p + 1),
        ;
    } else {
        lemma_round_bound(m, p + 1, (p - 52) as nat);
        lemma_round_lower(m, p, (p - 52) as nat);
    }
}

pub fn significand(m: u64) -> (r: u64)
    requires
        0 < m,
    ensures
        r as nat == f64_significand(m as nat),
        0x10_0000_0000_0000 <= r <= 0x20_0000_0000_0000,
{
    let p: u32 = top_bit_u64(m);
    proof {
        lemma_significand_range(m as nat);
    }
    if p <= 52 {
        shift_left(m, 52 - p)
    } else if p == 63 {
        // One bit more than the rounding helper takes: halve, keeping the lost bit.
        let half: u64 = m / 2;
        let odd: u64 = m % 2;
        round_even_sticky(half, odd, 10)
    } else {
        proof {
            lemma_pow2_le(p as nat + 1, 63);
            lemma_pow2_64();
        }
        round_even_u64(m, p - 52)
    }
}

/// Rounds `(2 n + odd) / 2^(k + 1)` to the nearest integer, ties to even.
fn round_even_sticky(n: u64, odd: u64, k: u32) -> (r: u64)
    requires
        k < 63,
        n < 0x8000_0000_0000_0000,
        odd <= 1,
    ensures
        r as nat == round_even((2 * n + odd) as nat, k as nat + 1),
{
    proof {
        lemma_u64_one_shl(k);
        lemma_u64_shr(n, k);
        lemma_pow2_pos(k as nat);
        lemma_pow2_unfold(k as nat + 1);
        lemma_fundamental_div_mod(n as int, pow2(k as nat) as int);
        lemma_mod_bound(n as int, pow2(k as nat) as int);
        lemma_div_nonincreasing(n as int, pow2(k as nat) as int);
        let u = pow2(k as nat) as int;
        let q = n as int / u;
        let r = n as int % u;
        let big = 2 * n + odd;
        assert(big == (2 * u) * q + (2 * r + odd)) by (nonlinear_arith)
            requires
                n == u * q + r,
                big == 2 * n + odd,
        ;
        lemma_fundamental_div_mod_converse(big as int, 2 * u, q, 2 * r + odd);
    }
    let q: u64 = n >> k;
    let unit: u64 = 1u64 << k;
    let r: u64 = n % unit;
    let rest: u64 = 2 * r + odd;
    if rest > unit || (rest == unit && q % 2 == 1) {
        q + 1
    } else {
        q
    }
}

/// Converts an unsigned integer to the nearest double, signed as asked.
pub fn f64_from_u64(negative: bool, m: u64) -> (r: F64Bits)
    ensures
        r == f64_of_nat(negative, m as nat),
{
    if m == 0 {
        0
    } else {
        let p: u32 = top_bit_u64(m);
        let s: u64 = significand(m);
        scaled(negative, s - 0x10_0000_0000_0000, p as i64)
    }
}

/// The double nearest to an integer.
pub open spec fn f64_of_int(v: int) -> u64 {
    if v < 0 {
        f64_of_nat(true, (-v) as nat)
    } else {
        f64_of_nat(false, v as nat)
    }
}

/// The distance of an integer from zero.
pub fn magnitude_i64(v: i64) -> (m: u64)
    ensures
        m as int == if v < 0 {
            -v
        } else {
            v as int
        },
{
    if v < 0 {
        ((-(v + 1)) as u64) + 1
    } else {
        v as u64
    }
}

/// Converts an integer to the nearest double.
pub fn f64_from_i64(v: i64) -> (r: F64Bits)
    ensures
        r == f64_of_int(v as int),
{
    f64_from_u64(v < 0, magnitude_i64(v))
}

// ─── Reading doubles as integers ─────────────────────────────────────────────

/// The significand of a finite double.
pub open spec fn f64_sig(b: u64) -> nat {
    if f64_exp(b) == 0 {
        f64_frac(b)
    } else {
        f64_frac(b) + 0x10_0000_0000_0000
    }
}

/// The weight of the last bit of the significand, as a power of two.
pub open spec fn f64_weight(b: u64) -> int {
    if f64_exp(b) == 0 {
        -1074
    } else {
        f64_exp(b) - 1075
    }
}

/// The magnitude of a double, cut to an integer.
pub open spec fn f64_floor_magnitude(b: u64) -> nat {
    let w = f64_weight(b);
    if w >= 0 {
        f64_sig(b) * pow2(w as nat)
    } else {
        f64_sig(b) / pow2((-w) as nat)
    }
}

/// The magnitude of a double, rounded to the nearest integer, halves upward.
pub open spec fn f64_round_magnitude(b: u64) -> nat {
    let w = f64_weight(b);
    if w >= 0 {
        f64_sig(b) * pow2(w as nat)
    } else {
        round_half_up(f64_sig(b), (-w) as nat)
    }
}

/// A double rounded to the nearest integer, halves away from zero, and held
/// within the range of `i64`; not-a-number counts as zero.
pub open spec fn f64_rounded(b: u64) -> int {
    let m = f64_round_magnitude(b) as int;
    if f64_is_nan(b) {
        0
    } else if f64_sign(b) {
        if m > 0x8000_0000_0000_0000 {
            -0x8000_0000_0000_0000
        } else {
            -m
        }
    } else {
        if m > 0x7fff_ffff_ffff_ffff {
            0x7fff_ffff_ffff_ffff
        } else {
            m
        }
    }
}

/// That an integer is exact as a double: it comes back from the nearest one.
pub open spec fn exact_integer(n: int) -> bool {
    f64_rounded(f64_of_int(n)) == n
}

/// An integer of up to 53 bits is exact as a double.
pub proof fn law_small_integer_is_exact(n: int)
    requires
        -0x20_0000_0000_0000 < n < 0x20_0000_0000_0000,
    ensures
        exact_integer(n),
{
    let m: nat = if n < 0 {
        (-n) as nat
    } else {
        n as nat
    };
    let b = f64_of_int(n);
    lemma2_to64();
    lemma2_to64_rest();
    if m == 0 {
        assert(b == 0);
        lemma_pow2_pos(1074);
        lemma_round_small(0, 1074);
    } else {
        let p = top_bit(m);
        lemma_top_bit(m);
        if p > 52 {
            lemma_pow2_le(53, p);
        }
        let d = (52 - p) as nat;
        let u = pow2(d);
        let s = f64_significand(m);
        lemma_significand_range(m);
        lemma_pow2_adds(p + 1, d);
        lemma_pow2_pos(d);
        assert(m * u < pow2(p + 1) * u) by (nonlinear_arith)
            requires
                m < pow2(p + 1),
                u > 0,
        ;
        let e = (p + 1023) as nat;
        let f = (s - 0x10_0000_0000_0000) as nat;
        let g = (e * 0x10_0000_0000_0000 + f) as nat;
        assert(b == f64_pattern(n < 0, g));
        assert(b as nat / 0x10_0000_0000_0000 == e + if n < 0 {
            2048nat
        } else {
            0
        });
        assert(f64_exp(b) == e && f64_frac(b) == f && f64_sign(b) == (n < 0));
        assert(f64_sig(b) == m * u);
        assert(f64_weight(b) == -d);
        lemma_mod_multiples_basic(m as int, u as int);
        lemma_div_by_multiple(m as int, u as int);
        assert(f64_round_magnitude(b) == m) by {
            let x = m * u;
            assert(x / u == m && x % u == 0);
            if d == 0 {
                assert(u == 1 && f64_weight(b) as nat == 0);
                lemma_mul_basics(m as int);
            } else {
                assert((-f64_weight(b)) as nat == d);
            }
        }
    }
}

/// The significand of a finite double and the weight of its last bit.
pub fn sig_and_weight(b: F64Bits) -> (r: (u64, i64))
    ensures
        r.0 as nat == f64_sig(b),
        r.1 as int == f64_weight(b),
        r.0 < 0x20_0000_0000_0000,
        -1074 <= r.1 <= 972,
{
    let e: u64 = exp_of(b);
    let f: u64 = frac_of(b);
    if e == 0 {
        (f, -1074)
    } else {
        (f + 0x10_0000_0000_0000, e as i64 - 1075)
    }
}

/// Rounds a double to an integer.
pub fn rounded(b: F64Bits) -> (r: i64)
    ensures
        r as int == f64_rounded(b),
{
    if is_nan(b) {
        return 0;
    }
    let negative: bool = sign_of(b);
    let (s, w) = sig_and_weight(b);
    // The magnitude, or `2^63` where it is that or more.
    let m: u64 = if w > 10 {
        proof {
            lemma2_to64();
            lemma2_to64_rest();
            lemma_pow2_le(11, w as nat);
            assert(f64_sig(b) >= 0x10_0000_0000_0000);
            let p = pow2(w as nat);
            assert(s * p >= 0x10_0000_0000_0000 * 2048) by (nonlinear_arith)
                requires
                    s >= 0x10_0000_0000_0000,
                    p >= 2048,
            ;
        }
        0x8000_0000_0000_0000
    } else if w >= 0 {
        proof {
            lemma2_to64();
            lemma_pow2_le(w as nat, 10);
            let p = pow2(w as nat);
            assert(s * p <= 0x20_0000_0000_0000 * 1024) by (nonlinear_arith)
                requires
                    0 <= s < 0x20_0000_0000_0000,
                    0 < p <= 1024,
            ;
        }
        shift_left(s, w as u32)
    } else if w < -54 {
        proof {
            lemma2_to64_rest();
            lemma_pow2_le(55, (-w) as nat);
            lemma_round_small(s as nat, (-w) as nat);
        }
        0
    } else {
        proof {
            lemma2_to64_rest();
            if w >= -53 {
                lemma_round_bound(s as nat, 53, (-w) as nat);
                lemma_pow2_le((53 + w) as nat, 53);
            } else {
                lemma_basic_div(s as int, pow2(54) as int);
            }
        }
        round_half_up_u64(s, (-w) as u32)
    };
    if negative {
        if m >= 0x8000_0000_0000_0000 {
            i64::MIN
        } else {
            -(m as i64)
        }
    } else {
        if m > 0x7fff_ffff_ffff_ffff {
            i64::MAX
        } else {
            m as i64
        }
    }
}

// ─── Narrowing to singles ────────────────────────────────────────────────────

/// The single nearest to a double. Not-a-number stays so, keeps its sign and
/// the high bits of its payload, and is made quiet.
pub open spec fn f32_of_f64(b: u64) -> u32 {
    let sign: nat = if f64_sign(b) {
        0x8000_0000
    } else {
        0
    };
    if f64_is_nan(b) {
        (sign + 0x7fc0_0000 + (f64_frac(b) / 0x2000_0000) % 0x40_0000) as u32
    } else if f64_is_infinite(b) {
        (sign + 0x7f80_0000) as u32
    } else {
        (sign + f32_magnitude(f64_sig(b), f64_weight(b) + 52)) as u32
    }
}

/// Exponent and fraction fields of the single nearest to `s * 2^(x - 52)`.
pub open spec fn f32_magnitude(s: nat, x: int) -> nat {
    if x >= -126 {
        let m = (x + 126) * 0x80_0000 + round_even(s, 29);
        if m >= 0x7f80_0000 {
            0x7f80_0000
        } else {
            m as nat
        }
    } else {
        round_even(s, (29 - 126 - x) as nat)
    }
}

/// Narrows a double to a single.
pub fn f32_from_f64(b: F64Bits) -> (r: F32Bits)
    ensures
        r == f32_of_f64(b),
{
    let sign: u32 = if sign_of(b) {
        0x8000_0000
    } else {
        0
    };
    if is_nan(b) {
        let payload: u64 = (frac_of(b) / 0x2000_0000) % 0x40_0000;
        return sign + 0x7fc0_0000 + payload as u32;
    }
    if is_infinite(b) {
        return sign + 0x7f80_0000;
    }
    let (s, w) = sig_and_weight(b);
    let x: i64 = w + 52;
    proof {
        lemma2_to64();
        lemma2_to64_rest();
        lemma_round_bound(s as nat, 53, 29);
    }
    if x >= -126 {
        let m: u64 = ((x + 126) as u64) * 0x80_0000 + round_even_u64(s, 29);
        if m >= 0x7f80_0000 {
            sign + 0x7f80_0000
        } else {
            sign + m as u32
        }
    } else {
        let shift: i64 = 29 - 126 - x;
        if shift > 54 {
            proof {
                lemma_pow2_le(55, shift as nat);
                lemma_round_small(s as nat, shift as nat);
            }
            sign
        } else {
            proof {
                if shift <= 53 {
                    lemma_round_bound(s as nat, 53, shift as nat);
                    lemma_pow2_le((53 - shift) as nat, 24);
                } else {
                    lemma_basic_div(s as int, pow2(54) as int);
                }
            }
            sign + round_even_u64(s, shift as u32) as u32
        }
    }
}

/// The double equal to a single.
pub open spec fn f64_of_f32(x: u32) -> u64 {
    let negative = x >= 0x8000_0000;
    let e = (x as nat / 0x80_0000) % 256;
    let m = x as nat % 0x80_0000;
    if e == 255 && m != 0 {
        f64_pattern(negative, 0x7ff8_0000_0000_0000 + (m % 0x40_0000) * 0x2000_0000)
    } else if e == 255 {
        f64_pattern(negative, 0x7ff0_0000_0000_0000)
    } else if e > 0 {
        f64_pattern(negative, (e + 896) * 0x10_0000_0000_0000 + m * 0x2000_0000)
    } else if m == 0 {
        f64_pattern(negative, 0)
    } else {
        let p = top_bit(m);
        f64_pattern(
            negative,
            ((p + 873) * 0x10_0000_0000_0000 + m * pow2((52 - p) as nat)) as nat,
        )
    }
}

/// The double equal to a single.
pub fn f64_from_f32(x: F32Bits) -> (r: F64Bits)
    ensures
        r == f64_of_f32(x),
{
    let negative: bool = x >= 0x8000_0000;
    let e: u64 = ((x / 0x80_0000) % 256) as u64;
    let m: u64 = (x % 0x80_0000) as u64;
    if e == 255 && m != 0 {
        pattern(negative, 0x7ff8_0000_0000_0000 + (m % 0x40_0000) * 0x2000_0000)
    } else if e == 255 {
        pattern(negative, 0x7ff0_0000_0000_0000)
    } else if e > 0 {
        pattern(negative, (e + 896) * 0x10_0000_0000_0000 + m * 0x2000_0000)
    } else if m == 0 {
        pattern(negative, 0)
    } else {
        let p: u32 = top_bit_u64(m);
        proof {
            lemma2_to64_rest();
            lemma2_to64();
            if p >= 23 {
                lemma_pow2_le(23, p as nat);
            }
            let k = (52 - p) as nat;
            lemma_pow2_adds(p as nat + 1, k);
            lemma_pow2_pos(k);
            vstd::arithmetic::mul::lemma_mul_strict_inequality(
                m as int,
                pow2(p as nat + 1) as int,
                pow2(k) as int,
            );
            assert(pow2(53) == 0x20_0000_0000_0000);
        }
        let shifted: u64 = shift_left(m, 52 - p);
        pattern(negative, (p as u64 + 873) * 0x10_0000_0000_0000 + shifted)
    }
}

} // verus!
