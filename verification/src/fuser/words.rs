//! Machine words as signed numbers: wrapping arithmetic, shifts and sign
//! extension.

use crate::bits;
use crate::bits::{signed_value, wrap_i64};
use crate::fuser::helpers::{wide_word, ArithOp};
use vstd::arithmetic::div_mod::*;
use vstd::arithmetic::mul::*;
use vstd::arithmetic::power2::*;
use vstd::prelude::*;

verus! {

/// The word congruent to a number.
pub open spec fn word_of(n: int) -> u64 {
    (n % 0x1_0000_0000_0000_0000) as u64
}

/// A word as a signed number.
pub open spec fn signed_word(x: u64) -> int {
    wrap_i64(x as int)
}

/// The quotient of two numbers, cut towards zero.
pub open spec fn trunc_div(a: int, b: int) -> int {
    let x = if a < 0 {
        -a
    } else {
        a
    };
    let y = if b < 0 {
        -b
    } else {
        b
    };
    if (a < 0) == (b < 0) {
        x / y
    } else {
        -(x / y)
    }
}

/// What a quotient cut towards zero leaves is smaller than the divisor, and has the sign
/// of the dividend where it is not zero.
pub proof fn law_quotient_is_cut(a: int, b: int)
    requires
        b != 0,
    ensures
        ({
            let r = a - trunc_div(a, b) * b;
            &&& -b < r < b || b < r < -b
            &&& r > 0 ==> a > 0
            &&& r < 0 ==> a < 0
        }),
{
    let x = if a < 0 {
        -a
    } else {
        a
    };
    let y = if b < 0 {
        -b
    } else {
        b
    };
    lemma_fundamental_div_mod(x, y);
    lemma_mod_bound(x, y);
    let q = x / y;
    lemma_mul_is_commutative(q, y);
    lemma_mul_unary_negation(q, y);
    lemma_mul_unary_negation(q, b);
    if x == 0 {
        lemma_div_of0(y);
    }
}

/// The result of an operation on 64 bits: modulo `2^64`, division with signs
/// and towards zero. Division by zero has no result.
pub open spec fn word_result(op: ArithOp, l: u64, r: u64) -> u64 {
    match op {
        ArithOp::Add => word_of(l + r),
        ArithOp::Sub => word_of(l - r),
        ArithOp::Mul => word_of(l * r),
        ArithOp::Div => if r == 0 {
            arbitrary()
        } else {
            word_of(trunc_div(signed_word(l), signed_word(r)))
        },
    }
}

/// A word shifted to the left.
pub open spec fn shifted_left(x: u64, n: u32) -> u64 {
    word_of(x * pow2(n as nat))
}

/// A word shifted to the right, its sign repeated.
pub open spec fn shifted_right(x: u64, n: u32) -> u64 {
    word_of(signed_word(x) / pow2(n as nat) as int)
}

/// A number of two words whose low `w` bits are signed, with the sign repeated
/// up to 128 bits.
pub open spec fn extended_wide(n: nat, w: nat) -> nat {
    if w >= 128 {
        n
    } else {
        (signed_value(n, w) % 0x1_0000_0000_0000_0000_0000_0000_0000_0000int) as nat
    }
}

/// Shifting a word to the left and back repeats its sign.
pub proof fn lemma_shift_pair(x: u64, c: nat)
    requires
        1 <= c <= 64,
    ensures
        shifted_right(shifted_left(x, (64 - c) as u32), (64 - c) as u32) == word_of(
            signed_value(x as nat, c),
        ),
        signed_word(shifted_right(shifted_left(x, (64 - c) as u32), (64 - c) as u32))
            == signed_value(x as nat, c),
{
    let s = (64 - c) as nat;
    let p = pow2(s) as int;
    let q = pow2(c) as int;
    let h = pow2((c - 1) as nat) as int;
    let m = x as int % q;
    bits::lemma_pow2_64();
    lemma_pow2_adds(s, c);
    lemma_pow2_adds(s, (c - 1) as nat);
    lemma_pow2_pos(s);
    lemma_pow2_pos(c);
    lemma_pow2_unfold(c);
    lemma_pow2_pos((c - 1) as nat);
    assert(pow2(64) == 0x1_0000_0000_0000_0000);
    lemma_truncate_middle(x as int, p, q);
    lemma_mul_is_commutative(p, x as int);
    lemma_mod_bound(x as int, q);
    let y = shifted_left(x, s as u32);
    assert(y as int == p * m) by {
        lemma_mul_nonnegative(p, m);
        lemma_mul_strict_inequality(m, q, p);
        lemma_mul_is_commutative(m, p);
        lemma_mul_is_commutative(q, p);
    }
    // The sign bit of the shifted word is that of the low bits.
    assert((y >= 0x8000_0000_0000_0000) == (m >= h)) by {
        if m >= h {
            lemma_mul_inequality(h, m, p);
        } else {
            lemma_mul_strict_inequality(m, h, p);
        }
        lemma_mul_is_commutative(h, p);
        lemma_mul_is_commutative(m, p);
    }
    lemma_small_mod(y as nat, 0x1_0000_0000_0000_0000);
    let v = signed_value(x as nat, c);
    assert(signed_word(y) == p * v) by {
        if m >= h {
            lemma_mul_is_distributive_sub(p, m, q);
        }
    }
    lemma_mul_is_commutative(p, v);
    lemma_fundamental_div_mod_converse(p * v, p, v, 0);
    assert(signed_word(y) / p == v);
    lemma_signed_fits(x as nat, c);
    lemma_word_signed(v);
}

/// The word of a number in the signed range has that number as signed value.
pub proof fn lemma_word_signed(v: int)
    requires
        -0x8000_0000_0000_0000 <= v <= 0x7fff_ffff_ffff_ffff,
    ensures
        signed_word(word_of(v)) == v,
{
    let k = 0x1_0000_0000_0000_0000int;
    if v >= 0 {
        lemma_small_mod(v as nat, k as nat);
    } else {
        lemma_mod_add_multiples_vanish(v, k);
        lemma_small_mod((v + k) as nat, k as nat);
    }
    lemma_mod_twice(v, k);
}

/// The sign of a word, spread over a word.
pub proof fn lemma_sign_word(x: u64)
    ensures
        shifted_right(x, 63) == if signed_word(x) < 0 {
            u64::MAX
        } else {
            0u64
        },
{
    bits::lemma_pow2_64();
    let v = signed_word(x);
    lemma_small_mod(x as nat, 0x1_0000_0000_0000_0000);
    let h = 0x8000_0000_0000_0000int;
    if v < 0 {
        lemma_fundamental_div_mod_converse(v, h, -1, v + h);
        assert((-1int) % 0x1_0000_0000_0000_0000 == 0xffff_ffff_ffff_ffff);
    } else {
        lemma_fundamental_div_mod_converse(v, h, 0, v);
    }
}

/// The two words of a signed number of one word.
pub proof fn lemma_wide_of_word(x: u64)
    ensures
        wide_word(x, shifted_right(x, 63)) as int == signed_word(x)
            % 0x1_0000_0000_0000_0000_0000_0000_0000_0000int,
{
    lemma_sign_word(x);
    let v = signed_word(x);
    let k = 0x1_0000_0000_0000_0000_0000_0000_0000_0000int;
    lemma_small_mod(x as nat, 0x1_0000_0000_0000_0000);
    if v >= 0 {
        lemma_small_mod(v as nat, k as nat);
    } else {
        lemma_mod_add_multiples_vanish(v, k);
        lemma_small_mod((v + k) as nat, k as nat);
    }
}

/// A signed value of up to 64 bits depends on the low word alone.
pub proof fn lemma_signed_low_word(lo: u64, hi: u64, c: nat)
    requires
        c <= 64,
    ensures
        signed_value(wide_word(lo, hi), c) == signed_value(lo as nat, c),
{
    let n = wide_word(lo, hi);
    bits::lemma_pow2_64();
    lemma_fundamental_div_mod_converse(n as int, 0x1_0000_0000_0000_0000, hi as int, lo as int);
    bits::lemma_mod_pow2_mod(n as int, c, 64);
}

/// The signed value of more than 64 bits is that of the high word above the
/// low one.
pub proof fn lemma_signed_high_word(lo: u64, hi: u64, c: nat)
    requires
        64 < c < 128,
    ensures
        signed_value(wide_word(lo, hi), c) == lo + 0x1_0000_0000_0000_0000 * signed_value(
            hi as nat,
            (c - 64) as nat,
        ),
{
    let d = (c - 64) as nat;
    let b = 0x1_0000_0000_0000_0000int;
    let q = pow2(d) as int;
    let h = pow2((d - 1) as nat) as int;
    let n = wide_word(lo, hi) as int;
    bits::lemma_pow2_64();
    lemma_pow2_adds(64, d);
    lemma_pow2_adds(64, (d - 1) as nat);
    lemma_pow2_pos(d);
    lemma_pow2_pos((d - 1) as nat);
    let m = hi as int % q;
    lemma_mod_bound(hi as int, q);
    lemma_fundamental_div_mod(hi as int, q);
    let t = hi as int / q;
    // n == (b * q) * t + (b * m + lo)
    lemma_mul_is_distributive_add(b, q * t, m);
    lemma_mul_is_associative(b, q, t);
    lemma_mul_inequality(m + 1, q, b);
    lemma_mul_is_distributive_add_other_way(b, m, 1);
    lemma_mul_is_commutative(m + 1, b);
    lemma_mul_is_commutative(q, b);
    lemma_mul_is_commutative(m, b);
    lemma_mul_nonnegative(b, m);
    lemma_mul_is_commutative(b * q, t);
    lemma_fundamental_div_mod_converse(n, b * q, t, b * m + lo);
    assert(n % pow2(c) as int == b * m + lo);
    assert(c - 1 == 64 + (d - 1));
    assert(pow2((c - 1) as nat) == b * h);
    assert((b * m + lo >= b * h) == (m >= h)) by {
        if m >= h {
            lemma_mul_inequality(h, m, b);
            lemma_mul_is_commutative(h, b);
        } else {
            lemma_mul_inequality(m + 1, h, b);
            lemma_mul_is_commutative(h, b);
        }
    }
    lemma_mul_is_distributive_sub(b, m, q);
}

/// The two words of a signed number whose high word is signed.
pub proof fn lemma_wide_of_high(lo: u64, v: int)
    requires
        -0x8000_0000_0000_0000 <= v <= 0x7fff_ffff_ffff_ffff,
    ensures
        wide_word(lo, word_of(v)) as int == (lo + 0x1_0000_0000_0000_0000 * v)
            % 0x1_0000_0000_0000_0000_0000_0000_0000_0000int,
{
    let k = 0x1_0000_0000_0000_0000_0000_0000_0000_0000int;
    let b = 0x1_0000_0000_0000_0000int;
    let n = lo + b * v;
    if v >= 0 {
        lemma_small_mod(v as nat, b as nat);
        lemma_small_mod(n as nat, k as nat);
    } else {
        lemma_mod_add_multiples_vanish(v, b);
        lemma_small_mod((v + b) as nat, b as nat);
        lemma_mod_add_multiples_vanish(n, k);
        lemma_small_mod((n + k) as nat, k as nat);
    }
}

/// Signed values of up to 64 bits fit a word.
pub proof fn lemma_signed_fits(n: nat, c: nat)
    requires
        1 <= c <= 64,
    ensures
        -0x8000_0000_0000_0000 <= signed_value(n, c) <= 0x7fff_ffff_ffff_ffff,
{
    bits::lemma_pow2_64();
    bits::lemma_pow2_le((c - 1) as nat, 63);
    lemma_pow2_unfold(c);
    lemma_mod_bound(n as int, pow2(c) as int);
}

} // verus!
