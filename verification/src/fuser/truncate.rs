//! Doubles as integers, cut towards zero and held to a range.

use crate::bits;
use crate::bits::{lemma_pow2_le, lemma_u64_shr};
use crate::limbs::split_u128;
use crate::soft_float::{
    f64_floor_magnitude, f64_is_nan, f64_sign, is_nan, sig_and_weight, sign_of, top_bit_u64,
    F64Bits,
};
use crate::types::float_codec::{lemma_pow2_126, pow2_u128};
use vstd::arithmetic::div_mod::*;
use vstd::arithmetic::mul::*;
use vstd::arithmetic::power2::*;
use vstd::prelude::*;

verus! {

/// A double cut towards zero and held to the range from `-half` to `half - 1`;
/// zero for not-a-number.
pub open spec fn f64_saturated(b: u64, half: int) -> int {
    let m = f64_floor_magnitude(b) as int;
    if f64_is_nan(b) {
        0
    } else if f64_sign(b) {
        if m > half {
            -half
        } else {
            -m
        }
    } else {
        if m >= half {
            half - 1
        } else {
            m
        }
    }
}

/// The largest magnitude of 128 bits with a sign.
pub open spec fn half_128() -> int {
    0x8000_0000_0000_0000_0000_0000_0000_0000
}

/// The magnitude of a double cut to a whole number, at most `2^127`.
fn floor_magnitude(b: F64Bits) -> (r: u128)
    ensures
        r as int == if f64_floor_magnitude(b) >= half_128() {
            half_128()
        } else {
            f64_floor_magnitude(b) as int
        },
{
    let (s, w) = sig_and_weight(b);
    if s == 0 {
        proof {
            if w >= 0 {
                lemma_mul_basics(pow2(w as nat) as int);
            } else {
                lemma_pow2_pos((-w) as nat);
                lemma_div_of0(pow2((-w) as nat) as int);
            }
        }
        return 0;
    }
    if w >= 0 {
        let t: u32 = top_bit_u64(s);
        let ghost tn = t as nat;
        let ghost wn = w as nat;
        proof {
            lemma_pow2_adds(tn, wn);
            lemma_pow2_adds(tn + 1, wn);
            lemma_pow2_126();
            lemma_pow2_unfold(127);
            lemma_pow2_pos(wn);
            lemma_mul_inequality(pow2(tn) as int, s as int, pow2(wn) as int);
            lemma_mul_strict_inequality(s as int, pow2(tn + 1) as int, pow2(wn) as int);
        }
        if t as i64 + w >= 127 {
            proof {
                lemma_pow2_le(127, tn + wn);
            }
            0x8000_0000_0000_0000_0000_0000_0000_0000u128
        } else {
            proof {
                lemma_pow2_le(tn + 1 + wn, 127);
            }
            let unit: u128 = pow2_u128(w as u32);
            s as u128 * unit
        }
    } else if w <= -54 {
        proof {
            lemma2_to64_rest();
            lemma_pow2_le(54, (-w) as nat);
            lemma_basic_div(s as int, pow2((-w) as nat) as int);
        }
        0
    } else {
        proof {
            lemma_u64_shr(s, (-w) as u32);
        }
        (s >> ((-w) as u32)) as u128
    }
}

/// A double cut towards zero and held to 64 bits with a sign.
pub fn saturate_i64(b: F64Bits) -> (r: i64)
    ensures
        r as int == f64_saturated(b, 0x8000_0000_0000_0000),
{
    if is_nan(b) {
        return 0;
    }
    let m: u128 = floor_magnitude(b);
    if sign_of(b) {
        if m >= 0x8000_0000_0000_0000 {
            i64::MIN
        } else {
            -(m as i64)
        }
    } else {
        if m >= 0x8000_0000_0000_0000 {
            i64::MAX
        } else {
            m as i64
        }
    }
}

/// The two words of a double cut towards zero and held to 128 bits with a sign.
pub fn saturate_words(b: F64Bits) -> (r: (u64, u64))
    ensures
        r.0 as int + 0x1_0000_0000_0000_0000 * r.1 as int == f64_saturated(b, half_128())
            % 0x1_0000_0000_0000_0000_0000_0000_0000_0000int,
{
    if is_nan(b) {
        return (0, 0);
    }
    let m: u128 = floor_magnitude(b);
    let n: u128 = if sign_of(b) {
        if m == 0 {
            0
        } else {
            (u128::MAX - m) + 1
        }
    } else {
        if m >= 0x8000_0000_0000_0000_0000_0000_0000_0000u128 {
            0x7fff_ffff_ffff_ffff_ffff_ffff_ffff_ffffu128
        } else {
            m
        }
    };
    proof {
        let v = f64_saturated(b, half_128());
        let k = 0x1_0000_0000_0000_0000_0000_0000_0000_0000int;
        if v >= 0 {
            lemma_small_mod(v as nat, k as nat);
        } else {
            lemma_mod_add_multiples_vanish(v, k);
            lemma_small_mod((v + k) as nat, k as nat);
        }
        assert(n as int == v % k);
    }
    split_u128(n)
}

} // verus!
