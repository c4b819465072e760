//! Integers of any width, in two's complement.

use crate::bits::{
    bits_nat, lemma_bits_nat_unique, lemma_limbs_bit, lemma_limbs_update, lemma_mod_pow2_mod,
    lemma_pow2_64, lemma_pow2_le, lemma_pow2_step, lemma_u64_bit, lemma_u64_shr, limb_bit,
    limb_count, limbs_nat, nat_bit, word_bit, word_low, wrap_i64,
};
use crate::limbs::{
    count_limbs, lemma_field_bit, lemma_limbs_are, limb_at, limbs_of, negate, split_u128, trim_top,
    zero_limbs,
};
use crate::soft_float::{
    ask, f64_floor_magnitude, f64_from_u64, f64_is_infinite, f64_is_nan, f64_is_negative,
    f64_is_zero, f64_of_nat, f64_scaled, float_answer, is_float_unit, is_infinite, is_nan,
    is_negative, is_zero, magnitude_i64, scaled, sig_and_weight, top_bit, top_bit_u64, F64Bits,
    FloatOp,
};
use vstd::arithmetic::div_mod::*;
use vstd::arithmetic::mul::*;
use vstd::arithmetic::power2::*;
use vstd::bits::*;
use vstd::prelude::*;

verus! {

// ─── Width ───────────────────────────────────────────────────────────────────

/// How many bits an integer needs in two's complement by the measure used for
/// scalable integers: those of its magnitude, at least one and at most 63, and
/// one for the sign.
pub open spec fn scalable_int_bits(v: int) -> nat {
    let m: nat = if v < 0 {
        (-v) as nat
    } else {
        v as nat
    };
    if m == 0 {
        2
    } else if top_bit(m) + 1 > 63 {
        64
    } else {
        top_bit(m) + 2
    }
}

/// The width of a scalable integer that holds `val`.
pub fn compute_scalable_int_bits(val: i64) -> (r: u32)
    ensures
        r as nat == scalable_int_bits(val as int),
        2 <= r <= 64,
{
    let abs_val: u64 = magnitude_i64(val);
    if abs_val == 0 {
        2
    } else {
        let mag_bits: u32 = top_bit_u64(abs_val) + 1;
        let mag_bits: u32 = if mag_bits > 63 {
            63
        } else {
            mag_bits
        };
        mag_bits + 1
    }
}

// ─── Encoding ────────────────────────────────────────────────────────────────

/// Encodes an integer in two's complement of `bits` bits, as a limb string.
pub fn encode_custom_int_limbs(val: i64, bits: u32) -> (r: Vec<u64>)
    requires
        bits <= u32::MAX - 63,
    ensures
        r@.len() == limb_count(bits as nat),
        limbs_nat(r@) as int == (val as int) % pow2(bits as nat) as int,
{
    let k: usize = count_limbs(bits);
    let mut limbs: Vec<u64> = zero_limbs(k);
    if k == 0 {
        proof {
            lemma2_to64();
            assert((val as int) % 1 == 0);
        }
        return limbs;
    }
    let abs_val: u64 = magnitude_i64(val);
    let ghost before = limbs@;
    limbs.set(0, abs_val);
    proof {
        lemma_limbs_update(before, 0, abs_val);
        lemma2_to64();
        assert((abs_val - 0) * 1 == abs_val);
        assert(limbs_nat(limbs@) == abs_val);
    }
    if val < 0 {
        negate(&mut limbs);
    }
    proof {
        let m = pow2((64 * k) as nat);
        lemma_pow2_64();
        lemma_pow2_le(64, (64 * k) as nat);
        if val >= 0 {
            lemma_small_mod(abs_val as nat, m);
        }
        assert(limbs_nat(limbs@) as int == (val as int) % (m as int));
        lemma_mod_pow2_mod(val as int, bits as nat, (64 * k) as nat);
    }
    trim_top(&mut limbs, bits);
    limbs
}

/// The integer part of a double that has one: zero for infinities and for
/// not-a-number, cut towards zero otherwise.
pub open spec fn f64_integer(b: u64) -> int {
    if f64_is_zero(b) || f64_is_nan(b) || f64_is_infinite(b) {
        0
    } else if f64_is_negative(b) {
        -f64_floor_magnitude(b)
    } else {
        f64_floor_magnitude(b) as int
    }
}

/// The limbs of `s * 2^sh`, as many as there is room for.
fn shifted_limbs(s: u64, sh: u32, k: usize) -> (r: Vec<u64>)
    requires
        s < 0x20_0000_0000_0000,
        sh <= 1024,
        k <= 0x1000_0000,
    ensures
        r@.len() == k,
        limbs_nat(r@) == (s as nat * pow2(sh as nat)) % pow2((64 * k) as nat),
{
    let off: usize = (sh / 64) as usize;
    let rem: u32 = sh % 64;
    let unit: u128 = 1u64 as u128 * pow2_u64(rem) as u128;
    proof {
        lemma_pow2_le(rem as nat, 63);
        lemma_pow2_64();
        assert((s as int) * (unit as int) <= 0x20_0000_0000_0000 * 0x8000_0000_0000_0000)
            by (nonlinear_arith)
            requires
                0 <= s < 0x20_0000_0000_0000,
                0 <= unit <= 0x8000_0000_0000_0000,
        ;
    }
    let (low, high) = split_u128(s as u128 * unit);
    // Two limbs more than asked for, so that both words always fit.
    let mut r: Vec<u64> = zero_limbs(k + 20);
    let ghost z = r@;
    r.set(off, low);
    let ghost z1 = r@;
    r.set(off + 1, high);
    proof {
        let e = (64 * off) as nat;
        lemma_limbs_update(z, off as int, low);
        lemma_limbs_update(z1, off + 1, high);
        lemma_pow2_step(e);
        assert(64 * (off + 1) == e + 64);
        lemma_pow2_adds(e, rem as nat);
        assert(e + rem as nat == sh as nat);
        let p = pow2(e) as int;
        let q = 0x1_0000_0000_0000_0000int;
        assert(low * p + high * (q * p) == s * (p * unit)) by (nonlinear_arith)
            requires
                low + high * q == s * unit,
        ;
        assert(limbs_nat(r@) == s * pow2(sh as nat));
        crate::bits::lemma_limbs_take(r@, k as int);
    }
    r.truncate(k);
    proof {
        assert(r@ =~= z1.update(off + 1, high).take(k as int));
    }
    r
}

/// Two to the power `k`.
pub fn pow2_u64(k: u32) -> (r: u64)
    requires
        k < 64,
    ensures
        r as nat == pow2(k as nat),
{
    proof {
        crate::bits::lemma_u64_one_shl(k);
    }
    1u64 << k
}

/// Encodes the integer part of a double in two's complement of `bits` bits.
pub fn encode_custom_int_limbs_from_double(val: F64Bits, bits: u32) -> (r: Vec<u64>)
    requires
        bits <= u32::MAX - 63,
    ensures
        r@.len() == limb_count(bits as nat),
        limbs_nat(r@) as int == f64_integer(val) % pow2(bits as nat) as int,
{
    let k: usize = count_limbs(bits);
    proof {
        lemma_pow2_pos(bits as nat);
        lemma_small_mod(0, pow2(bits as nat));
    }
    if is_zero(val) || is_nan(val) || is_infinite(val) {
        return zero_limbs(k);
    }
    let (s, w) = sig_and_weight(val);
    let mut limbs: Vec<u64> = if w >= 0 {
        shifted_limbs(s, w as u32, k)
    } else {
        let whole: u64 = if w <= -54 {
            proof {
                lemma2_to64_rest();
                lemma_pow2_le(54, (-w) as nat);
                lemma_basic_div(s as int, pow2((-w) as nat) as int);
            }
            0
        } else {
            proof {
                lemma_u64_shr(s, (-w) as u32);
                lemma_pow2_pos((-w) as nat);
                lemma_div_nonincreasing(s as int, pow2((-w) as nat) as int);
            }
            s >> ((-w) as u32)
        };
        proof {
            lemma2_to64();
        }
        shifted_limbs(whole, 0, k)
    };
    let ghost mag = f64_floor_magnitude(val) as int;
    let ghost m = pow2((64 * k) as nat);
    proof {
        assert(limbs_nat(limbs@) as int == mag % (m as int));
        lemma_pow2_pos((64 * k) as nat);
    }
    if is_negative(val) {
        negate(&mut limbs);
        proof {
            lemma_sub_mod_noop(0, mag, m as int);
            lemma_sub_mod_noop(0, mag % (m as int), m as int);
            lemma_mod_twice(mag, m as int);
        }
    }
    proof {
        assert(limbs_nat(limbs@) as int == f64_integer(val) % (m as int));
        lemma_mod_pow2_mod(f64_integer(val), bits as nat, (64 * k) as nat);
    }
    trim_top(&mut limbs, bits);
    limbs
}

// ─── Decoding ────────────────────────────────────────────────────────────────

/// The sign bit of a limb string of `bits` bits.
pub open spec fn limbs_negative(limbs: Seq<u64>, bits: nat) -> bool {
    limb_bit(limbs, (bits - 1) as nat)
}

fn sign_bit(limbs: &[u64], bits: u32) -> (r: bool)
    requires
        bits >= 1,
    ensures
        r == limbs_negative(limbs@, bits as nat),
{
    let sign_limb_idx: usize = ((bits - 1) / 64) as usize;
    let sign_bit_idx: u32 = (bits - 1) % 64;
    sign_limb_idx < limbs.len() && word_bit(limbs[sign_limb_idx], sign_bit_idx)
}

/// The limbs of the magnitude of a negative limb string: its two's complement,
/// with the last limb cut to the `bits % 64` bits that are in use, if any are
/// not.
pub open spec fn magnitude_limbs(limbs: Seq<u64>, bits: nat) -> Seq<u64> {
    let k = limbs.len();
    let t = limbs_of(((-limbs_nat(limbs)) % pow2((64 * k) as nat) as int) as nat, k);
    if bits % 64 > 0 && k > 0 {
        t.update(k - 1, (t[k - 1] as nat % pow2(bits % 64)) as u64)
    } else {
        t
    }
}

fn negated_magnitude(limbs: &[u64], bits: u32) -> (temp: Vec<u64>)
    ensures
        temp@ == magnitude_limbs(limbs@, bits as nat),
        temp@.len() == limbs@.len(),
        limbs@.len() > 0 ==> temp@[0] as int == if limbs@.len() == 1 && bits % 64 > 0 {
            ((-limbs@[0]) % 0x1_0000_0000_0000_0000) % pow2((bits % 64) as nat) as int
        } else {
            (-limbs@[0]) % 0x1_0000_0000_0000_0000
        },
{
    let mut temp: Vec<u64> = copy_limbs(limbs);
    let k: usize = temp.len();
    negate(&mut temp);
    proof {
        let m = pow2((64 * k) as nat) as int;
        lemma_pow2_pos((64 * k) as nat);
        lemma_mod_bound(-limbs_nat(limbs@), m);
        lemma_limbs_are(temp@, ((-limbs_nat(limbs@)) % m) as nat, k as nat);
    }
    let r: u32 = bits % 64;
    let ghost t = temp@;
    if r > 0 && k > 0 {
        let w: u64 = word_low(temp[k - 1], r);
        temp.set(k - 1, w);
        assert(temp@ =~= t.update(k - 1, w));
    }
    temp
}

/// A copy of a limb string.
pub fn copy_limbs(limbs: &[u64]) -> (r: Vec<u64>)
    ensures
        r@ == limbs@,
{
    let mut r: Vec<u64> = Vec::with_capacity(limbs.len());
    let mut i: usize = 0;
    while i < limbs.len()
        invariant
            i <= limbs@.len(),
            r@ =~= limbs@.take(i as int),
        decreases limbs@.len() - i,
    {
        r.push(limbs[i]);
        i = i + 1;
    }
    assert(limbs@.take(i as int) =~= limbs@);
    r
}

/// What the low word of a limb string of `bits` bits is read as: the low 64
/// bits of the number, or the number itself where it takes part of one word.
pub open spec fn decoded_int(limbs: Seq<u64>, bits: nat) -> int {
    if limbs.len() == 0 {
        0
    } else if limbs.len() == 1 && bits % 64 > 0 && limbs_negative(limbs, bits) {
        -((-limbs[0]) % pow2(bits % 64) as int)
    } else {
        wrap_i64(limbs[0] as int)
    }
}

pub proof fn lemma_u64_as_i64(x: u64)
    ensures
        (x as i64) as int == wrap_i64(x as int),
{
    assert(x < 0x8000_0000_0000_0000 ==> (x as i64) == x) by (bit_vector);
    assert(x >= 0x8000_0000_0000_0000 ==> (x as i64) == x - 0x1_0000_0000_0000_0000)
        by (bit_vector);
}

pub proof fn lemma_i64_as_u64(v: i64)
    ensures
        (v as u64) as int == (v as int) % 0x1_0000_0000_0000_0000,
{
    assert(v >= 0 ==> (v as u64) == v) by (bit_vector);
    assert(v < 0 ==> (v as u64) == v + 0x1_0000_0000_0000_0000) by (bit_vector);
}

/// Decodes a limb string of `bits` bits to the low 64 bits of its value.
pub fn decode_custom_int_limbs(limbs: &[u64], bits: u32) -> (r: i64)
    requires
        limbs@.len() > 0 ==> bits >= 1,
    ensures
        r as int == decoded_int(limbs@, bits as nat),
{
    if limbs.len() == 0 {
        return 0;
    }
    proof {
        lemma_u64_as_i64(limbs@[0]);
    }
    if !sign_bit(limbs, bits) {
        limbs[0] as i64
    } else {
        let temp: Vec<u64> = negated_magnitude(limbs, bits);
        proof {
            lemma_u64_as_i64(temp@[0]);
            let l = limbs@[0] as int;
            if limbs@.len() == 1 && bits % 64 > 0 {
                lemma_pow2_64();
                lemma_mod_pow2_mod(-l, (bits % 64) as nat, 64);
                lemma_pow2_le((bits % 64) as nat, 63);
                lemma_mod_bound(-l, pow2((bits % 64) as nat) as int);
            }
        }
        let abs_val: i64 = temp[0] as i64;
        if abs_val == i64::MIN {
            i64::MIN
        } else {
            -abs_val
        }
    }
}

// ─── Widening ────────────────────────────────────────────────────────────────

/// Bit `j` of a limb string after its extension from `from_bits` bits.
pub open spec fn extended_bit(limbs: Seq<u64>, from_bits: nat, j: nat) -> bool {
    if j < from_bits {
        limb_bit(limbs, j)
    } else {
        limbs_negative(limbs, from_bits) || (j < 64 * limb_count(from_bits) && limb_bit(limbs, j))
    }
}

/// A limb string after its extension from `from_bits` bits to `to_bits` bits.
pub open spec fn extended_limbs(limbs: Seq<u64>, from_bits: nat, to_bits: nat) -> Seq<u64> {
    Seq::new(
        limb_count(to_bits),
        |i: int|
            bits_nat(
                |t: nat|
                    64 * i + t < to_bits && extended_bit(limbs, from_bits, (64 * i + t) as nat),
                64,
            ) as u64,
    )
}

/// The limb string with given bits.
pub proof fn lemma_extended_limbs(limbs: Seq<u64>, from_bits: nat, to_bits: nat, res: Seq<u64>)
    requires
        res.len() == limb_count(to_bits),
        forall|j: nat|
            #[trigger] limb_bit(res, j) == (j < to_bits && extended_bit(limbs, from_bits, j)),
    ensures
        res == extended_limbs(limbs, from_bits, to_bits),
{
    let want = extended_limbs(limbs, from_bits, to_bits);
    assert forall|i: int| 0 <= i < res.len() implies res[i] == want[i] by {
        let p = |t: nat|
            64 * i + t < to_bits && extended_bit(limbs, from_bits, (64 * i + t) as nat);
        lemma_pow2_64();
        assert forall|t: nat| t < 64 implies #[trigger] nat_bit(res[i] as nat, t) == p(t) by {
            let j = (64 * i + t) as nat;
            assert(j / 64 == i && j % 64 == t);
            assert(limb_bit(res, j) == (j < to_bits && extended_bit(limbs, from_bits, j)));
        }
        lemma_bits_nat_unique(p, 64, res[i] as nat);
    }
    assert(res =~= want);
}

proof fn lemma_fill_high(x: u64, r: u32, t: u32)
    requires
        r < 64,
        t < 64,
    ensures
        nat_bit((x | (u64::MAX << r)) as nat, t as nat) == (t >= r || nat_bit(x as nat, t as nat)),
{
    lemma_u64_bit(x, t);
    lemma_u64_bit(x | (u64::MAX << r), t);
    assert(r < 64 && t < 64 ==> (((x | (0xffff_ffff_ffff_ffffu64 << r)) >> t) & 1) == if t >= r {
        1u64
    } else {
        (x >> t) & 1
    }) by (bit_vector);
}

proof fn lemma_all_ones(t: nat)
    requires
        t < 64,
    ensures
        nat_bit(u64::MAX as nat, t),
{
    let k = t as u32;
    lemma_u64_bit(u64::MAX, k);
    assert(k < 64 ==> ((0xffff_ffff_ffff_ffffu64 >> k) & 1) == 1) by (bit_vector);
}

/// Extends a limb string of `from_bits` bits, or cuts it, to `to_bits` bits,
/// repeating its sign.
pub fn extend_limbs(limbs: &[u64], from_bits: u32, to_bits: u32) -> (res: Vec<u64>)
    requires
        1 <= from_bits <= u32::MAX - 63,
        to_bits <= u32::MAX - 63,
    ensures
        res@ == extended_limbs(limbs@, from_bits as nat, to_bits as nat),
        res@.len() == limb_count(to_bits as nat),
        forall|j: nat|
            #[trigger] limb_bit(res@, j) == (j < to_bits && extended_bit(
                limbs@,
                from_bits as nat,
                j,
            )),
{
    let from_k: usize = count_limbs(from_bits);
    let to_k: usize = count_limbs(to_bits);
    let negative: bool = sign_bit(limbs, from_bits);
    let r: u32 = from_bits % 64;
    let mut res: Vec<u64> = Vec::with_capacity(to_k);
    let mut i: usize = 0;
    while i < to_k
        invariant
            i <= to_k,
            res@.len() == i,
            from_k == limb_count(from_bits as nat),
            r == from_bits % 64,
            1 <= from_bits,
            negative == limbs_negative(limbs@, from_bits as nat),
            forall|j: nat|
                j < 64 * i ==> #[trigger] limb_bit(res@, j) == extended_bit(
                    limbs@,
                    from_bits as nat,
                    j,
                ),
        decreases to_k - i,
    {
        let x: u64 = if i < from_k {
            let raw: u64 = limb_at(limbs, i);
            if negative && i == from_k - 1 && r > 0 {
                raw | (u64::MAX << r)
            } else {
                raw
            }
        } else if negative {
            u64::MAX
        } else {
            0
        };
        let ghost pre = res@;
        res.push(x);
        proof {
            assert forall|j: nat| j < 64 * (i + 1) implies #[trigger] limb_bit(res@, j)
                == extended_bit(limbs@, from_bits as nat, j) by {
                let t = j % 64;
                if j < 64 * i {
                    assert(limb_bit(pre, j) == extended_bit(limbs@, from_bits as nat, j));
                    assert(res@[(j / 64) as int] == pre[(j / 64) as int]);
                } else {
                    assert(j / 64 == i);
                    lemma_zero_bit(t);
                    if i < from_k {
                        let raw = if i < limbs@.len() {
                            limbs@[i as int]
                        } else {
                            0u64
                        };
                        assert(limb_bit(limbs@, j) == nat_bit(raw as nat, t));
                        if negative && i == from_k - 1 && r > 0 {
                            lemma_fill_high(raw, r, t as u32);
                            assert(j >= from_bits <==> t >= r);
                        } else if negative {
                            assert(j < from_bits);
                        }
                    } else if negative {
                        lemma_all_ones(t);
                    }
                }
            }
        }
        i = i + 1;
    }
    let ghost full = res@;
    trim_top(&mut res, to_bits);
    proof {
        let n = limbs_nat(full);
        assert forall|j: nat| #[trigger] limb_bit(res@, j) == (j < to_bits && extended_bit(
            limbs@,
            from_bits as nat,
            j,
        )) by {
            lemma_limbs_bit(res@, j);
            lemma_limbs_bit(full, j);
            lemma2_to64();
            assert(n / 1 == n);
            lemma_field_bit(n, 0, to_bits as nat, j);
            if j < to_bits {
                assert(j < 64 * to_k);
                assert(limb_bit(full, j) == extended_bit(limbs@, from_bits as nat, j));
            }
        }
        lemma_extended_limbs(limbs@, from_bits as nat, to_bits as nat, res@);
    }
    res
}

proof fn lemma_zero_bit(t: nat)
    ensures
        !nat_bit(0, t),
{
    lemma_pow2_pos(t);
    lemma_div_of0(pow2(t) as int);
}

// ─── Conversion to doubles ───────────────────────────────────────────────────

/// The sum, from the low end on, of the first `n` limbs as doubles, each scaled
/// to its place.
pub open spec fn limbs_as_double<F: Fn(FloatOp, u64, u64) -> u64>(f: F, s: Seq<u64>, n: nat) -> u64
    decreases n,
{
    if n == 0 {
        0
    } else {
        float_answer(
            f,
            FloatOp::Add,
            limbs_as_double(f, s, (n - 1) as nat),
            float_answer(
                f,
                FloatOp::Mul,
                f64_of_nat(false, s[n - 1] as nat),
                f64_scaled(false, 0, 64 * (n - 1)),
            ),
        )
    }
}

/// A double with its sign turned.
pub open spec fn f64_negated(b: u64) -> u64 {
    if b >= 0x8000_0000_0000_0000 {
        (b - 0x8000_0000_0000_0000) as u64
    } else {
        (b + 0x8000_0000_0000_0000) as u64
    }
}

/// The value of a limb string of `bits` bits as a double.
pub open spec fn int_limbs_double<F: Fn(FloatOp, u64, u64) -> u64>(
    f: F,
    limbs: Seq<u64>,
    bits: nat,
) -> u64 {
    if limbs.len() == 0 {
        0
    } else if limbs_negative(limbs, bits) {
        f64_negated(limbs_as_double(f, magnitude_limbs(limbs, bits), limbs.len()))
    } else {
        limbs_as_double(f, limbs, limbs.len())
    }
}

fn sum_limbs<F: Fn(FloatOp, u64, u64) -> u64>(limbs: &[u64], f: &F) -> (r: F64Bits)
    requires
        is_float_unit(*f),
        limbs@.len() <= 0x200_0000,
    ensures
        r == limbs_as_double(*f, limbs@, limbs@.len()),
{
    let mut val: u64 = 0;
    let mut i: usize = 0;
    while i < limbs.len()
        invariant
            is_float_unit(*f),
            limbs@.len() <= 0x200_0000,
            i <= limbs@.len(),
            val == limbs_as_double(*f, limbs@, i as nat),
        decreases limbs@.len() - i,
    {
        let place: u64 = scaled(false, 0, 64 * (i as i64));
        let term: u64 = ask(f, FloatOp::Mul, f64_from_u64(false, limbs[i]), place);
        val = ask(f, FloatOp::Add, val, term);
        i = i + 1;
    }
    val
}

/// Decodes a limb string of `bits` bits to a double.
pub fn decode_custom_int_limbs_to_double<F: Fn(FloatOp, u64, u64) -> u64>(
    limbs: &[u64],
    bits: u32,
    f: &F,
) -> (r: F64Bits)
    requires
        is_float_unit(*f),
        limbs@.len() > 0 ==> bits >= 1,
        limbs@.len() <= 0x200_0000,
    ensures
        r == int_limbs_double(*f, limbs@, bits as nat),
{
    if limbs.len() == 0 {
        return 0;
    }
    if !sign_bit(limbs, bits) {
        sum_limbs(limbs, f)
    } else {
        let temp: Vec<u64> = negated_magnitude(limbs, bits);
        let abs_val: u64 = sum_limbs(temp.as_slice(), f);
        if abs_val >= 0x8000_0000_0000_0000 {
            abs_val - 0x8000_0000_0000_0000
        } else {
            abs_val + 0x8000_0000_0000_0000
        }
    }
}

} // verus!
