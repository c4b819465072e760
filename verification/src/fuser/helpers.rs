//! What compiled kernels call for each element: packed loads and stores, codes
//! and doubles, and arithmetic on 128 bits.

use crate::bits;
use crate::bits::{bits_nat, byte_bit, lemma_bits_nat_unique, nat_bit};
use crate::elements::{wide_scalar_from_double, wide_value_scalar};
use crate::hardware::{read_bits, write_bits};
use crate::limbs::{limb_at, split_u128};
use crate::soft_float::{is_float_unit, F64Bits, FloatOp};
use crate::types::{
    codable, dtype_width, limbs_scalar, scalar_double, scalar_limbs, DataType, Scalar,
};
use vstd::arithmetic::div_mod::*;
use vstd::arithmetic::mul::*;
use vstd::arithmetic::power2::*;
use vstd::prelude::*;

verus! {

// ─── Packed loads and stores ─────────────────────────────────────────────────

/// That a width is stored as one plain machine word, whose limb index does not
/// matter.
pub open spec fn plain_width(w: u32) -> bool {
    w == 8 || w == 16 || w == 32 || w == 64
}

/// Where limb `limb` of element `i` starts in a packed buffer.
pub open spec fn limb_start(i: nat, w: u32, limb: u32) -> nat {
    if plain_width(w) {
        i * w as nat
    } else {
        i * w as nat + 64 * limb as nat
    }
}

/// How many bits limb `limb` of an element of width `w` has.
pub open spec fn limb_len(w: u32, limb: u32) -> nat {
    if plain_width(w) {
        w as nat
    } else if w as nat >= 64 * limb as nat + 64 {
        64
    } else if w as nat > 64 * limb as nat {
        (w - 64 * limb) as nat
    } else {
        0
    }
}

/// Limb `limb` of element `i` of a packed buffer.
pub open spec fn loaded(buf: Seq<u8>, i: nat, w: u32, limb: u32) -> u64 {
    bits_nat(|t: nat| byte_bit(buf, limb_start(i, w, limb) + t), limb_len(w, limb)) as u64
}

/// That element `i` lies in a packed buffer, and that a limb of a width made of
/// whole limbs is one of them.
pub open spec fn in_buffer(len: nat, i: nat, w: u32, limb: u32) -> bool {
    &&& (i + 1) * w as nat <= 8 * len
    &&& (i + 1) * w as nat <= usize::MAX
    &&& w > 64 && w % 64 == 0 ==> limb < w / 64
}

proof fn lemma_limb_inside(i: nat, w: u32, limb: u32)
    ensures
        limb_len(w, limb) <= 64,
        limb_len(w, limb) > 0 ==> limb_start(i, w, limb) + limb_len(w, limb) <= (i + 1) * w as nat,
        (i + 1) * w as nat == i * w as nat + w as nat,
{
    lemma_mul_is_distributive_add_other_way(w as int, i as int, 1);
}

fn span_of(i: usize, bit_width: u32, limb_idx: u32) -> (r: (usize, u32))
    requires
        (i + 1) * bit_width <= usize::MAX,
    ensures
        limb_len(bit_width, limb_idx) > 0 ==> r.0 as nat == limb_start(
            i as nat,
            bit_width,
            limb_idx,
        ),
        r.1 as nat == limb_len(bit_width, limb_idx),
        r.0 + r.1 <= (i + 1) * bit_width,
        r.1 <= 64,
{
    proof {
        lemma_limb_inside(i as nat, bit_width, limb_idx);
    }
    let base: usize = i * bit_width as usize;
    if bit_width == 8 || bit_width == 16 || bit_width == 32 || bit_width == 64 {
        (base, bit_width)
    } else {
        let off: u64 = 64 * limb_idx as u64;
        if off >= bit_width as u64 {
            (base, 0)
        } else {
            let rest: u32 = bit_width - off as u32;
            let len: u32 = if rest >= 64 {
                64
            } else {
                rest
            };
            (base + off as usize, len)
        }
    }
}

/// Loads limb `limb_idx` of element `i` of a packed buffer.
pub fn helper_load_u64(buf: &[u8], i: usize, bit_width: u32, limb_idx: u32) -> (r: u64)
    requires
        in_buffer(buf@.len(), i as nat, bit_width, limb_idx),
    ensures
        r == loaded(buf@, i as nat, bit_width, limb_idx),
{
    let (start, len) = span_of(i, bit_width, limb_idx);
    let r: u64 = read_bits(buf, start, len);
    proof {
        let p = |t: nat| byte_bit(buf@, limb_start(i as nat, bit_width, limb_idx) + t);
        let q = |t: nat| byte_bit(buf@, start as nat + t);
        if len > 0 {
            assert(p =~= q);
        }
    }
    r
}

/// Stores limb `limb_idx` of element `i` into a packed buffer: the bits of the
/// limb change, no others.
pub fn helper_store_u64(buf: &mut Vec<u8>, i: usize, bit_width: u32, limb_idx: u32, val: u64)
    requires
        in_buffer(old(buf)@.len(), i as nat, bit_width, limb_idx),
    ensures
        final(buf)@.len() == old(buf)@.len(),
        forall|j: nat|
            #[trigger] byte_bit(final(buf)@, j) == if limb_start(i as nat, bit_width, limb_idx)
                <= j < limb_start(i as nat, bit_width, limb_idx) + limb_len(bit_width, limb_idx) {
                nat_bit(val as nat, (j - limb_start(i as nat, bit_width, limb_idx)) as nat)
            } else {
                byte_bit(old(buf)@, j)
            },
{
    let (start, len) = span_of(i, bit_width, limb_idx);
    write_bits(buf, start, len, val);
}

/// A stored limb is loaded back, cut to its bits.
pub proof fn law_load_of_store(
    before: Seq<u8>,
    after: Seq<u8>,
    i: nat,
    w: u32,
    limb: u32,
    val: u64,
)
    requires
        forall|j: nat|
            #[trigger] byte_bit(after, j) == if limb_start(i, w, limb) <= j < limb_start(i, w, limb)
                + limb_len(w, limb) {
                nat_bit(val as nat, (j - limb_start(i, w, limb)) as nat)
            } else {
                byte_bit(before, j)
            },
    ensures
        loaded(after, i, w, limb) as nat == val as nat % pow2(limb_len(w, limb)),
{
    let n = limb_len(w, limb);
    let p = |t: nat| byte_bit(after, limb_start(i, w, limb) + t);
    let x = val as nat % pow2(n);
    lemma_limb_inside(i, w, limb);
    lemma_pow2_pos(n);
    lemma_mod_bound(val as int, pow2(n) as int);
    bits::lemma_pow2_le(n, 64);
    bits::lemma_pow2_64();
    assert forall|t: nat| t < n implies #[trigger] nat_bit(x, t) == p(t) by {
        lemma2_to64();
        assert(val as nat / 1 == val as nat);
        crate::limbs::lemma_field_bit(val as nat, 0, n, t);
        assert(byte_bit(after, limb_start(i, w, limb) + t) == nat_bit(val as nat, t));
    }
    lemma_bits_nat_unique(p, n, x);
}

// ─── Codes and doubles ───────────────────────────────────────────────────────

/// The number of a type in calls between kernels and helpers.
pub open spec fn type_code(d: DataType) -> u32 {
    match d {
        DataType::Float(_) => 0,
        DataType::Int(_) => 1,
        DataType::DynamicFloat => 2,
        DataType::FloatingInt => 3,
        DataType::ScalableInt(_) => 4,
        DataType::ScalableFloat(_, _) => 5,
    }
}

/// The type with the given number, width and exponent width.
pub open spec fn coded_type(code: u32, b: u32, e: u32) -> DataType {
    if code == 0 {
        DataType::Float(b)
    } else if code == 1 {
        DataType::Int(b)
    } else if code == 3 {
        DataType::FloatingInt
    } else if code == 4 {
        DataType::ScalableInt(b)
    } else if code == 5 {
        DataType::ScalableFloat(b, e)
    } else {
        DataType::DynamicFloat
    }
}

/// The number of a type.
pub fn dtype_code(d: DataType) -> (r: u32)
    ensures
        r == type_code(d),
{
    match d {
        DataType::Float(_) => 0,
        DataType::Int(_) => 1,
        DataType::DynamicFloat => 2,
        DataType::FloatingInt => 3,
        DataType::ScalableInt(_) => 4,
        DataType::ScalableFloat(_, _) => 5,
    }
}

/// The type with the given number, width and exponent width.
pub fn dtype_from_code(code: u32, bits: u32, e: u32) -> (r: DataType)
    ensures
        r == coded_type(code, bits, e),
{
    match code {
        0 => DataType::Float(bits),
        1 => DataType::Int(bits),
        2 => DataType::DynamicFloat,
        3 => DataType::FloatingInt,
        4 => DataType::ScalableInt(bits),
        5 => DataType::ScalableFloat(bits, e),
        _ => DataType::DynamicFloat,
    }
}

/// A type is found again by its number, width and exponent width.
pub proof fn law_type_code(d: DataType, e: u32)
    requires
        d matches DataType::ScalableFloat(_, x) ==> x == e,
    ensures
        coded_type(type_code(d), dtype_width(d), e) == d,
{
}

/// The double that two limbs stand for.
pub fn helper_decode_to_f64<F: Fn(FloatOp, u64, u64) -> u64>(
    limb0: u64,
    limb1: u64,
    dtype_code: u32,
    bits: u32,
    e: u32,
    scale: u32,
    steal_sign_val: u8,
    f: &F,
) -> (r: F64Bits)
    requires
        is_float_unit(*f),
        codable(coded_type(dtype_code, bits, e), steal_sign_val != 0),
    ensures
        r == scalar_double(
            *f,
            limbs_scalar(
                seq![limb0, limb1],
                coded_type(dtype_code, bits, e),
                Some(scale),
                steal_sign_val != 0,
            ),
        ),
{
    let steal_sign: bool = steal_sign_val != 0;
    let limbs: [u64; 2] = [limb0, limb1];
    let dtype: DataType = dtype_from_code(dtype_code, bits, e);
    assert(limbs@ =~= seq![limb0, limb1]);
    let s: Scalar = Scalar::from_limbs(limbs.as_slice(), dtype, Some(scale), steal_sign);
    s.to_double(f)
}

/// A limb of the code of a double.
pub fn helper_encode_from_f64<F: Fn(FloatOp, u64, u64) -> u64>(
    val: F64Bits,
    dtype_code: u32,
    bits: u32,
    e: u32,
    scale: u32,
    steal_sign_val: u8,
    limb_idx: u32,
    f: &F,
) -> (r: u64)
    requires
        is_float_unit(*f),
        codable(coded_type(dtype_code, bits, e), steal_sign_val != 0),
    ensures
        ({
            let limbs = scalar_limbs(
                wide_value_scalar(*f, val, coded_type(dtype_code, bits, e), Some(scale)),
                steal_sign_val != 0,
            );
            r == if limb_idx < limbs.len() {
                limbs[limb_idx as int]
            } else {
                0u64
            }
        }),
{
    let steal_sign: bool = steal_sign_val != 0;
    let dtype: DataType = dtype_from_code(dtype_code, bits, e);
    proof {
        crate::elements::lemma_value_limbs_len(*f, val, dtype, Some(scale), steal_sign, true);
    }
    let s: Scalar = wide_scalar_from_double(val, dtype, Some(scale), f);
    let limbs: Vec<u64> = s.to_limbs(steal_sign);
    limb_at(limbs.as_slice(), limb_idx as usize)
}

// ─── Arithmetic on 128 bits ──────────────────────────────────────────────────

/// A number of two words.
pub open spec fn wide_word(lo: u64, hi: u64) -> nat {
    lo as nat + 0x1_0000_0000_0000_0000 * hi as nat
}

/// The low word of a number, or the next one.
pub open spec fn half_word(n: int, limb: u32) -> u64 {
    if limb == 0 {
        (n % 0x1_0000_0000_0000_0000) as u64
    } else {
        ((n / 0x1_0000_0000_0000_0000) % 0x1_0000_0000_0000_0000) as u64
    }
}

fn join_u128(lo: u64, hi: u64) -> (r: u128)
    ensures
        r as nat == wide_word(lo, hi),
{
    lo as u128 + 0x1_0000_0000_0000_0000u128 * hi as u128
}

fn pick_half(n: u128, limb: u32) -> (r: u64)
    ensures
        r == half_word(n as int, limb),
{
    let (lo, hi) = split_u128(n);
    if limb == 0 {
        lo
    } else {
        hi
    }
}

/// The four operations of arithmetic.
#[derive(Debug, Clone, Copy, PartialEq, Eq, Structural)]
pub enum ArithOp {
    Add,
    Sub,
    Mul,
    Div,
}

/// The result of an operation on 128 bits: modulo `2^128`, without sign, and
/// zero for a zero divisor.
pub open spec fn wide_result(op: ArithOp, l: nat, r: nat) -> int {
    let m = 0x1_0000_0000_0000_0000_0000_0000_0000_0000int;
    match op {
        ArithOp::Add => (l + r) as int % m,
        ArithOp::Sub => (l - r) % m,
        ArithOp::Mul => (l * r) as int % m,
        ArithOp::Div => if r == 0 {
            0
        } else {
            (l / r) as int
        },
    }
}

/// A word of the sum of two numbers of two words.
pub fn helper_add_i128(l0: u64, l1: u64, r0: u64, r1: u64, limb: u32) -> (r: u64)
    ensures
        r == half_word(wide_result(ArithOp::Add, wide_word(l0, l1), wide_word(r0, r1)), limb),
{
    let l: u128 = join_u128(l0, l1);
    let r: u128 = join_u128(r0, r1);
    let res: u128 = l.wrapping_add(r);
    pick_half(res, limb)
}

/// A word of the difference of two numbers of two words.
pub fn helper_sub_i128(l0: u64, l1: u64, r0: u64, r1: u64, limb: u32) -> (r: u64)
    ensures
        r == half_word(wide_result(ArithOp::Sub, wide_word(l0, l1), wide_word(r0, r1)), limb),
{
    let l: u128 = join_u128(l0, l1);
    let r: u128 = join_u128(r0, r1);
    let res: u128 = l.wrapping_sub(r);
    pick_half(res, limb)
}

/// A word of the product of two numbers of two words.
pub fn helper_mul_i128(l0: u64, l1: u64, r0: u64, r1: u64, limb: u32) -> (r: u64)
    ensures
        r == half_word(wide_result(ArithOp::Mul, wide_word(l0, l1), wide_word(r0, r1)), limb),
{
    let l: u128 = join_u128(l0, l1);
    let r: u128 = join_u128(r0, r1);
    let res: u128 = l.wrapping_mul(r);
    pick_half(res, limb)
}

/// A word of the quotient of two numbers of two words, zero for a zero divisor.
pub fn helper_div_i128(l0: u64, l1: u64, r0: u64, r1: u64, limb: u32) -> (r: u64)
    ensures
        r == half_word(wide_result(ArithOp::Div, wide_word(l0, l1), wide_word(r0, r1)), limb),
{
    let l: u128 = join_u128(l0, l1);
    let r: u128 = join_u128(r0, r1);
    let res: u128 = if r == 0 {
        0
    } else {
        l / r
    };
    pick_half(res, limb)
}

} // verus!
