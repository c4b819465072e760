//! Element types, scalars and their packed codes.

pub mod float_codec;
pub mod int_codec;
pub mod laws;
pub mod wide_laws;

pub use crate::types::float_codec::{
    compute_scalable_float_config, decode_custom_float, decode_custom_float_limbs,
    decode_custom_float_with_e, encode_custom_float, encode_custom_float_limbs,
    encode_custom_float_with_e,
};
pub use crate::types::int_codec::{
    compute_scalable_int_bits, decode_custom_int_limbs, decode_custom_int_limbs_to_double,
    encode_custom_int_limbs, encode_custom_int_limbs_from_double, extend_limbs,
};

use crate::bits;
use crate::bits::{limb_count, limbs_nat, signed_value, word_low};
use crate::limbs::limbs_of;
use crate::soft_float::{
    ask, f64_from_i64, f64_of_int, f64_rounded, float_answer, is_float_unit, rounded, F64Bits,
    FloatOp,
};
use crate::types::float_codec::{
    float_code, float_exponent_width, float_layout, float_value, float_value_wide,
};
use crate::types::int_codec::{copy_limbs, extended_limbs, int_limbs_double, pow2_u64};
use vstd::arithmetic::power2::*;
use vstd::prelude::*;

verus! {

/// The type of an element, with its width in bits where that can vary.
#[derive(Debug, Clone, Copy, PartialEq, Eq, Structural)]
pub enum DataType {
    /// A float of the given width.
    Float(u32),
    /// A two's complement integer of the given width.
    Int(u32),
    /// A double in the custom float code.
    DynamicFloat,
    /// A fixed-point number: an integer with a decimal scale.
    FloatingInt,
    /// An integer whose width follows its values.
    ScalableInt(u32),
    /// A float whose width and exponent width follow its values.
    ScalableFloat(u32, u32),
}

/// A single value with its type. Doubles are held as their bit patterns.
#[derive(Debug, PartialEq)]
pub enum Scalar {
    /// Value and width.
    Float(F64Bits, u32),
    /// Value and width.
    Int(i64, u32),
    /// Value.
    DynamicFloat(F64Bits),
    /// A fixed-point number `value * 10^-scale`.
    FloatingInt { value: i64, scale: u32 },
    /// Value and current width.
    ScalableInt(i64, u32),
    /// Value, current width and current exponent width.
    ScalableFloat(F64Bits, u32, u32),
    /// A two's complement integer of any width.
    IntLimbs(Vec<u64>, u32),
    /// A scalable integer of any width.
    ScalableIntLimbs(Vec<u64>, u32),
}

/// What a `Scalar` holds.
#[verifier::ext_equal]
pub enum ScalarView {
    Float(u64, u32),
    Int(i64, u32),
    DynamicFloat(u64),
    FloatingInt { value: i64, scale: u32 },
    ScalableInt(i64, u32),
    ScalableFloat(u64, u32, u32),
    IntLimbs(Seq<u64>, u32),
    ScalableIntLimbs(Seq<u64>, u32),
}

impl View for Scalar {
    type V = ScalarView;

    open spec fn view(&self) -> ScalarView {
        match *self {
            Scalar::Float(v, b) => ScalarView::Float(v, b),
            Scalar::Int(v, b) => ScalarView::Int(v, b),
            Scalar::DynamicFloat(v) => ScalarView::DynamicFloat(v),
            Scalar::FloatingInt { value, scale } => ScalarView::FloatingInt { value, scale },
            Scalar::ScalableInt(v, b) => ScalarView::ScalableInt(v, b),
            Scalar::ScalableFloat(v, b, e) => ScalarView::ScalableFloat(v, b, e),
            Scalar::IntLimbs(l, b) => ScalarView::IntLimbs(l@, b),
            Scalar::ScalableIntLimbs(l, b) => ScalarView::ScalableIntLimbs(l@, b),
        }
    }
}

// ─── Widths ──────────────────────────────────────────────────────────────────

/// The width of an element.
pub open spec fn dtype_width(d: DataType) -> u32 {
    match d {
        DataType::Float(b) => b,
        DataType::Int(b) => b,
        DataType::ScalableInt(b) => b,
        DataType::ScalableFloat(b, _) => b,
        DataType::DynamicFloat => 64,
        DataType::FloatingInt => 64,
    }
}

/// The exponent width of a float of more than 64 bits.
pub open spec fn wide_exponent_width(bits: u32) -> u32 {
    if bits <= 128 {
        15
    } else {
        19
    }
}

/// The largest width whose limbs can be counted in 32 bits.
pub open spec fn countable(bits: u32) -> bool {
    bits <= u32::MAX - 63
}

/// That elements of a type can be coded with or without a sign bit.
pub open spec fn codable(d: DataType, steal_sign: bool) -> bool {
    match d {
        DataType::Float(b) => countable(b) && (b <= 64 ==> float_layout(
            b as nat,
            float_exponent_width(b) as nat,
            steal_sign,
        )),
        DataType::Int(b) => countable(b) && b >= 1,
        DataType::ScalableInt(b) => countable(b) && b >= 1,
        DataType::ScalableFloat(b, e) => {
            &&& countable(b)
            &&& float_layout(b as nat, e as nat, steal_sign)
            &&& e <= if b <= 64 {
                30u32
            } else {
                32u32
            }
        },
        DataType::DynamicFloat => true,
        DataType::FloatingInt => true,
    }
}

impl DataType {
    /// The width of an element in bits.
    pub fn bit_width(&self) -> (r: u32)
        ensures
            r == dtype_width(*self),
    {
        match *self {
            DataType::Float(b) => b,
            DataType::Int(b) => b,
            DataType::ScalableInt(b) => b,
            DataType::ScalableFloat(b, _) => b,
            DataType::DynamicFloat => 64,
            DataType::FloatingInt => 64,
        }
    }
}

// ─── Codes ───────────────────────────────────────────────────────────────────

/// The type of a scalar.
pub open spec fn scalar_type(s: ScalarView) -> DataType {
    match s {
        ScalarView::Float(_, b) => DataType::Float(b),
        ScalarView::Int(_, b) => DataType::Int(b),
        ScalarView::DynamicFloat(_) => DataType::DynamicFloat,
        ScalarView::FloatingInt { .. } => DataType::FloatingInt,
        ScalarView::ScalableInt(_, b) => DataType::ScalableInt(b),
        ScalarView::ScalableFloat(_, b, e) => DataType::ScalableFloat(b, e),
        ScalarView::IntLimbs(_, b) => DataType::Int(b),
        ScalarView::ScalableIntLimbs(_, b) => DataType::ScalableInt(b),
    }
}

/// That a scalar can be written as limbs, with or without a sign bit.
pub open spec fn storable(s: ScalarView, steal_sign: bool) -> bool {
    match s {
        ScalarView::Float(_, b) => codable(DataType::Float(b), steal_sign),
        ScalarView::Int(_, b) => countable(b),
        ScalarView::ScalableInt(_, b) => countable(b),
        ScalarView::ScalableFloat(_, b, e) => {
            &&& countable(b)
            &&& float_layout(b as nat, e as nat, steal_sign)
            &&& e <= if b <= 64 {
                30u32
            } else {
                126u32
            }
        },
        _ => true,
    }
}

/// An integer as limbs of a type of width `b`: the whole low word for up to 64
/// bits, two's complement of `b` bits above.
pub open spec fn int_limbs(v: i64, b: u32) -> Seq<u64> {
    if b <= 64 {
        seq![(v as int % 0x1_0000_0000_0000_0000) as u64]
    } else {
        limbs_of((v as int % pow2(b as nat) as int) as nat, limb_count(b as nat))
    }
}

/// A double as limbs of a float type of width `b` with exponent width `e`.
pub open spec fn float_limbs(v: u64, b: u32, e: u32, steal_sign: bool) -> Seq<u64> {
    let code = float_code(v, b as nat, e as nat, steal_sign);
    if b <= 64 {
        seq![code as u64]
    } else {
        limbs_of(code, limb_count(b as nat))
    }
}

/// The exponent width of a float type of width `b`.
pub open spec fn standard_exponent_width(b: u32) -> u32 {
    if b <= 64 {
        float_exponent_width(b)
    } else {
        wide_exponent_width(b)
    }
}

/// The limbs of a scalar.
pub open spec fn scalar_limbs(s: ScalarView, steal_sign: bool) -> Seq<u64> {
    match s {
        ScalarView::Float(v, b) => float_limbs(v, b, standard_exponent_width(b), steal_sign),
        ScalarView::Int(v, b) => int_limbs(v, b),
        ScalarView::DynamicFloat(v) => float_limbs(v, 64, 11, steal_sign),
        ScalarView::FloatingInt { value, .. } => int_limbs(value, 64),
        ScalarView::ScalableInt(v, b) => int_limbs(v, b),
        ScalarView::ScalableFloat(v, b, e) => float_limbs(v, b, e, steal_sign),
        ScalarView::IntLimbs(l, _) => l,
        ScalarView::ScalableIntLimbs(l, _) => l,
    }
}

/// The first limb, or zero.
pub open spec fn first_limb(limbs: Seq<u64>) -> u64 {
    if limbs.len() > 0 {
        limbs[0]
    } else {
        0
    }
}

/// The double that limbs stand for under a float type.
pub open spec fn limbs_float(limbs: Seq<u64>, b: u32, e: u32, steal_sign: bool) -> u64 {
    if b <= 64 {
        float_value(first_limb(limbs) as nat, b as nat, e as nat, steal_sign)
    } else {
        float_value_wide(limbs_nat(limbs), b as nat, e as nat, steal_sign)
    }
}

/// The scalar that limbs stand for under a type.
pub open spec fn limbs_scalar(
    limbs: Seq<u64>,
    d: DataType,
    scale: Option<u32>,
    steal_sign: bool,
) -> ScalarView {
    let first = first_limb(limbs);
    match d {
        DataType::Float(b) => ScalarView::Float(
            limbs_float(limbs, b, standard_exponent_width(b), steal_sign),
            b,
        ),
        DataType::Int(b) => if b <= 64 {
            ScalarView::Int(signed_value(first as nat, b as nat) as i64, b)
        } else {
            ScalarView::IntLimbs(limbs, b)
        },
        DataType::DynamicFloat => ScalarView::DynamicFloat(
            float_value(first as nat, 64, 11, steal_sign),
        ),
        DataType::FloatingInt => ScalarView::FloatingInt {
            value: signed_value(first as nat, 64) as i64,
            scale: match scale {
                Some(s) => s,
                None => 1,
            },
        },
        DataType::ScalableInt(b) => if b <= 64 {
            ScalarView::ScalableInt(signed_value(first as nat, b as nat) as i64, b)
        } else {
            ScalarView::ScalableIntLimbs(limbs, b)
        },
        DataType::ScalableFloat(b, e) => ScalarView::ScalableFloat(
            limbs_float(limbs, b, e, steal_sign),
            b,
            e,
        ),
    }
}

/// The width from which a scalar is extended.
pub open spec fn extension_width(s: ScalarView) -> u32 {
    match s {
        ScalarView::Int(_, b) => b,
        ScalarView::IntLimbs(_, b) => b,
        ScalarView::ScalableInt(_, b) => b,
        ScalarView::ScalableIntLimbs(_, b) => b,
        _ => 64,
    }
}

/// The value of a fixed-point number as a double.
pub open spec fn fixed_point_double<F: Fn(FloatOp, u64, u64) -> u64>(
    f: F,
    value: i64,
    scale: u32,
) -> u64 {
    float_answer(
        f,
        FloatOp::Div,
        f64_of_int(value as int),
        float_answer(f, FloatOp::Pow10, scale as u64, 0),
    )
}

/// The value of a scalar as a double.
pub open spec fn scalar_double<F: Fn(FloatOp, u64, u64) -> u64>(f: F, s: ScalarView) -> u64 {
    match s {
        ScalarView::Float(v, _) => v,
        ScalarView::Int(v, _) => f64_of_int(v as int),
        ScalarView::DynamicFloat(v) => v,
        ScalarView::FloatingInt { value, scale } => fixed_point_double(f, value, scale),
        ScalarView::ScalableInt(v, _) => f64_of_int(v as int),
        ScalarView::ScalableFloat(v, _, _) => v,
        ScalarView::IntLimbs(l, b) => int_limbs_double(f, l, b as nat),
        ScalarView::ScalableIntLimbs(l, b) => int_limbs_double(f, l, b as nat),
    }
}

/// That a scalar's value can be taken as a double: a limb string has a width
/// and its places can be counted.
pub open spec fn measurable(s: ScalarView) -> bool {
    match s {
        ScalarView::IntLimbs(l, b) => l.len() <= 0x200_0000 && (l.len() > 0 ==> b >= 1),
        ScalarView::ScalableIntLimbs(l, b) => l.len() <= 0x200_0000 && (l.len() > 0 ==> b >= 1),
        _ => true,
    }
}

/// The signed value of the low `bits` bits of a word.
pub fn sign_extend(val: u64, bits: u32) -> (r: i64)
    requires
        1 <= bits <= 64,
    ensures
        r as int == signed_value(val as nat, bits as nat),
{
    proof {
        crate::types::int_codec::lemma_u64_as_i64(val);
        bits::lemma_pow2_64();
        bits::lemma_pow2_le((bits - 1) as nat, 63);
        lemma_pow2_unfold(bits as nat);
    }
    if bits < 64 {
        let low: u64 = word_low(val, bits);
        let half: u64 = pow2_u64(bits - 1);
        if low >= half {
            proof {
                bits::lemma_pow2_le((bits - 1) as nat, 62);
                lemma_pow2_unfold(63);
            }
            let rest: u64 = half - (low - half);
            -(rest as i64)
        } else {
            low as i64
        }
    } else {
        val as i64
    }
}

fn first_of(limbs: &[u64]) -> (r: u64)
    ensures
        r == first_limb(limbs@),
{
    if limbs.len() > 0 {
        limbs[0]
    } else {
        0
    }
}

fn one_limb(x: u64) -> (r: Vec<u64>)
    ensures
        r@ == seq![x],
{
    let mut r: Vec<u64> = Vec::new();
    r.push(x);
    r
}

fn int_to_limbs(val: i64, bits: u32) -> (r: Vec<u64>)
    requires
        countable(bits),
    ensures
        r@ == int_limbs(val, bits),
{
    if bits <= 64 {
        proof {
            crate::types::int_codec::lemma_i64_as_u64(val);
        }
        one_limb(val as u64)
    } else {
        let r: Vec<u64> = encode_custom_int_limbs(val, bits);
        proof {
            crate::limbs::lemma_limbs_are(
                r@,
                (val as int % pow2(bits as nat) as int) as nat,
                limb_count(bits as nat),
            );
        }
        r
    }
}

fn float_to_limbs(val: F64Bits, bits: u32, e: u32, steal_sign: bool) -> (r: Vec<u64>)
    requires
        countable(bits),
        float_layout(bits as nat, e as nat, steal_sign),
        e <= if bits <= 64 {
            30u32
        } else {
            126u32
        },
    ensures
        r@ == float_limbs(val, bits, e, steal_sign),
{
    if bits <= 64 {
        one_limb(encode_custom_float_with_e(val, bits, e, steal_sign))
    } else {
        let r: Vec<u64> = encode_custom_float_limbs(val, bits, e, steal_sign);
        proof {
            crate::limbs::lemma_limbs_are(
                r@,
                float_code(val, bits as nat, e as nat, steal_sign),
                limb_count(bits as nat),
            );
        }
        r
    }
}

fn limbs_to_float(limbs: &[u64], bits: u32, e: u32, steal_sign: bool) -> (r: F64Bits)
    requires
        codable(DataType::ScalableFloat(bits, e), steal_sign),
    ensures
        r == limbs_float(limbs@, bits, e, steal_sign),
{
    if bits <= 64 {
        decode_custom_float_with_e(first_of(limbs), bits, e, steal_sign)
    } else {
        decode_custom_float_limbs(limbs, bits, e, steal_sign)
    }
}

/// The exponent width of a float type.
pub fn exponent_width(bits: u32) -> (e: u32)
    ensures
        e == standard_exponent_width(bits),
{
    if bits <= 16 {
        5
    } else if bits <= 32 {
        8
    } else if bits <= 64 {
        11
    } else if bits <= 128 {
        15
    } else {
        19
    }
}

impl Clone for Scalar {
    fn clone(&self) -> (r: Self)
        ensures
            r@ == self@,
    {
        match self {
            Scalar::Float(v, b) => Scalar::Float(*v, *b),
            Scalar::Int(v, b) => Scalar::Int(*v, *b),
            Scalar::DynamicFloat(v) => Scalar::DynamicFloat(*v),
            Scalar::FloatingInt { value, scale } => Scalar::FloatingInt {
                value: *value,
                scale: *scale,
            },
            Scalar::ScalableInt(v, b) => Scalar::ScalableInt(*v, *b),
            Scalar::ScalableFloat(v, b, e) => Scalar::ScalableFloat(*v, *b, *e),
            Scalar::IntLimbs(l, b) => Scalar::IntLimbs(copy_limbs(l.as_slice()), *b),
            Scalar::ScalableIntLimbs(l, b) => Scalar::ScalableIntLimbs(
                copy_limbs(l.as_slice()),
                *b,
            ),
        }
    }
}

impl Scalar {
    /// The scalar as limbs, without a sign bit if it is stolen.
    pub fn to_limbs(&self, steal_sign: bool) -> (r: Vec<u64>)
        requires
            storable(self@, steal_sign),
        ensures
            r@ == scalar_limbs(self@, steal_sign),
    {
        match self {
            Scalar::Float(val, bits) => float_to_limbs(
                *val,
                *bits,
                exponent_width(*bits),
                steal_sign,
            ),
            Scalar::Int(val, bits) => int_to_limbs(*val, *bits),
            Scalar::DynamicFloat(val) => float_to_limbs(*val, 64, 11, steal_sign),
            Scalar::FloatingInt { value, .. } => int_to_limbs(*value, 64),
            Scalar::ScalableInt(val, bits) => int_to_limbs(*val, *bits),
            Scalar::ScalableFloat(val, bits, e) => float_to_limbs(*val, *bits, *e, steal_sign),
            Scalar::IntLimbs(limbs, _) => copy_limbs(limbs.as_slice()),
            Scalar::ScalableIntLimbs(limbs, _) => copy_limbs(limbs.as_slice()),
        }
    }

    /// The scalar as limbs, its sign repeated up to `max_b` bits.
    pub fn to_extended_limbs(&self, max_b: u32) -> (res: Vec<u64>)
        requires
            storable(self@, false),
            1 <= extension_width(self@) <= u32::MAX - 63,
            countable(max_b),
        ensures
            res@ == extended_limbs(
                scalar_limbs(self@, false),
                extension_width(self@) as nat,
                max_b as nat,
            ),
    {
        let original_bits: u32 = match self {
            Scalar::Int(_, b) => *b,
            Scalar::IntLimbs(_, b) => *b,
            Scalar::ScalableInt(_, b) => *b,
            Scalar::ScalableIntLimbs(_, b) => *b,
            _ => 64,
        };
        let limbs: Vec<u64> = self.to_limbs(false);
        extend_limbs(limbs.as_slice(), original_bits, max_b)
    }

    /// The low word of the scalar's limbs.
    pub fn to_u64_packed(&self, steal_sign: bool) -> (r: u64)
        requires
            storable(self@, steal_sign),
        ensures
            r == first_limb(scalar_limbs(self@, steal_sign)),
    {
        let limbs: Vec<u64> = self.to_limbs(steal_sign);
        first_of(limbs.as_slice())
    }

    /// The scalar of a type that limbs stand for.
    pub fn from_limbs(limbs: &[u64], dtype: DataType, scale: Option<u32>, steal_sign: bool) -> (r:
        Self)
        requires
            codable(dtype, steal_sign),
        ensures
            r@ == limbs_scalar(limbs@, dtype, scale, steal_sign),
    {
        match dtype {
            DataType::Float(bits) => Scalar::Float(
                limbs_to_float(limbs, bits, exponent_width(bits), steal_sign),
                bits,
            ),
            DataType::Int(bits) => {
                if bits <= 64 {
                    Scalar::Int(sign_extend(first_of(limbs), bits), bits)
                } else {
                    Scalar::IntLimbs(copy_limbs(limbs), bits)
                }
            },
            DataType::DynamicFloat => Scalar::DynamicFloat(
                decode_custom_float(first_of(limbs), 64, steal_sign),
            ),
            DataType::FloatingInt => Scalar::FloatingInt {
                value: sign_extend(first_of(limbs), 64),
                scale: match scale {
                    Some(s) => s,
                    None => 1,
                },
            },
            DataType::ScalableInt(bits) => {
                if bits <= 64 {
                    Scalar::ScalableInt(sign_extend(first_of(limbs), bits), bits)
                } else {
                    Scalar::ScalableIntLimbs(copy_limbs(limbs), bits)
                }
            },
            DataType::ScalableFloat(bits, e) => Scalar::ScalableFloat(
                limbs_to_float(limbs, bits, e, steal_sign),
                bits,
                e,
            ),
        }
    }

    /// The scalar of a type that one word stands for.
    pub fn from_u64_packed(val: u64, dtype: DataType, scale: Option<u32>, steal_sign: bool) -> (r:
        Self)
        requires
            codable(dtype, steal_sign),
        ensures
            r@ == limbs_scalar(seq![val], dtype, scale, steal_sign),
    {
        let limbs: Vec<u64> = one_limb(val);
        Self::from_limbs(limbs.as_slice(), dtype, scale, steal_sign)
    }

    /// The value as a double, worked out by the float unit `f`.
    pub fn to_double<F: Fn(FloatOp, u64, u64) -> u64>(&self, f: &F) -> (r: F64Bits)
        requires
            is_float_unit(*f),
            measurable(self@),
        ensures
            r == scalar_double(*f, self@),
    {
        match self {
            Scalar::Float(val, _) => *val,
            Scalar::Int(val, _) => f64_from_i64(*val),
            Scalar::DynamicFloat(val) => *val,
            Scalar::FloatingInt { value, scale } => {
                let power: u64 = ask(f, FloatOp::Pow10, *scale as u64, 0);
                ask(f, FloatOp::Div, f64_from_i64(*value), power)
            },
            Scalar::ScalableInt(val, _) => f64_from_i64(*val),
            Scalar::ScalableFloat(val, _, _) => *val,
            Scalar::IntLimbs(limbs, bits) => decode_custom_int_limbs_to_double(
                limbs.as_slice(),
                *bits,
                f,
            ),
            Scalar::ScalableIntLimbs(limbs, bits) => decode_custom_int_limbs_to_double(
                limbs.as_slice(),
                *bits,
                f,
            ),
        }
    }

    /// The scalar's type.
    pub fn data_type(&self) -> (r: DataType)
        ensures
            r == scalar_type(self@),
    {
        match self {
            Scalar::Float(_, bits) => DataType::Float(*bits),
            Scalar::Int(_, bits) => DataType::Int(*bits),
            Scalar::DynamicFloat(_) => DataType::DynamicFloat,
            Scalar::FloatingInt { .. } => DataType::FloatingInt,
            Scalar::ScalableInt(_, bits) => DataType::ScalableInt(*bits),
            Scalar::ScalableFloat(_, bits, e) => DataType::ScalableFloat(*bits, *e),
            Scalar::IntLimbs(_, bits) => DataType::Int(*bits),
            Scalar::ScalableIntLimbs(_, bits) => DataType::ScalableInt(*bits),
        }
    }
}

/// The fixed-point number nearest to a double.
pub open spec fn nearest_fixed_point<F: Fn(FloatOp, u64, u64) -> u64>(
    f: F,
    val: u64,
    scale: u32,
) -> ScalarView {
    ScalarView::FloatingInt {
        value: f64_rounded(
            float_answer(
                f,
                FloatOp::Mul,
                val,
                float_answer(f, FloatOp::Pow10, scale as u64, 0),
            ),
        ) as i64,
        scale,
    }
}

/// The fixed-point number with the given scale nearest to a double.
pub fn double_to_floating_int<F: Fn(FloatOp, u64, u64) -> u64>(
    val: F64Bits,
    scale: u32,
    f: &F,
) -> (r: Scalar)
    requires
        is_float_unit(*f),
    ensures
        r@ == nearest_fixed_point(*f, val, scale),
{
    let multiplier: u64 = ask(f, FloatOp::Pow10, scale as u64, 0);
    let product: u64 = ask(f, FloatOp::Mul, val, multiplier);
    Scalar::FloatingInt { value: rounded(product), scale }
}

} // verus!
