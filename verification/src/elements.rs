//! The elements of arrays: doubles in, packed codes out, and back.

pub mod laws;

use crate::bits::limb_count;
use crate::elements::laws::{
    holds_floats, holds_integers, law_scalable_float_holds, law_scalable_int_holds,
};
use crate::hardware::{packed, unpacked, unpacked_word, HardwareEngine};
use crate::ir::larger;
use crate::limbs::{count_limbs, limbs_of};
use crate::soft_float::{
    f64_is_non_negative, f64_rounded, is_float_unit, is_non_negative, rounded, F64Bits, FloatOp,
};
use crate::types::float_codec::float_config;
use crate::types::int_codec::{f64_integer, scalable_int_bits};
use crate::types::{
    codable, compute_scalable_float_config, compute_scalable_int_bits, double_to_floating_int,
    dtype_width, encode_custom_int_limbs_from_double, limbs_scalar, measurable,
    nearest_fixed_point, scalar_double, scalar_limbs, storable, DataType, Scalar, ScalarView,
};
use vstd::arithmetic::div_mod::*;
use vstd::arithmetic::mul::*;
use vstd::arithmetic::power2::*;
use vstd::prelude::*;

verus! {

// ─── Doubles as scalars ──────────────────────────────────────────────────────

/// A scale, one where none is given.
pub open spec fn scale_or_one(scale: Option<u32>) -> u32 {
    match scale {
        Some(s) => s,
        None => 1,
    }
}

/// The scalar of a type nearest to a double.
pub open spec fn value_scalar<F: Fn(FloatOp, u64, u64) -> u64>(
    f: F,
    v: u64,
    d: DataType,
    scale: Option<u32>,
) -> ScalarView {
    match d {
        DataType::Float(b) => ScalarView::Float(v, b),
        DataType::Int(b) => ScalarView::Int(f64_rounded(v) as i64, b),
        DataType::DynamicFloat => ScalarView::DynamicFloat(v),
        DataType::FloatingInt => nearest_fixed_point(f, v, scale_or_one(scale)),
        DataType::ScalableInt(b) => ScalarView::ScalableInt(f64_rounded(v) as i64, b),
        DataType::ScalableFloat(b, e) => ScalarView::ScalableFloat(v, b, e),
    }
}

/// The integer part of a double as limbs of `b` bits.
pub open spec fn integer_limbs(v: u64, b: u32) -> Seq<u64> {
    limbs_of((f64_integer(v) % pow2(b as nat) as int) as nat, limb_count(b as nat))
}

/// The scalar of a type nearest to a double, where integers of more than 64
/// bits keep the whole integer part.
pub open spec fn wide_value_scalar<F: Fn(FloatOp, u64, u64) -> u64>(
    f: F,
    v: u64,
    d: DataType,
    scale: Option<u32>,
) -> ScalarView {
    match d {
        DataType::Int(b) => if b > 64 {
            ScalarView::IntLimbs(integer_limbs(v, b), b)
        } else {
            value_scalar(f, v, d, scale)
        },
        DataType::ScalableInt(b) => if b > 64 {
            ScalarView::ScalableIntLimbs(integer_limbs(v, b), b)
        } else {
            value_scalar(f, v, d, scale)
        },
        _ => value_scalar(f, v, d, scale),
    }
}

/// The scalar of a type nearest to a double.
pub fn scalar_from_double<F: Fn(FloatOp, u64, u64) -> u64>(
    v: F64Bits,
    d: DataType,
    scale: Option<u32>,
    f: &F,
) -> (r: Scalar)
    requires
        is_float_unit(*f),
    ensures
        r@ == value_scalar(*f, v, d, scale),
{
    match d {
        DataType::Float(b) => Scalar::Float(v, b),
        DataType::Int(b) => Scalar::Int(rounded(v), b),
        DataType::DynamicFloat => Scalar::DynamicFloat(v),
        DataType::FloatingInt => {
            let s: u32 = match scale {
                Some(s) => s,
                None => 1,
            };
            double_to_floating_int(v, s, f)
        },
        DataType::ScalableInt(b) => Scalar::ScalableInt(rounded(v), b),
        DataType::ScalableFloat(b, e) => Scalar::ScalableFloat(v, b, e),
    }
}

fn integer_part_limbs(v: F64Bits, b: u32) -> (r: Vec<u64>)
    requires
        b <= u32::MAX - 63,
    ensures
        r@ == integer_limbs(v, b),
{
    let r: Vec<u64> = encode_custom_int_limbs_from_double(v, b);
    proof {
        crate::limbs::lemma_limbs_are(
            r@,
            (f64_integer(v) % pow2(b as nat) as int) as nat,
            limb_count(b as nat),
        );
    }
    r
}

/// The scalar of a type nearest to a double, where integers of more than 64
/// bits keep the whole integer part.
pub fn wide_scalar_from_double<F: Fn(FloatOp, u64, u64) -> u64>(
    v: F64Bits,
    d: DataType,
    scale: Option<u32>,
    f: &F,
) -> (r: Scalar)
    requires
        is_float_unit(*f),
        dtype_width(d) <= u32::MAX - 63,
    ensures
        r@ == wide_value_scalar(*f, v, d, scale),
{
    match d {
        DataType::Int(b) => {
            if b > 64 {
                return Scalar::IntLimbs(integer_part_limbs(v, b), b);
            }
        },
        DataType::ScalableInt(b) => {
            if b > 64 {
                return Scalar::ScalableIntLimbs(integer_part_limbs(v, b), b);
            }
        },
        _ => {},
    }
    scalar_from_double(v, d, scale, f)
}

// ─── Lists of doubles as words ───────────────────────────────────────────────

/// The limbs of a double under a type; with `wide`, integers of more than 64
/// bits keep the whole integer part.
pub open spec fn value_limbs<F: Fn(FloatOp, u64, u64) -> u64>(
    f: F,
    v: u64,
    d: DataType,
    scale: Option<u32>,
    steal_sign: bool,
    wide: bool,
) -> Seq<u64> {
    if wide {
        scalar_limbs(wide_value_scalar(f, v, d, scale), steal_sign)
    } else {
        scalar_limbs(value_scalar(f, v, d, scale), steal_sign)
    }
}

/// The limbs of a list of doubles under a type, one after the other.
pub open spec fn encoded_values<F: Fn(FloatOp, u64, u64) -> u64>(
    f: F,
    vals: Seq<u64>,
    d: DataType,
    scale: Option<u32>,
    steal_sign: bool,
    wide: bool,
) -> Seq<u64>
    decreases vals.len(),
{
    if vals.len() == 0 {
        Seq::empty()
    } else {
        encoded_values(f, vals.drop_last(), d, scale, steal_sign, wide) + value_limbs(
            f,
            vals.last(),
            d,
            scale,
            steal_sign,
            wide,
        )
    }
}

/// The packed codes of a list of doubles under a type.
pub open spec fn packed_values<F: Fn(FloatOp, u64, u64) -> u64>(
    f: F,
    vals: Seq<u64>,
    d: DataType,
    scale: Option<u32>,
    steal_sign: bool,
    wide: bool,
) -> Seq<u8> {
    packed(encoded_values(f, vals, d, scale, steal_sign, wide), dtype_width(d) as nat)
}

/// That the bits of `n` elements of `w` bits can be addressed.
pub open spec fn addressable(n: nat, w: nat) -> bool {
    n * limb_count(w) * w + 64 <= usize::MAX
}

/// A codable type has a width.
pub proof fn lemma_codable_width(d: DataType, steal_sign: bool)
    requires
        codable(d, steal_sign),
    ensures
        1 <= dtype_width(d) <= u32::MAX - 63,
        limb_count(dtype_width(d) as nat) >= 1,
{
}

/// A double under a codable type takes the limbs of the type's width.
pub proof fn lemma_value_limbs_len<F: Fn(FloatOp, u64, u64) -> u64>(
    f: F,
    v: u64,
    d: DataType,
    scale: Option<u32>,
    steal_sign: bool,
    wide: bool,
)
    requires
        codable(d, steal_sign),
    ensures
        value_limbs(f, v, d, scale, steal_sign, wide).len() == limb_count(dtype_width(d) as nat),
        limb_count(dtype_width(d) as nat) >= 1,
        storable(value_scalar(f, v, d, scale), steal_sign),
        storable(wide_value_scalar(f, v, d, scale), steal_sign),
{
}

/// The limbs of element `i` of an encoded list.
pub proof fn lemma_encoded_element<F: Fn(FloatOp, u64, u64) -> u64>(
    f: F,
    vals: Seq<u64>,
    d: DataType,
    scale: Option<u32>,
    steal_sign: bool,
    wide: bool,
    i: int,
)
    requires
        codable(d, steal_sign),
        0 <= i < vals.len(),
    ensures
        ({
            let k = limb_count(dtype_width(d) as nat);
            let e = encoded_values(f, vals, d, scale, steal_sign, wide);
            &&& e.len() == vals.len() * k
            &&& 0 <= i * k
            &&& (i + 1) * k <= e.len()
            &&& e.subrange(i * k, (i + 1) * k) == value_limbs(
                f,
                vals[i],
                d,
                scale,
                steal_sign,
                wide,
            )
        }),
    decreases vals.len(),
{
    let k = limb_count(dtype_width(d) as nat);
    let n = vals.len() as int;
    let e = encoded_values(f, vals, d, scale, steal_sign, wide);
    let init = encoded_values(f, vals.drop_last(), d, scale, steal_sign, wide);
    lemma_encoded_len(f, vals, d, scale, steal_sign, wide);
    lemma_encoded_len(f, vals.drop_last(), d, scale, steal_sign, wide);
    lemma_value_limbs_len(f, vals.last(), d, scale, steal_sign, wide);
    lemma_mul_is_distributive_add_other_way(k as int, i, 1);
    lemma_mul_inequality(i + 1, n, k as int);
    lemma_mul_nonnegative(i, k as int);
    if i == n - 1 {
        assert(e.subrange(i * k, (i + 1) * k) =~= value_limbs(
            f,
            vals[i],
            d,
            scale,
            steal_sign,
            wide,
        ));
    } else {
        lemma_encoded_element(f, vals.drop_last(), d, scale, steal_sign, wide, i);
        assert(e.subrange(i * k, (i + 1) * k) =~= init.subrange(i * k, (i + 1) * k));
    }
}

/// An encoded list takes the limbs of the type's width for each element.
pub proof fn lemma_encoded_len<F: Fn(FloatOp, u64, u64) -> u64>(
    f: F,
    vals: Seq<u64>,
    d: DataType,
    scale: Option<u32>,
    steal_sign: bool,
    wide: bool,
)
    requires
        codable(d, steal_sign),
    ensures
        encoded_values(f, vals, d, scale, steal_sign, wide).len() == vals.len() * limb_count(
            dtype_width(d) as nat,
        ),
    decreases vals.len(),
{
    let k = limb_count(dtype_width(d) as nat) as int;
    if vals.len() == 0 {
        lemma_mul_basics(k);
    } else {
        lemma_encoded_len(f, vals.drop_last(), d, scale, steal_sign, wide);
        lemma_value_limbs_len(f, vals.last(), d, scale, steal_sign, wide);
        lemma_mul_is_distributive_add_other_way(k, vals.len() - 1, 1);
    }
}

/// The limbs of a list of doubles under a type, one after the other.
pub fn encode_values<F: Fn(FloatOp, u64, u64) -> u64>(
    vals: &[F64Bits],
    d: DataType,
    scale: Option<u32>,
    steal_sign: bool,
    wide: bool,
    f: &F,
) -> (r: Vec<u64>)
    requires
        is_float_unit(*f),
        codable(d, steal_sign),
    ensures
        r@ == encoded_values(*f, vals@, d, scale, steal_sign, wide),
{
    let mut r: Vec<u64> = Vec::new();
    let mut i: usize = 0;
    while i < vals.len()
        invariant
            is_float_unit(*f),
            codable(d, steal_sign),
            i <= vals@.len(),
            r@ == encoded_values(*f, vals@.take(i as int), d, scale, steal_sign, wide),
        decreases vals@.len() - i,
    {
        let v: u64 = vals[i];
        proof {
            lemma_value_limbs_len(*f, v, d, scale, steal_sign, wide);
            assert(vals@.take(i + 1).drop_last() =~= vals@.take(i as int));
        }
        let s: Scalar = if wide {
            wide_scalar_from_double(v, d, scale, f)
        } else {
            scalar_from_double(v, d, scale, f)
        };
        let mut limbs: Vec<u64> = s.to_limbs(steal_sign);
        r.append(&mut limbs);
        i = i + 1;
    }
    assert(vals@.take(i as int) =~= vals@);
    r
}

/// Packs a list of doubles under a type.
pub fn pack_values<F: Fn(FloatOp, u64, u64) -> u64>(
    engine: &HardwareEngine,
    vals: &[F64Bits],
    d: DataType,
    scale: Option<u32>,
    steal_sign: bool,
    wide: bool,
    f: &F,
) -> (r: Vec<u8>)
    requires
        is_float_unit(*f),
        codable(d, steal_sign),
        addressable(vals@.len(), dtype_width(d) as nat),
    ensures
        r@ == packed_values(*f, vals@, d, scale, steal_sign, wide),
{
    let words: Vec<u64> = encode_values(vals, d, scale, steal_sign, wide, f);
    proof {
        lemma_encoded_len(*f, vals@, d, scale, steal_sign, wide);
    }
    engine.pack(words.as_slice(), d.bit_width())
}

// ─── Packed codes as doubles ─────────────────────────────────────────────────

/// That packed elements of a type can be taken as doubles.
pub open spec fn decodable(d: DataType, steal_sign: bool) -> bool {
    codable(d, steal_sign) && limb_count(dtype_width(d) as nat) <= 0x200_0000
}

/// Element `i` of a packed list.
pub open spec fn element_scalar(
    data: Seq<u8>,
    i: nat,
    d: DataType,
    scale: Option<u32>,
    steal_sign: bool,
) -> ScalarView {
    let w = dtype_width(d) as nat;
    let k = limb_count(w);
    limbs_scalar(
        Seq::new(k, |l: int| unpacked_word(data, w, (i * k + l) as nat)),
        d,
        scale,
        steal_sign,
    )
}

/// The first `count` elements of a packed list as doubles.
pub open spec fn decoded_values<F: Fn(FloatOp, u64, u64) -> u64>(
    f: F,
    data: Seq<u8>,
    count: nat,
    d: DataType,
    scale: Option<u32>,
    steal_sign: bool,
) -> Seq<u64> {
    Seq::new(
        count,
        |i: int| scalar_double(f, element_scalar(data, i as nat, d, scale, steal_sign)),
    )
}

/// A part of a list of words.
pub fn words_between(s: &[u64], from: usize, to: usize) -> (r: Vec<u64>)
    requires
        from <= to <= s@.len(),
    ensures
        r@ == s@.subrange(from as int, to as int),
{
    let mut r: Vec<u64> = Vec::with_capacity(to - from);
    let mut i: usize = from;
    while i < to
        invariant
            from <= i <= to <= s@.len(),
            r@ =~= s@.subrange(from as int, i as int),
        decreases to - i,
    {
        r.push(s[i]);
        i = i + 1;
    }
    r
}

/// The scalars of the first `count` elements of a packed list.
pub fn unpack_scalars(
    engine: &HardwareEngine,
    data: &[u8],
    count: usize,
    d: DataType,
    scale: Option<u32>,
    steal_sign: bool,
) -> (r: Vec<Scalar>)
    requires
        codable(d, steal_sign),
        addressable(count as nat, dtype_width(d) as nat),
    ensures
        r@.len() == count,
        forall|i: int|
            0 <= i < count ==> (#[trigger] r@[i])@ == element_scalar(
                data@,
                i as nat,
                d,
                scale,
                steal_sign,
            ),
{
    let width: u32 = d.bit_width();
    let k: usize = count_limbs(width);
    let ghost w = width as nat;
    proof {
        lemma_codable_width(d, steal_sign);
        lemma_mul_increases_by_limbs(count as nat, w);
    }
    let words: Vec<u64> = engine.unpack(data, count, width);
    let mut r: Vec<Scalar> = Vec::with_capacity(count);
    let mut i: usize = 0;
    while i < count
        invariant
            i <= count,
            codable(d, steal_sign),
            w == dtype_width(d),
            w > 0,
            k as nat == limb_count(w),
            words@ == unpacked(data@, count as nat, w),
            r@.len() == i,
            forall|j: int|
                0 <= j < i ==> (#[trigger] r@[j])@ == element_scalar(
                    data@,
                    j as nat,
                    d,
                    scale,
                    steal_sign,
                ),
        decreases count - i,
    {
        let total: usize = words.len();
        proof {
            lemma_mul_inequality(i + 1, count as int, k as int);
            lemma_mul_is_distributive_add_other_way(k as int, i as int, 1);
            assert(words@.len() == count * k);
            assert((i + 1) * k <= total);
        }
        let limbs: Vec<u64> = words_between(words.as_slice(), i * k, i * k + k);
        proof {
            assert(limbs@ =~= Seq::new(
                k as nat,
                |l: int| unpacked_word(data@, w, (i as nat * k as nat + l) as nat),
            ));
        }
        r.push(Scalar::from_limbs(limbs.as_slice(), d, scale, steal_sign));
        i = i + 1;
    }
    r
}

proof fn lemma_mul_increases_by_limbs(n: nat, w: nat)
    requires
        addressable(n, w),
        w > 0,
    ensures
        n * w + 64 <= usize::MAX,
{
    let k = limb_count(w);
    assert(k >= 1);
    lemma_mul_inequality(1, k as int, n as int);
    lemma_mul_is_commutative(n as int, k as int);
    lemma_mul_inequality(n as int, (n * k) as int, w as int);
}

/// The first `count` elements of a packed list as doubles.
pub fn unpack_values<F: Fn(FloatOp, u64, u64) -> u64>(
    engine: &HardwareEngine,
    data: &[u8],
    count: usize,
    d: DataType,
    scale: Option<u32>,
    steal_sign: bool,
    f: &F,
) -> (r: Vec<F64Bits>)
    requires
        is_float_unit(*f),
        decodable(d, steal_sign),
        addressable(count as nat, dtype_width(d) as nat),
    ensures
        r@ == decoded_values(*f, data@, count as nat, d, scale, steal_sign),
{
    let scalars: Vec<Scalar> = unpack_scalars(engine, data, count, d, scale, steal_sign);
    let mut r: Vec<u64> = Vec::with_capacity(count);
    let mut i: usize = 0;
    while i < count
        invariant
            is_float_unit(*f),
            decodable(d, steal_sign),
            i <= count,
            scalars@.len() == count,
            forall|j: int|
                0 <= j < count ==> (#[trigger] scalars@[j])@ == element_scalar(
                    data@,
                    j as nat,
                    d,
                    scale,
                    steal_sign,
                ),
            r@.len() == i,
            forall|j: int|
                0 <= j < i ==> #[trigger] r@[j] == decoded_values(
                    *f,
                    data@,
                    count as nat,
                    d,
                    scale,
                    steal_sign,
                )[j],
        decreases count - i,
    {
        assert(scalars@[i as int]@ == element_scalar(data@, i as nat, d, scale, steal_sign));
        assert(measurable(scalars@[i as int]@));
        let v: u64 = scalars[i].to_double(f);
        r.push(v);
        i = i + 1;
    }
    assert(r@ =~= decoded_values(*f, data@, count as nat, d, scale, steal_sign));
    r
}

// ─── Types that follow their values ──────────────────────────────────────────

/// That no value of a list is negative or not a number.
pub open spec fn all_non_negative(vals: Seq<u64>) -> bool {
    forall|i: int| 0 <= i < vals.len() ==> f64_is_non_negative(#[trigger] vals[i])
}

/// Whether no value of a list is negative or not a number.
pub fn are_non_negative(vals: &[F64Bits]) -> (r: bool)
    ensures
        r == all_non_negative(vals@),
{
    let mut i: usize = 0;
    while i < vals.len()
        invariant
            i <= vals@.len(),
            forall|j: int| 0 <= j < i ==> f64_is_non_negative(#[trigger] vals@[j]),
        decreases vals@.len() - i,
    {
        if !is_non_negative(vals[i]) {
            return false;
        }
        i = i + 1;
    }
    true
}

/// That a type is one of floats.
pub open spec fn is_float_type(d: DataType) -> bool {
    d is Float || d is DynamicFloat || d is ScalableFloat
}

/// Whether the sign bit of a list can be given to the mantissa: a float type
/// and no negative value.
pub fn should_steal_sign(dtype: DataType, values: &[F64Bits]) -> (r: bool)
    ensures
        r == (is_float_type(dtype) && all_non_negative(values@)),
{
    match dtype {
        DataType::Float(_) => are_non_negative(values),
        DataType::DynamicFloat => are_non_negative(values),
        DataType::ScalableFloat(_, _) => are_non_negative(values),
        _ => false,
    }
}

/// The width of the widest of a list of values as scalable integers.
pub open spec fn widest_int(vals: Seq<u64>) -> nat
    decreases vals.len(),
{
    if vals.len() == 0 {
        2
    } else {
        larger(widest_int(vals.drop_last()), scalable_int_bits(f64_rounded(vals.last())))
    }
}

/// The width of the widest of a list of values as scalable integers.
pub fn widest_int_bits(vals: &[F64Bits]) -> (r: u32)
    ensures
        r as nat == widest_int(vals@),
        2 <= r <= 64,
        holds_integers(vals@, r as nat),
{
    let mut r: u32 = 2;
    let mut i: usize = 0;
    while i < vals.len()
        invariant
            i <= vals@.len(),
            2 <= r <= 64,
            r as nat == widest_int(vals@.take(i as int)),
        decreases vals@.len() - i,
    {
        let b: u32 = compute_scalable_int_bits(rounded(vals[i]));
        proof {
            assert(vals@.take(i + 1).drop_last() =~= vals@.take(i as int));
        }
        if b > r {
            r = b;
        }
        i = i + 1;
    }
    assert(vals@.take(i as int) =~= vals@);
    proof {
        law_scalable_int_holds(vals@);
    }
    r
}

/// The largest width and the largest exponent width chosen for a list of
/// values, at least eight and four.
pub open spec fn widest_float(vals: Seq<u64>, steal_sign: bool) -> (nat, nat)
    decreases vals.len(),
{
    if vals.len() == 0 {
        (8, 4)
    } else {
        let rest = widest_float(vals.drop_last(), steal_sign);
        let c = float_config(vals.last(), steal_sign);
        (larger(rest.0, c.0 as nat), larger(rest.1, c.1 as nat))
    }
}

/// The scalable float type for a list of values: the largest widths, with room
/// for a mantissa bit, and at most 64 bits.
pub open spec fn scalable_float_type(vals: Seq<u64>, steal_sign: bool) -> DataType {
    let (b, e) = widest_float(vals, steal_sign);
    let sign: nat = if steal_sign {
        0
    } else {
        1
    };
    let b = larger(b, e + sign + 1);
    DataType::ScalableFloat(
        if b > 64 {
            64
        } else {
            b as u32
        },
        e as u32,
    )
}

/// The scalable float type for a list of values.
pub fn choose_scalable_float(vals: &[F64Bits], steal_sign: bool) -> (r: DataType)
    ensures
        r == scalable_float_type(vals@, steal_sign),
        decodable(r, steal_sign),
        dtype_width(r) <= 64,
        r matches DataType::ScalableFloat(b, e) && holds_floats(
            vals@,
            steal_sign,
            b as nat,
            e as nat,
        ),
{
    let mut max_b: u32 = 8;
    let mut max_e: u32 = 4;
    let mut i: usize = 0;
    while i < vals.len()
        invariant
            i <= vals@.len(),
            8 <= max_b <= 56,
            4 <= max_e <= 15,
            (max_b as nat, max_e as nat) == widest_float(vals@.take(i as int), steal_sign),
        decreases vals@.len() - i,
    {
        let (b, e) = compute_scalable_float_config(vals[i], steal_sign);
        proof {
            assert(vals@.take(i + 1).drop_last() =~= vals@.take(i as int));
        }
        if b > max_b {
            max_b = b;
        }
        if e > max_e {
            max_e = e;
        }
        i = i + 1;
    }
    assert(vals@.take(i as int) =~= vals@);
    let sign_bit: u32 = if steal_sign {
        0
    } else {
        1
    };
    if max_b < max_e + sign_bit + 1 {
        max_b = max_e + sign_bit + 1;
    }
    if max_b > 64 {
        max_b = 64;
    }
    proof {
        law_scalable_float_holds(vals@, steal_sign);
    }
    DataType::ScalableFloat(max_b, max_e)
}

} // verus!
