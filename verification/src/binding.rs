//! What the bindings to other languages are made of: arrays from lists of
//! values, types by name, slices, and the description of arrays to others.

use crate::array::view_laws::{law_slice_shows_elements, shows_slice};
use crate::array::{row_major_bit_strides, NumToyArray};
use crate::cache::type_tag;
use crate::elements::{
    addressable, all_non_negative, are_non_negative, choose_scalable_float,
    decoded_values, is_float_type, pack_values, packed_values, scalable_float_type,
    should_steal_sign, unpack_values, widest_int, widest_int_bits,
};
use crate::fuser::helpers::type_code;
use crate::hardware::HardwareEngine;
use crate::ir::{copy_sizes, expr_type, flat_var, flat_view, Expr, ExprView, PackedBuffer};
use crate::shape::{countable_shape, numel, prefix_product, stride_sizes, strides_fit};
use crate::soft_float::{is_float_unit, F64Bits, FloatOp};
use crate::text::same_text;
use crate::types::{codable, dtype_width, DataType};
use std::sync::Arc;
use vstd::arithmetic::div_mod::*;
use vstd::arithmetic::mul::*;
use vstd::prelude::*;

verus! {

// ─── Types ───────────────────────────────────────────────────────────────────

/// The scalable integer type for a list of values.
pub open spec fn scalable_int_type(vals: Seq<u64>) -> DataType {
    DataType::ScalableInt(widest_int(vals) as u32)
}

/// The type with a name, for a list of values. Scalable types follow the values.
pub open spec fn type_named(name: Seq<char>, bits: u32, vals: Seq<u64>) -> Option<DataType> {
    if name == "float"@ {
        Some(DataType::Float(bits))
    } else if name == "int"@ {
        Some(DataType::Int(bits))
    } else if name == "dynamic_float"@ {
        Some(DataType::DynamicFloat)
    } else if name == "floating_int"@ {
        Some(DataType::FloatingInt)
    } else if name == "scalable_int"@ {
        Some(scalable_int_type(vals))
    } else if name == "scalable_float"@ {
        Some(scalable_float_type(vals, all_non_negative(vals)))
    } else {
        None
    }
}

/// The type with a name, for a list of values. There is none for an unknown
/// name.
pub fn dtype_from_name(name: &str, bits: u32, values: &[F64Bits]) -> (r: Option<DataType>)
    ensures
        r == type_named(name@, bits, values@),
{
    if same_text(name, "float") {
        Some(DataType::Float(bits))
    } else if same_text(name, "int") {
        Some(DataType::Int(bits))
    } else if same_text(name, "dynamic_float") {
        Some(DataType::DynamicFloat)
    } else if same_text(name, "floating_int") {
        Some(DataType::FloatingInt)
    } else if same_text(name, "scalable_int") {
        Some(DataType::ScalableInt(widest_int_bits(values)))
    } else if same_text(name, "scalable_float") {
        Some(choose_scalable_float(values, are_non_negative(values)))
    } else {
        None
    }
}

/// The type with a number, for a list of values. Every unknown number is that of
/// doubles.
pub open spec fn type_numbered(code: u32, bits: u32, vals: Seq<u64>) -> DataType {
    if code == 0 {
        DataType::Float(bits)
    } else if code == 1 {
        DataType::Int(bits)
    } else if code == 3 {
        DataType::FloatingInt
    } else if code == 4 {
        scalable_int_type(vals)
    } else if code == 5 {
        scalable_float_type(vals, all_non_negative(vals))
    } else {
        DataType::DynamicFloat
    }
}

/// The type with a number, for a list of values.
pub fn dtype_from_number(code: u32, bits: u32, values: &[F64Bits]) -> (r: DataType)
    ensures
        r == type_numbered(code, bits, values@),
{
    match code {
        0 => DataType::Float(bits),
        1 => DataType::Int(bits),
        3 => DataType::FloatingInt,
        4 => DataType::ScalableInt(widest_int_bits(values)),
        5 => choose_scalable_float(values, are_non_negative(values)),
        _ => DataType::DynamicFloat,
    }
}

/// The type with a name, for stored elements, whose values are not looked at:
/// scalable types have the given width, and floats four exponent bits.
pub open spec fn stored_type_named(name: Seq<char>, bits: u32) -> Option<DataType> {
    if name == "float"@ {
        Some(DataType::Float(bits))
    } else if name == "int"@ {
        Some(DataType::Int(bits))
    } else if name == "dynamic_float"@ {
        Some(DataType::DynamicFloat)
    } else if name == "floating_int"@ {
        Some(DataType::FloatingInt)
    } else if name == "scalable_int"@ {
        Some(DataType::ScalableInt(bits))
    } else if name == "scalable_float"@ {
        Some(DataType::ScalableFloat(bits, 4))
    } else {
        None
    }
}

/// The type with a name, for stored elements. There is none for an unknown name.
pub fn stored_dtype(name: &str, bits: u32) -> (r: Option<DataType>)
    ensures
        r == stored_type_named(name@, bits),
{
    if same_text(name, "float") {
        Some(DataType::Float(bits))
    } else if same_text(name, "int") {
        Some(DataType::Int(bits))
    } else if same_text(name, "dynamic_float") {
        Some(DataType::DynamicFloat)
    } else if same_text(name, "floating_int") {
        Some(DataType::FloatingInt)
    } else if same_text(name, "scalable_int") {
        Some(DataType::ScalableInt(bits))
    } else if same_text(name, "scalable_float") {
        Some(DataType::ScalableFloat(bits, 4))
    } else {
        None
    }
}

/// Types have one number everywhere: a type is found again by the number that kernels
/// and keys know it by, and by the width it has; of scalable types, the kind is.
pub proof fn law_type_numbers_agree(d: DataType, vals: Seq<u64>)
    ensures
        type_code(d) == type_tag(d).0,
        dtype_width(d) == type_tag(d).1,
        ({
            let found = type_numbered(type_code(d), dtype_width(d), vals);
            match d {
                DataType::ScalableInt(_) => found is ScalableInt,
                DataType::ScalableFloat(_, _) => found is ScalableFloat,
                _ => found == d,
            }
        }),
{
}

/// A name stands for one type: with and without values to look at, types of the same
/// kind are found, and the same ones where they do not follow the values.
pub proof fn law_type_names_agree(name: Seq<char>, bits: u32, vals: Seq<u64>)
    ensures
        match (type_named(name, bits, vals), stored_type_named(name, bits)) {
            (Some(a), Some(b)) => type_code(a) == type_code(b) && (type_code(a) < 4 ==> a == b),
            (None, None) => true,
            _ => false,
        },
{
}

// ─── Arrays from values ──────────────────────────────────────────────────────

/// The variable of a list of values under a type, without a sign bit if it is a
/// float type and no value is negative.
pub open spec fn var_view<F: Fn(FloatOp, u64, u64) -> u64>(
    f: F,
    id: usize,
    name: Seq<char>,
    d: DataType,
    vals: Seq<u64>,
    scale: Option<u32>,
) -> ExprView {
    let s = is_float_type(d) && all_non_negative(vals);
    flat_view(
        id,
        name,
        d,
        vals.len() as usize,
        packed_values(f, vals, d, scale, s, false),
        scale,
        s,
    )
}

/// The variable of a list of values under a type.
pub fn var_from_values<F: Fn(FloatOp, u64, u64) -> u64>(
    engine: &HardwareEngine,
    id: usize,
    name: &str,
    dtype: DataType,
    values: &[F64Bits],
    scale: Option<u32>,
    f: &F,
) -> (r: Expr)
    requires
        is_float_unit(*f),
        codable(dtype, is_float_type(dtype) && all_non_negative(values@)),
        addressable(values@.len(), dtype_width(dtype) as nat),
    ensures
        r is Variable,
        r@ == var_view(*f, id, name@, dtype, values@, scale),
{
    let steal: bool = should_steal_sign(dtype, values);
    let data: Vec<u8> = pack_values(engine, values, dtype, scale, steal, false, f);
    flat_var(id, name, dtype, values.len(), data, scale, steal)
}

/// The array of a list of values under a type, with a shape.
pub fn array_from_values<F: Fn(FloatOp, u64, u64) -> u64>(
    engine: &HardwareEngine,
    id: usize,
    name: &str,
    dtype: DataType,
    values: &[F64Bits],
    shape: Vec<usize>,
    scale: Option<u32>,
    f: &F,
) -> (r: NumToyArray)
    requires
        is_float_unit(*f),
        codable(dtype, is_float_type(dtype) && all_non_negative(values@)),
        addressable(values@.len(), dtype_width(dtype) as nat),
        strides_fit(shape@, dtype_width(dtype) as nat),
    ensures
        r.expr is Variable,
        r.expr@ == var_view(*f, id, name@, dtype, values@, scale),
        r.shape@ == shape@,
        r.bit_strides@ == stride_sizes(shape@, dtype_width(dtype) as nat),
{
    let expr: Expr = var_from_values(engine, id, name, dtype, values, scale, f);
    let strides: Vec<usize> = row_major_bit_strides(shape.as_slice(), dtype.bit_width() as usize);
    NumToyArray::from_expr(expr, shape, strides)
}

/// The array of stored elements, with a shape. Their signs are as stored.
pub fn array_from_bytes(
    id: usize,
    name: &str,
    dtype: DataType,
    count: usize,
    data: Vec<u8>,
    shape: Vec<usize>,
    scale: Option<u32>,
) -> (r: NumToyArray)
    requires
        strides_fit(shape@, dtype_width(dtype) as nat),
    ensures
        r.expr is Variable,
        r.expr@ == flat_view(id, name@, dtype, count, data@, scale, false),
        r.shape@ == shape@,
        r.bit_strides@ == stride_sizes(shape@, dtype_width(dtype) as nat),
{
    let expr: Expr = flat_var(id, name, dtype, count, data, scale, false);
    let strides: Vec<usize> = row_major_bit_strides(shape.as_slice(), dtype.bit_width() as usize);
    NumToyArray::from_expr(expr, shape, strides)
}

/// An array of floats that are exact in their type is read back as the values
/// that it was made of.
pub proof fn law_values_come_back<F: Fn(FloatOp, u64, u64) -> u64>(
    f: F,
    id: usize,
    name: Seq<char>,
    d: DataType,
    vals: Seq<u64>,
    scale: Option<u32>,
)
    requires
        is_float_type(d),
        codable(d, all_non_negative(vals)),
        vals.len() <= usize::MAX,
        forall|i: int|
            0 <= i < vals.len() ==> crate::types::laws::float_exact(
                #[trigger] vals[i],
                dtype_width(d) as nat,
                crate::types::laws::type_exponent_width(d) as nat,
                all_non_negative(vals),
            ),
    ensures
        crate::fuser::exec::var_doubles(f, var_view(f, id, name, d, vals, scale)) == vals,
{
    crate::types::laws::law_float_array_round_trip(
        f,
        vals,
        d,
        scale,
        all_non_negative(vals),
        false,
    );
}

/// The first elements of a variable as doubles, no more than `max_count`.
/// An expression that is not a variable has none.
pub fn unpack_upto<F: Fn(FloatOp, u64, u64) -> u64>(
    engine: &HardwareEngine,
    expr: &Expr,
    max_count: usize,
    f: &F,
) -> (r: Vec<F64Bits>)
    requires
        is_float_unit(*f),
        expr is Variable ==> crate::fuser::exec::var_decodable(expr@),
    ensures
        r@ == first_doubles(*f, expr@, max_count as nat),
{
    match expr {
        Expr::Variable { dtype, size, packed_data, scale, steal_sign, .. } => {
            let count: usize = if *size < max_count {
                *size
            } else {
                max_count
            };
            proof {
                lemma_fewer(count as nat, *size as nat, dtype_width(*dtype) as nat);
            }
            unpack_values(
                engine,
                packed_data.as_slice(),
                count,
                *dtype,
                *scale,
                *steal_sign,
                f,
            )
        },
        _ => Vec::new(),
    }
}

proof fn lemma_fewer(few: nat, many: nat, w: nat)
    requires
        few <= many,
        addressable(many, w),
    ensures
        addressable(few, w),
{
    let k = crate::bits::limb_count(w);
    lemma_mul_inequality(few as int, many as int, k as int);
    lemma_mul_inequality((few * k) as int, (many * k) as int, w as int);
}

/// The first elements of a variable as doubles.
pub open spec fn first_doubles<F: Fn(FloatOp, u64, u64) -> u64>(
    f: F,
    e: ExprView,
    max_count: nat,
) -> Seq<u64> {
    match e {
        ExprView::Variable { dtype, size, data, scale, steal_sign, .. } => decoded_values(
            f,
            data,
            if (size as nat) < max_count {
                size as nat
            } else {
                max_count
            },
            dtype,
            scale,
            steal_sign,
        ),
        _ => Seq::empty(),
    }
}

// ─── Matrix products ─────────────────────────────────────────────────────────

/// The three sizes of a matrix product: those of the first two dimensions, or one
/// each where an array has fewer.
pub open spec fn product_sizes(a: Seq<usize>, w: Seq<usize>) -> (usize, usize, usize) {
    if a.len() >= 2 && w.len() >= 2 {
        (a[0], a[1], w[1])
    } else {
        (1, 1, 1)
    }
}

/// The sizes of a product of two matrices are theirs: the first has `m` rows of `k`, and
/// the second, where it has `k` rows, rows of `n`.
pub proof fn law_product_sizes_are_theirs(a: Seq<usize>, w: Seq<usize>)
    requires
        a.len() == 2,
        w.len() == 2,
        w[0] == a[1],
    ensures
        ({
            let (m, k, n) = product_sizes(a, w);
            numel(a) == m * k && numel(w) == k * n && a == seq![m, k] && w == seq![k, n]
        }),
{
    let (m, k, n) = product_sizes(a, w);
    assert(a =~= seq![m, k]);
    assert(w =~= seq![k, n]);
    lemma_two_sizes(a);
    lemma_two_sizes(w);
}

proof fn lemma_two_sizes(a: Seq<usize>)
    requires
        a.len() == 2,
    ensures
        numel(a) == a[0] as nat * a[1] as nat,
{
    reveal_with_fuel(prefix_product, 3);
}

/// The product of activations and quantized weights, as doubles.
pub fn dequantize_matmul(activations: &NumToyArray, weights: &NumToyArray) -> (r: NumToyArray)
    requires
        64 * product_sizes(activations.shape@, weights.shape@).2 <= usize::MAX,
    ensures
        ({
            let (m, k, n) = product_sizes(activations.shape@, weights.shape@);
            &&& r.expr@ == (ExprView::DequantizeMatmul {
                activations: Box::new(activations.expr@),
                weights: Box::new(weights.expr@),
                m,
                k,
                n,
            })
            &&& r.shape@ == seq![m, n]
            &&& r.bit_strides@ == seq![(64 * n) as usize, 64]
        }),
{
    let mut m: usize = 1;
    let mut k: usize = 1;
    let mut n: usize = 1;
    if activations.shape.len() >= 2 && weights.shape.len() >= 2 {
        m = activations.shape[0];
        k = activations.shape[1];
        n = weights.shape[1];
    }
    let mut shape: Vec<usize> = Vec::new();
    shape.push(m);
    shape.push(n);
    let expr: Expr = Expr::DequantizeMatmul {
        activations: Arc::new(activations.expr.clone()),
        weights: Arc::new(weights.expr.clone()),
        m,
        k,
        n,
    };
    let mut strides: Vec<usize> = Vec::new();
    strides.push(64 * n);
    strides.push(64);
    assert(shape@ =~= seq![m, n]);
    assert(strides@ =~= seq![(64 * n) as usize, 64]);
    NumToyArray::from_expr(expr, shape, strides)
}

// ─── Slices ──────────────────────────────────────────────────────────────────

/// A range of places: from the first one to the one before the last, in steps.
#[derive(Clone, Copy, Debug, PartialEq, Eq, Structural)]
pub struct SliceRange {
    pub start: usize,
    pub stop: usize,
    pub step: usize,
}

/// How many places lie between the ends of a range in a dimension.
pub open spec fn slice_span(r: SliceRange, dim: usize) -> nat {
    let stop = if r.stop < dim {
        r.stop
    } else {
        dim
    };
    if r.start < stop {
        (stop - r.start) as nat
    } else {
        0
    }
}

/// How many elements a range takes of a dimension.
pub open spec fn slice_len(r: SliceRange, dim: usize) -> nat {
    if slice_span(r, dim) > 0 {
        (slice_span(r, dim) + r.step - 1) as nat / (r.step as nat)
    } else {
        0
    }
}

/// The stride of the elements that a range takes.
pub open spec fn slice_stride(r: SliceRange, dim: usize, stride: usize) -> nat {
    if slice_span(r, dim) > 0 {
        stride as nat * r.step as nat
    } else {
        stride as nat
    }
}

/// The distance to the first element that a range takes.
pub open spec fn slice_shift(r: SliceRange, dim: usize, stride: usize) -> nat {
    if slice_span(r, dim) > 0 {
        r.start as nat * stride as nat
    } else {
        0
    }
}

/// The distance to the first element that the first `k` ranges take.
pub open spec fn slice_offset(
    ranges: Seq<SliceRange>,
    shape: Seq<usize>,
    strides: Seq<usize>,
    k: nat,
) -> nat
    decreases k,
{
    if k == 0 {
        0
    } else {
        slice_offset(ranges, shape, strides, (k - 1) as nat) + slice_shift(
            ranges[k - 1],
            shape[k - 1],
            strides[k - 1],
        )
    }
}

/// The shape that ranges cut: the dimensions without a range stay.
pub open spec fn sliced_shape(ranges: Seq<SliceRange>, shape: Seq<usize>) -> Seq<usize> {
    Seq::new(
        shape.len(),
        |i: int|
            if i < ranges.len() {
                slice_len(ranges[i], shape[i]) as usize
            } else {
                shape[i]
            },
    )
}

/// The strides of what ranges cut.
pub open spec fn sliced_strides(
    ranges: Seq<SliceRange>,
    shape: Seq<usize>,
    strides: Seq<usize>,
) -> Seq<usize> {
    Seq::new(
        shape.len(),
        |i: int|
            if i < ranges.len() {
                slice_stride(ranges[i], shape[i], strides[i]) as usize
            } else {
                strides[i]
            },
    )
}

/// That a range can be taken of a dimension: its step is not zero, and all that
/// is computed fits.
pub open spec fn range_fits(r: SliceRange, dim: usize, stride: usize) -> bool {
    slice_span(r, dim) > 0 ==> {
        &&& r.step > 0
        &&& slice_span(r, dim) + r.step <= usize::MAX
        &&& slice_stride(r, dim, stride) <= usize::MAX
        &&& slice_shift(r, dim, stride) <= usize::MAX
    }
}

/// That ranges can be taken of an array, dimension by dimension.
pub open spec fn sliceable(
    ranges: Seq<SliceRange>,
    shape: Seq<usize>,
    strides: Seq<usize>,
    bit_offset: usize,
) -> bool {
    &&& ranges.len() <= shape.len()
    &&& strides.len() == shape.len()
    &&& forall|i: int|
        0 <= i < ranges.len() ==> range_fits(#[trigger] ranges[i], shape[i], strides[i])
    &&& forall|k: nat|
        k <= ranges.len() ==> bit_offset + #[trigger] slice_offset(ranges, shape, strides, k)
            <= usize::MAX
    &&& countable_shape(sliced_shape(ranges, shape))
}

/// Element `j` of what a range takes is the element `start + j * step` of the
/// dimension, and lies within the range.
pub proof fn law_slice_address(r: SliceRange, dim: usize, stride: usize, j: nat)
    requires
        r.step > 0,
        j < slice_len(r, dim),
    ensures
        slice_shift(r, dim, stride) + j * slice_stride(r, dim, stride) == (r.start + j * r.step)
            * stride,
        r.start + j * r.step < r.stop,
        r.start + j * r.step < dim,
{
    let span = slice_span(r, dim) as int;
    let step = r.step as int;
    let q = (span + step - 1) / step;
    assert(j <= q - 1);
    lemma_fundamental_div_mod(span + step - 1, step);
    lemma_mod_bound(span + step - 1, step);
    lemma_mul_inequality(j as int, q - 1, step);
    lemma_mul_is_distributive_sub_other_way(step, q, 1);
    lemma_mul_is_commutative(step, q);
    assert(j * step <= span - 1);
    lemma_mul_is_distributive_add_other_way(stride as int, r.start as int, j * step);
    lemma_mul_is_associative(j as int, stride as int, step);
    lemma_mul_is_associative(j as int, step, stride as int);
    lemma_mul_is_commutative(stride as int, step);
}

/// A range over a whole dimension, in steps of one, changes nothing.
pub proof fn law_full_slice_is_identity(dim: usize, stride: usize)
    ensures
        ({
            let r = SliceRange { start: 0, stop: dim, step: 1 };
            &&& slice_len(r, dim) == dim
            &&& slice_stride(r, dim, stride) == stride
            &&& slice_shift(r, dim, stride) == 0
        }),
{
    lemma_mul_basics(stride as int);
    lemma_div_basics(dim as int);
}

/// A part of an array, over the same bytes.
pub fn slice_and_dice(a: &NumToyArray, ranges: &Vec<SliceRange>) -> (r: NumToyArray)
    requires
        a.expr is Variable,
        a.expr@ matches ExprView::Variable { bit_offset, .. } && sliceable(
            ranges@,
            a.shape@,
            a.bit_strides@,
            bit_offset,
        ),
    ensures
        r.expr is Variable,
        r.shape@ == sliced_shape(ranges@, a.shape@),
        r.bit_strides@ == sliced_strides(ranges@, a.shape@, a.bit_strides@),
        r.expr@ == sliced_view(a.expr@, ranges@, a.shape@, a.bit_strides@),
        shows_slice(*a, ranges@, r),
{
    let (data, offset0, scale0, steal0, dtype0, id0, name0) = match &a.expr {
        Expr::Variable {
            packed_data,
            bit_offset,
            scale,
            steal_sign,
            dtype,
            id,
            name,
            ..
        } => (packed_data.clone(), *bit_offset, *scale, *steal_sign, *dtype, *id, name.clone()),
        _ => (
            PackedBuffer::from_bytes(Vec::new()),
            0,
            None,
            false,
            DataType::DynamicFloat,
            0,
            String::new(),
        ),
    };
    let n: usize = a.shape.len();
    let k: usize = ranges.len();
    let mut shape: Vec<usize> = Vec::with_capacity(n);
    let mut strides: Vec<usize> = Vec::with_capacity(n);
    let mut offset: usize = offset0;
    let mut i: usize = 0;
    while i < k
        invariant
            i <= k,
            k == ranges@.len(),
            k <= n,
            n == a.shape@.len(),
            sliceable(ranges@, a.shape@, a.bit_strides@, offset0),
            offset as nat == offset0 + slice_offset(ranges@, a.shape@, a.bit_strides@, i as nat),
            shape@.len() == i,
            strides@.len() == i,
            forall|j: int|
                0 <= j < i ==> #[trigger] shape@[j] == sliced_shape(ranges@, a.shape@)[j],
            forall|j: int|
                0 <= j < i ==> #[trigger] strides@[j] == sliced_strides(
                    ranges@,
                    a.shape@,
                    a.bit_strides@,
                )[j],
        decreases k - i,
    {
        let range: SliceRange = ranges[i];
        let dim: usize = a.shape[i];
        let stride: usize = a.bit_strides[i];
        let stop: usize = if range.stop < dim {
            range.stop
        } else {
            dim
        };
        proof {
            assert(ranges@[i as int] == range);
            assert(offset0 + slice_offset(ranges@, a.shape@, a.bit_strides@, (i + 1) as nat)
                <= usize::MAX);
        }
        if range.start < stop {
            let span: usize = stop - range.start;
            proof {
                lemma_mul_nonnegative(stride as int, range.step as int);
                lemma_mul_nonnegative(range.start as int, stride as int);
                lemma_div_pos_is_pos(span + range.step - 1, range.step as int);
                lemma_div_is_ordered_by_denominator(
                    span + range.step - 1,
                    1,
                    range.step as int,
                );
                lemma_div_basics(span + range.step - 1);
            }
            shape.push((span + range.step - 1) / range.step);
            strides.push(stride * range.step);
            offset = offset + range.start * stride;
        } else {
            shape.push(0);
            strides.push(stride);
        }
        i = i + 1;
    }
    while i < n
        invariant
            k <= i <= n,
            k == ranges@.len(),
            n == a.shape@.len(),
            n == a.bit_strides@.len(),
            shape@.len() == i,
            strides@.len() == i,
            forall|j: int|
                0 <= j < i ==> #[trigger] shape@[j] == sliced_shape(ranges@, a.shape@)[j],
            forall|j: int|
                0 <= j < i ==> #[trigger] strides@[j] == sliced_strides(
                    ranges@,
                    a.shape@,
                    a.bit_strides@,
                )[j],
        decreases n - i,
    {
        shape.push(a.shape[i]);
        strides.push(a.bit_strides[i]);
        i = i + 1;
    }
    proof {
        assert(shape@ =~= sliced_shape(ranges@, a.shape@));
        assert(strides@ =~= sliced_strides(ranges@, a.shape@, a.bit_strides@));
    }
    let size: usize = crate::shape::count_elements(shape.as_slice());
    let expr: Expr = Expr::Variable {
        id: id0,
        name: name0,
        dtype: dtype0,
        size,
        packed_data: data,
        shape: copy_sizes(shape.as_slice()),
        bit_strides: copy_sizes(strides.as_slice()),
        bit_offset: offset,
        scale: scale0,
        steal_sign: steal0,
    };
    let r: NumToyArray = NumToyArray::from_expr(expr, shape, strides);
    proof {
        law_slice_shows_elements(*a, ranges@, r);
    }
    r
}

/// A part of a variable.
pub open spec fn sliced_view(
    v: ExprView,
    ranges: Seq<SliceRange>,
    shape: Seq<usize>,
    strides: Seq<usize>,
) -> ExprView {
    match v {
        ExprView::Variable { id, name, dtype, data, bit_offset, scale, steal_sign, .. } =>
        ExprView::Variable {
            id,
            name,
            dtype,
            size: numel(sliced_shape(ranges, shape)) as usize,
            data,
            shape: sliced_shape(ranges, shape),
            bit_strides: sliced_strides(ranges, shape, strides),
            bit_offset: (bit_offset + slice_offset(ranges, shape, strides, ranges.len())) as usize,
            scale,
            steal_sign,
        },
        _ => v,
    }
}

// ─── The description of arrays ───────────────────────────────────────────────

/// Why an array cannot be described to others.
#[derive(Clone, Copy, Debug, PartialEq, Eq, Structural)]
pub enum InterfaceError {
    UnalignedStride,
    CustomType,
    StolenSign,
    UnalignedOffset,
    NotMaterialized,
}

impl InterfaceError {
    /// The error as a text.
    pub open spec fn text(&self) -> Seq<char> {
        match *self {
            InterfaceError::UnalignedStride =>
            "Cannot expose non-byte-aligned strides via __array_interface__"@,
            InterfaceError::CustomType =>
            "Cannot expose custom bit-types, fixed-point, or scalable types via zero-copy __array_interface__"@,
            InterfaceError::StolenSign =>
            "Cannot expose sign-stolen AdaptableFloat arrays via zero-copy __array_interface__"@,
            InterfaceError::UnalignedOffset =>
            "Cannot expose non-byte-aligned offset via __array_interface__"@,
            InterfaceError::NotMaterialized =>
            "Cannot expose unmaterialized array. Call execute() first."@,
        }
    }

    /// The error as a text.
    pub fn message(&self) -> (r: &'static str)
        ensures
            r@ == self.text(),
    {
        match self {
            InterfaceError::UnalignedStride =>
            "Cannot expose non-byte-aligned strides via __array_interface__",
            InterfaceError::CustomType =>
            "Cannot expose custom bit-types, fixed-point, or scalable types via zero-copy __array_interface__",
            InterfaceError::StolenSign =>
            "Cannot expose sign-stolen AdaptableFloat arrays via zero-copy __array_interface__",
            InterfaceError::UnalignedOffset =>
            "Cannot expose non-byte-aligned offset via __array_interface__",
            InterfaceError::NotMaterialized =>
            "Cannot expose unmaterialized array. Call execute() first.",
        }
    }
}

/// The description of an array: its shape, its strides and the place of its first
/// element in bytes, and the name of its type.
#[derive(Debug)]
pub struct ArrayInterface {
    pub shape: Vec<usize>,
    pub byte_strides: Vec<usize>,
    pub typestr: &'static str,
    pub byte_offset: usize,
}

/// The name of a type that others have too.
pub open spec fn typestr_of(d: DataType) -> Option<Seq<char>> {
    match d {
        DataType::Float(b) => if b == 32 {
            Some("<f4"@)
        } else if b == 64 {
            Some("<f8"@)
        } else {
            None
        },
        DataType::Int(b) => if b == 8 {
            Some("<i1"@)
        } else if b == 16 {
            Some("<i2"@)
        } else if b == 32 {
            Some("<i4"@)
        } else if b == 64 {
            Some("<i8"@)
        } else {
            None
        },
        _ => None,
    }
}

/// The name of a type tells the order of its bytes, its kind and how many bytes it has.
pub proof fn law_typestr_tells_type(d: DataType)
    ensures
        typestr_of(d) matches Some(s) ==> {
            &&& s.len() == 3
            &&& s[0] == '<'
            &&& (s[1] == 'f') == (d is Float)
            &&& (s[1] == 'i') == (d is Int)
            &&& 8 * (s[2] as int - '0' as int) == dtype_width(d)
        },
{
    reveal_strlit("<f4");
    reveal_strlit("<f8");
    reveal_strlit("<i1");
    reveal_strlit("<i2");
    reveal_strlit("<i4");
    reveal_strlit("<i8");
}

/// That all strides are whole bytes.
pub open spec fn strides_aligned(s: Seq<usize>) -> bool {
    forall|i: int| 0 <= i < s.len() ==> #[trigger] s[i] % 8 == 0
}

/// Why an array cannot be described, the first reason that holds.
pub open spec fn interface_error(a: NumToyArray) -> Option<InterfaceError> {
    if !strides_aligned(a.bit_strides@) {
        Some(InterfaceError::UnalignedStride)
    } else if typestr_of(expr_type(a.expr@)) is None {
        Some(InterfaceError::CustomType)
    } else {
        match a.expr@ {
            ExprView::Variable { bit_offset, steal_sign, .. } => if steal_sign {
                Some(InterfaceError::StolenSign)
            } else if bit_offset % 8 != 0 {
                Some(InterfaceError::UnalignedOffset)
            } else {
                None
            },
            _ => Some(InterfaceError::NotMaterialized),
        }
    }
}

/// The description of an array, where others can read it in place.
pub fn array_interface(a: &NumToyArray) -> (r: Result<ArrayInterface, InterfaceError>)
    ensures
        match r {
            Ok(d) => {
                &&& interface_error(*a) is None
                &&& d.shape@ == a.shape@
                &&& d.byte_strides@ == Seq::new(
                    a.bit_strides@.len(),
                    |i: int| (a.bit_strides@[i] / 8) as usize,
                )
                &&& Some(d.typestr@) == typestr_of(expr_type(a.expr@))
                &&& a.expr@ matches ExprView::Variable { bit_offset, .. } && d.byte_offset
                    == bit_offset / 8
            },
            Err(e) => interface_error(*a) == Some(e),
        },
{
    let n: usize = a.bit_strides.len();
    let mut byte_strides: Vec<usize> = Vec::with_capacity(n);
    let mut i: usize = 0;
    while i < n
        invariant
            i <= n,
            n == a.bit_strides@.len(),
            byte_strides@.len() == i,
            forall|j: int|
                0 <= j < i ==> #[trigger] byte_strides@[j] == a.bit_strides@[j] / 8
                    && a.bit_strides@[j] % 8 == 0,
        decreases n - i,
    {
        let s: usize = a.bit_strides[i];
        if s % 8 != 0 {
            assert(a.bit_strides@[i as int] % 8 != 0);
            return Err(InterfaceError::UnalignedStride);
        }
        byte_strides.push(s / 8);
        i = i + 1;
    }
    proof {
        assert forall|j: int| 0 <= j < n implies #[trigger] a.bit_strides@[j] % 8 == 0 by {
            assert(byte_strides@[j] == a.bit_strides@[j] / 8);
        }
        assert(byte_strides@ =~= Seq::new(
            a.bit_strides@.len(),
            |i: int| (a.bit_strides@[i] / 8) as usize,
        ));
    }
    let typestr: &'static str = match a.expr.data_type() {
        DataType::Float(32) => "<f4",
        DataType::Float(64) => "<f8",
        DataType::Int(8) => "<i1",
        DataType::Int(16) => "<i2",
        DataType::Int(32) => "<i4",
        DataType::Int(64) => "<i8",
        _ => return Err(InterfaceError::CustomType),
    };
    match &a.expr {
        Expr::Variable { bit_offset, steal_sign, .. } => {
            if *steal_sign {
                return Err(InterfaceError::StolenSign);
            }
            if *bit_offset % 8 != 0 {
                return Err(InterfaceError::UnalignedOffset);
            }
            Ok(
                ArrayInterface {
                    shape: copy_sizes(a.shape.as_slice()),
                    byte_strides,
                    typestr,
                    byte_offset: *bit_offset / 8,
                },
            )
        },
        _ => Err(InterfaceError::NotMaterialized),
    }
}

} // verus!
