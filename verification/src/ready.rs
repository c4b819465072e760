//! Tests, at run time, of what the operations on arrays ask of their arguments.

use crate::array::{
    alignable, broadcast_ready, combinable, execution_type, pool_ready, NumToyArray,
};
use crate::binding::{
    product_sizes, range_fits, slice_len, slice_offset, slice_shift, slice_span, sliceable,
    sliced_shape, SliceRange,
};
use crate::bits::limb_count;
use crate::elements::{addressable, decodable};
use crate::fuser::exec::{
    cpu_ready, inputs_ready, is_float_mode, kernel_ready, packed_ready, var_decodable,
    vars_decodable,
};
use crate::fuser::helpers::{dtype_code, dtype_from_code};
use crate::fuser::interp::{eval_ready, sane, MAX_EVAL_BITS};
use crate::fuser::kernel::{
    collect_original_widths, constants_measurable, distinct_vars, elementwise, expr_needs_limbs,
    expr_views, needs_limb_interpreter, widths_with, MicroKernel,
};
use crate::fuser::plan::input_ready;
use crate::gpu::{gpu_input_ready, gpu_ready, use_count, used_vars};
use crate::ir::{expr_countable, expr_type, Expr, ExprView};
use crate::limbs::count_limbs;
use crate::shape::{
    are_compatible, broadcast_shape, broadcasts_to, count_elements, countable_shape, numel,
    pad_shape, padded_shape, prefix_product, same_sizes, strides_fit, suffix_product,
};
use crate::soft_float::{is_float_unit, FloatOp};
use crate::types::{codable, dtype_width, exponent_width, measurable, DataType, Scalar};
use std::collections::HashMap;
use vstd::arithmetic::mul::*;
use vstd::prelude::*;

verus! {

// ─── Types and sizes ─────────────────────────────────────────────────────────

/// Whether elements of a type can be coded with or without a sign bit.
pub fn is_codable(d: DataType, steal_sign: bool) -> (r: bool)
    ensures
        r == codable(d, steal_sign),
{
    let sign: u32 = if steal_sign {
        0
    } else {
        1
    };
    match d {
        DataType::Float(b) => b <= u32::MAX - 63 && (b > 64 || exponent_width(b) + sign <= b),
        DataType::Int(b) => b <= u32::MAX - 63 && b >= 1,
        DataType::ScalableInt(b) => b <= u32::MAX - 63 && b >= 1,
        DataType::ScalableFloat(b, e) => {
            let most: u32 = if b <= 64 {
                30
            } else {
                32
            };
            b <= u32::MAX - 63 && 1 <= e && e <= most && e + sign <= b
        },
        DataType::DynamicFloat => true,
        DataType::FloatingInt => true,
    }
}

/// Whether elements of a type can be read.
pub fn is_decodable(d: DataType, steal_sign: bool) -> (r: bool)
    ensures
        r == decodable(d, steal_sign),
{
    is_codable(d, steal_sign) && d.bit_width() <= 0x8000_0000
}

/// Whether every bit of `n` elements of a width has an address.
pub fn is_addressable(n: usize, w: u32) -> (r: bool)
    ensures
        r == addressable(n as nat, w as nat),
{
    let limbs: u128 = (w as u128 + 63) / 64;
    proof {
        assert(n * limbs <= 0xFFFF_FFFF_FFFF_FFFF * 0x400_0000) by (nonlinear_arith)
            requires
                0 <= n <= 0xFFFF_FFFF_FFFF_FFFF,
                0 <= limbs <= 0x400_0000,
        ;
        let p = n * limbs;
        assert(p * w <= 0xFFFF_FFFF_FFFF_FFFF * 0x400_0000 * 0xFFFF_FFFF) by (nonlinear_arith)
            requires
                0 <= p <= 0xFFFF_FFFF_FFFF_FFFF * 0x400_0000,
                0 <= w <= 0xFFFF_FFFF,
        ;
        assert(limbs as nat == limb_count(w as nat));
    }
    n as u128 * limbs * w as u128 + 64 <= usize::MAX as u128
}

/// Whether a shape can be counted from its first dimension on.
pub fn is_countable_shape(shape: &[usize]) -> (r: bool)
    ensures
        r == countable_shape(shape@),
{
    let mut product: usize = 1;
    let mut i: usize = 0;
    while i < shape.len()
        invariant
            i <= shape@.len(),
            product as nat == prefix_product(shape@, i as nat),
            forall|k: nat| k <= i ==> #[trigger] prefix_product(shape@, k) <= usize::MAX,
        decreases shape@.len() - i,
    {
        assert(prefix_product(shape@, i as nat + 1) == product * shape@[i as int]);
        match product.checked_mul(shape[i]) {
            Some(p) => {
                product = p;
            },
            None => {
                return false;
            },
        }
        i = i + 1;
    }
    true
}

/// Whether the strides of a shape can be counted.
pub fn has_strides(shape: &[usize], unit: u32) -> (r: bool)
    ensures
        r == strides_fit(shape@, unit as nat),
{
    let n: usize = shape.len();
    if unit == 0 || n == 0 {
        proof {
            assert forall|i: nat| 1 <= i <= shape@.len() implies unit * #[trigger] suffix_product(
                shape@,
                i,
            ) <= usize::MAX by {
                lemma_mul_basics(suffix_product(shape@, i) as int);
            }
        }
        return true;
    }
    let mut stride: usize = unit as usize;
    let mut i: usize = n;
    proof {
        lemma_mul_basics(unit as int);
    }
    while i > 1
        invariant
            1 <= i <= n,
            n == shape@.len(),
            stride as nat == unit * suffix_product(shape@, i as nat),
            forall|k: nat|
                i <= k <= n ==> unit * #[trigger] suffix_product(shape@, k) <= usize::MAX,
        decreases i,
    {
        proof {
            let rest = suffix_product(shape@, i as nat) as int;
            let dim = shape@[i - 1] as int;
            assert(suffix_product(shape@, (i - 1) as nat) == dim * rest);
            lemma_mul_is_commutative(dim, rest);
            lemma_mul_is_associative(unit as int, rest, dim);
        }
        match stride.checked_mul(shape[i - 1]) {
            Some(p) => {
                stride = p;
            },
            None => {
                return false;
            },
        }
        i = i - 1;
    }
    true
}

/// Whether an array of one shape can be repeated to fill another.
pub fn can_repeat(src: &[usize], tgt: &[usize]) -> (r: bool)
    ensures
        r == broadcast_ready(src@, tgt@),
{
    if src.len() > tgt.len() {
        return false;
    }
    let rank: usize = tgt.len();
    let x: Vec<usize> = pad_shape(src, rank);
    let mut i: usize = 0;
    while i < rank
        invariant
            i <= rank,
            rank == tgt@.len(),
            src@.len() <= rank,
            x@ == padded_shape(src@, rank as nat),
            x@.len() == rank,
            forall|j: int| 0 <= j < i ==> (#[trigger] x@[j] == tgt@[j] || x@[j] == 1),
        decreases rank - i,
    {
        if !(x[i] == tgt[i] || x[i] == 1) {
            proof {
                let p = padded_shape(src@, tgt@.len())[i as int];
                assert(!(p == tgt@[i as int] || p == 1));
            }
            return false;
        }
        i = i + 1;
    }
    assert(broadcasts_to(src@, tgt@));
    is_countable_shape(src) && is_countable_shape(tgt) && has_strides(src, 1) && has_strides(
        tgt,
        1,
    )
}

// ─── Expressions ─────────────────────────────────────────────────────────────

/// Whether an expression is a variable whose elements can be read.
pub fn is_readable(e: &Expr) -> (r: bool)
    ensures
        r == var_decodable(e@),
{
    match e {
        Expr::Variable { dtype, size, steal_sign, .. } => is_decodable(*dtype, *steal_sign)
            && is_addressable(*size, dtype.bit_width()),
        _ => false,
    }
}

/// Whether the elements of an expression can be counted.
pub fn is_countable(e: &Expr) -> (r: bool)
    ensures
        r == expr_countable(e@),
    decreases *e,
{
    match e {
        Expr::Variable { .. } => true,
        Expr::Constant { .. } => true,
        Expr::Add { left, right } => is_countable(left) && is_countable(right),
        Expr::Sub { left, right } => is_countable(left) && is_countable(right),
        Expr::Mul { left, right } => is_countable(left) && is_countable(right),
        Expr::Div { left, right } => is_countable(left) && is_countable(right),
        Expr::DequantizeMatmul { m, n, .. } => m.checked_mul(*n).is_some(),
    }
}

/// Whether an expression works on each element by itself.
pub fn is_elementwise(e: &Expr) -> (r: bool)
    ensures
        r == elementwise(e@),
    decreases *e,
{
    match e {
        Expr::Variable { .. } => true,
        Expr::Constant { .. } => true,
        Expr::Add { left, right } => is_elementwise(left) && is_elementwise(right),
        Expr::Sub { left, right } => is_elementwise(left) && is_elementwise(right),
        Expr::Mul { left, right } => is_elementwise(left) && is_elementwise(right),
        Expr::Div { left, right } => is_elementwise(left) && is_elementwise(right),
        Expr::DequantizeMatmul { .. } => false,
    }
}

/// Whether a scalar has a double.
pub fn has_double(s: &Scalar) -> (r: bool)
    ensures
        r == measurable(s@),
{
    match s {
        Scalar::IntLimbs(l, b) => l.len() <= 0x200_0000 && (l.len() == 0 || *b >= 1),
        Scalar::ScalableIntLimbs(l, b) => l.len() <= 0x200_0000 && (l.len() == 0 || *b >= 1),
        _ => true,
    }
}

/// Whether the constants of an expression have doubles.
pub fn has_double_constants(e: &Expr) -> (r: bool)
    ensures
        r == constants_measurable(e@),
    decreases *e,
{
    match e {
        Expr::Variable { .. } => true,
        Expr::Constant { val } => has_double(val),
        Expr::Add { left, right } => has_double_constants(left) && has_double_constants(right),
        Expr::Sub { left, right } => has_double_constants(left) && has_double_constants(right),
        Expr::Mul { left, right } => has_double_constants(left) && has_double_constants(right),
        Expr::Div { left, right } => has_double_constants(left) && has_double_constants(right),
        Expr::DequantizeMatmul { activations, weights, .. } => has_double_constants(activations)
            && has_double_constants(weights),
    }
}

/// Whether an input can be read in a mode.
fn is_input_ready(e: &Expr, widths: &HashMap<usize, u32>, float_mode: bool) -> (r: bool)
    ensures
        r == input_ready(e@, widths@, float_mode),
{
    broadcast use vstd::std_specs::hash::group_hash_axioms;

    match e {
        Expr::Variable { id, dtype, steal_sign, .. } => {
            let w: u32 = match widths.get(id) {
                Some(w) => *w,
                None => dtype.bit_width(),
            };
            let exponent: u32 = match *dtype {
                DataType::ScalableFloat(_, x) => x,
                DataType::Float(b) => if b <= 16 {
                    5
                } else if b <= 32 {
                    8
                } else {
                    11
                },
                _ => 0,
            };
            w <= u32::MAX - 63 && dtype.bit_width() >= 1 && (!float_mode || is_codable(
                dtype_from_code(dtype_code(*dtype), w, exponent),
                *steal_sign,
            ))
        },
        _ => false,
    }
}

/// Whether an expression can be compiled over packed inputs, with an output of
/// type `d`.
pub fn is_kernel_ready<F: Fn(FloatOp, u64, u64) -> u64>(e: &Expr, d: DataType, f: &F) -> (r: bool)
    requires
        is_float_unit(*f),
    ensures
        r == kernel_ready(e@, d),
{
    broadcast use vstd::std_specs::hash::group_hash_axioms;

    if !(is_countable(e) && is_elementwise(e) && has_double_constants(e) && d.bit_width()
        <= u32::MAX - 63) {
        return false;
    }
    let inputs: Vec<Expr> = MicroKernel::generate(e, f).inputs;
    let mut widths: HashMap<usize, u32> = HashMap::new();
    collect_original_widths(e, &mut widths);
    let float_mode: bool = match d {
        DataType::Int(_) => false,
        DataType::ScalableInt(_) => false,
        _ => true,
    };
    let ghost vars = distinct_vars(e@, Seq::empty());
    assert(widths@ == widths_with(e@, Map::empty()));
    assert(float_mode == is_float_mode(d));
    let mut i: usize = 0;
    while i < inputs.len()
        invariant
            i <= inputs@.len(),
            expr_views(inputs@) == vars,
            inputs@.len() == vars.len(),
            vars == distinct_vars(e@, Seq::empty()),
            widths@ == widths_with(e@, Map::empty()),
            float_mode == is_float_mode(d),
            forall|k: int| 0 <= k < i ==> input_ready(#[trigger] vars[k], widths@, float_mode),
        decreases inputs@.len() - i,
    {
        assert(vars[i as int] == inputs@[i as int]@);
        if !is_input_ready(&inputs[i], &widths, float_mode) {
            assert(!inputs_ready(vars, widths@, float_mode));
            return false;
        }
        i = i + 1;
    }
    true
}

/// Whether a scalar can be evaluated.
fn is_sane(s: &Scalar) -> (r: bool)
    ensures
        r == sane(s@),
{
    match s {
        Scalar::Int(_, b) => 1 <= *b && *b <= MAX_EVAL_BITS,
        Scalar::ScalableInt(_, b) => 1 <= *b && *b <= MAX_EVAL_BITS,
        Scalar::IntLimbs(l, b) => 64 < *b && *b <= MAX_EVAL_BITS && l.len() == count_limbs(*b),
        Scalar::ScalableIntLimbs(l, b) => 64 < *b && *b <= MAX_EVAL_BITS && l.len() == count_limbs(
            *b,
        ),
        _ => true,
    }
}

/// Whether an expression can be evaluated for `size` elements.
fn is_eval_ready(e: &Expr, size: usize) -> (r: bool)
    ensures
        r == eval_ready(e@, size as nat),
    decreases *e,
{
    match e {
        Expr::Variable { dtype, size: n, steal_sign, .. } => is_codable(*dtype, *steal_sign)
            && dtype.bit_width() <= MAX_EVAL_BITS && is_addressable(*n, dtype.bit_width()) && *n
            >= size,
        Expr::Constant { val } => is_sane(val),
        Expr::Add { left, right } => is_eval_ready(left, size) && is_eval_ready(right, size),
        Expr::Sub { left, right } => is_eval_ready(left, size) && is_eval_ready(right, size),
        Expr::Mul { left, right } => is_eval_ready(left, size) && is_eval_ready(right, size),
        Expr::Div { left, right } => is_eval_ready(left, size) && is_eval_ready(right, size),
        Expr::DequantizeMatmul { .. } => false,
    }
}

/// Whether an expression can be executed over doubles.
pub fn is_cpu_ready<F: Fn(FloatOp, u64, u64) -> u64>(e: &Expr, f: &F) -> (r: bool)
    requires
        is_float_unit(*f),
    ensures
        r == cpu_ready(e@),
{
    if !is_countable(e) {
        return false;
    }
    let d: DataType = e.data_type();
    let size: usize = e.size();
    if !(is_codable(d, false) && is_addressable(size, d.bit_width()) && is_addressable(size, 64)) {
        return false;
    }
    if needs_limb_interpreter(e) {
        return is_eval_ready(e, size);
    }
    if !(is_elementwise(e) && has_double_constants(e)) {
        return false;
    }
    let inputs: Vec<Expr> = MicroKernel::generate(e, f).inputs;
    let ghost vars = distinct_vars(e@, Seq::empty());
    let mut i: usize = 0;
    while i < inputs.len()
        invariant
            i <= inputs@.len(),
            expr_views(inputs@) == vars,
            inputs@.len() == vars.len(),
            vars == distinct_vars(e@, Seq::empty()),
            !expr_needs_limbs(e@),
            forall|k: int| 0 <= k < i ==> var_decodable(#[trigger] vars[k]),
        decreases inputs@.len() - i,
    {
        assert(vars[i as int] == inputs@[i as int]@);
        if !is_readable(&inputs[i]) {
            assert(!vars_decodable(vars));
            return false;
        }
        i = i + 1;
    }
    true
}

/// Whether an expression can be executed over packed inputs.
pub fn is_packed_ready<F: Fn(FloatOp, u64, u64) -> u64>(e: &Expr, f: &F) -> (r: bool)
    requires
        is_float_unit(*f),
    ensures
        r == packed_ready(e@),
{
    if !is_countable(e) {
        return false;
    }
    let d: DataType = e.data_type();
    let size: usize = e.size();
    is_kernel_ready(e, d, f) && is_decodable(d, false) && is_addressable(size, d.bit_width())
        && is_addressable(size, 64)
}

/// How many variables an expression reads, where that can be counted.
pub fn count_uses(e: &Expr) -> (r: Option<usize>)
    ensures
        match r {
            Some(n) => n as nat == use_count(e@),
            None => use_count(e@) > usize::MAX,
        },
    decreases *e,
{
    match e {
        Expr::Variable { .. } => Some(1),
        Expr::Constant { .. } => Some(0),
        Expr::Add { left, right } => join_counts(count_uses(left), count_uses(right)),
        Expr::Sub { left, right } => join_counts(count_uses(left), count_uses(right)),
        Expr::Mul { left, right } => join_counts(count_uses(left), count_uses(right)),
        Expr::Div { left, right } => join_counts(count_uses(left), count_uses(right)),
        Expr::DequantizeMatmul { .. } => Some(0),
    }
}

fn join_counts(a: Option<usize>, b: Option<usize>) -> (r: Option<usize>)
    ensures
        match (a, b) {
            (Some(x), Some(y)) => r == if x + y <= usize::MAX {
                Some((x + y) as usize)
            } else {
                None
            },
            _ => r is None,
        },
{
    match (a, b) {
        (Some(x), Some(y)) => x.checked_add(y),
        _ => None,
    }
}

/// That `size` elements of each of some variables can be taken as doubles.
pub open spec fn gpu_inputs_ready(vars: Seq<ExprView>, size: nat) -> bool {
    forall|k: int| 0 <= k < vars.len() ==> gpu_input_ready(#[trigger] vars[k], size)
}

/// Whether `size` elements of each variable of an expression can be taken as
/// doubles.
fn are_gpu_inputs_ready(e: &Expr, size: usize) -> (r: bool)
    ensures
        r == gpu_inputs_ready(used_vars(e@), size as nat),
    decreases *e,
{
    match e {
        Expr::Variable { dtype, steal_sign, .. } => {
            let r: bool = is_decodable(*dtype, *steal_sign) && is_addressable(
                size,
                dtype.bit_width(),
            );
            proof {
                let vars = used_vars(e@);
                assert(vars.len() == 1 && vars[0] == e@);
                assert(r == gpu_input_ready(vars[0], size as nat));
            }
            r
        },
        Expr::Constant { .. } => true,
        Expr::Add { left, right } => {
            let r: bool = are_gpu_inputs_ready(left, size) && are_gpu_inputs_ready(right, size);
            proof {
                lemma_parts_ready(left@, right@, size as nat);
            }
            r
        },
        Expr::Sub { left, right } => {
            let r: bool = are_gpu_inputs_ready(left, size) && are_gpu_inputs_ready(right, size);
            proof {
                lemma_parts_ready(left@, right@, size as nat);
            }
            r
        },
        Expr::Mul { left, right } => {
            let r: bool = are_gpu_inputs_ready(left, size) && are_gpu_inputs_ready(right, size);
            proof {
                lemma_parts_ready(left@, right@, size as nat);
            }
            r
        },
        Expr::Div { left, right } => {
            let r: bool = are_gpu_inputs_ready(left, size) && are_gpu_inputs_ready(right, size);
            proof {
                lemma_parts_ready(left@, right@, size as nat);
            }
            r
        },
        Expr::DequantizeMatmul { .. } => true,
    }
}

/// The inputs of two expressions together are ready where those of each are.
proof fn lemma_parts_ready(a: ExprView, b: ExprView, size: nat)
    ensures
        gpu_inputs_ready(used_vars(a) + used_vars(b), size) == (gpu_inputs_ready(
            used_vars(a),
            size,
        ) && gpu_inputs_ready(used_vars(b), size)),
{
    let (x, y) = (used_vars(a), used_vars(b));
    let s = x + y;
    if gpu_inputs_ready(s, size) {
        assert forall|k: int| 0 <= k < x.len() implies gpu_input_ready(#[trigger] x[k], size) by {
            assert(s[k] == x[k]);
        }
        assert forall|k: int| 0 <= k < y.len() implies gpu_input_ready(#[trigger] y[k], size) by {
            assert(s[x.len() + k] == y[k]);
        }
    }
}

/// Whether an expression can be run on a graphics processor.
pub fn is_gpu_ready(e: &Expr) -> (r: bool)
    ensures
        r == gpu_ready(e@),
{
    if !(is_countable(e) && has_double_constants(e)) {
        return false;
    }
    let counted: bool = match count_uses(e) {
        Some(n) => n < usize::MAX,
        None => false,
    };
    let d: DataType = e.data_type();
    counted && is_codable(d, false) && is_addressable(e.size(), d.bit_width())
        && are_gpu_inputs_ready(e, e.size())
}

// ─── Arrays ──────────────────────────────────────────────────────────────────

/// Whether an array can be given another shape.
pub fn can_reshape(a: &NumToyArray, new_shape: &[usize]) -> (r: bool)
    ensures
        r == {
            &&& countable_shape(a.shape@)
            &&& countable_shape(new_shape@)
            &&& numel(new_shape@) == numel(a.shape@)
            &&& strides_fit(new_shape@, dtype_width(expr_type(a.expr@)) as nat)
        },
{
    is_countable_shape(a.shape.as_slice()) && is_countable_shape(new_shape) && count_elements(
        new_shape,
    ) == count_elements(a.shape.as_slice()) && has_strides(
        new_shape,
        a.expr.data_type().bit_width(),
    )
}

/// Whether an array can be broadcast to a target shape.
pub fn can_broadcast(a: &NumToyArray, tgt: &[usize]) -> (r: bool)
    ensures
        r == a.broadcastable(tgt@),
{
    if !can_repeat(a.shape.as_slice(), tgt) {
        return false;
    }
    if same_sizes(a.shape.as_slice(), tgt) {
        return true;
    }
    match &a.expr {
        Expr::Variable { dtype, size, .. } => {
            let count: usize = count_elements(tgt);
            is_readable(&a.expr) && is_codable(*dtype, false) && (*size > 0 || count == 0)
                && is_addressable(count, dtype.bit_width()) && has_strides(tgt, dtype.bit_width())
        },
        _ => false,
    }
}

/// Whether an array can be aligned to a joint shape.
fn can_align<F: Fn(FloatOp, u64, u64) -> u64>(a: &NumToyArray, joint: &[usize], f: &F) -> (r: bool)
    requires
        is_float_unit(*f),
    ensures
        r == alignable(*a, joint@),
{
    if !can_broadcast(a, joint) {
        return false;
    }
    if !same_sizes(a.shape.as_slice(), joint) {
        return true;
    }
    match &a.expr {
        Expr::Variable { .. } => true,
        _ => is_pool_ready(&a.expr, f),
    }
}

/// The type in which an expression is computed.
pub fn computed_in(d: DataType) -> (r: DataType)
    ensures
        r == execution_type(d),
{
    match d {
        DataType::ScalableInt(_) => DataType::Int(64),
        _ => d,
    }
}

/// Whether an expression can be executed by the pool.
pub fn is_pool_ready<F: Fn(FloatOp, u64, u64) -> u64>(e: &Expr, f: &F) -> (r: bool)
    requires
        is_float_unit(*f),
    ensures
        r == pool_ready(e@),
{
    if !is_countable(e) {
        return false;
    }
    let d: DataType = computed_in(e.data_type());
    is_kernel_ready(e, d, f) && (!e.steal_sign() || (is_decodable(d, false) && is_addressable(
        e.size(),
        d.bit_width(),
    )))
}

/// Whether two arrays can be combined element by element.
pub fn can_combine<F: Fn(FloatOp, u64, u64) -> u64>(a: &NumToyArray, b: &NumToyArray, f: &F) -> (r:
    bool)
    requires
        is_float_unit(*f),
    ensures
        r == combinable(*a, *b),
{
    if !are_compatible(a.shape.as_slice(), b.shape.as_slice()) {
        return false;
    }
    let joint: Vec<usize> = broadcast_shape(a.shape.as_slice(), b.shape.as_slice());
    let d: DataType = a.expr.data_type();
    can_align(a, joint.as_slice(), f) && can_align(b, joint.as_slice(), f) && has_strides(
        joint.as_slice(),
        computed_in(d).bit_width(),
    ) && has_strides(joint.as_slice(), d.bit_width())
}

/// Whether the strides of a matrix product can be counted.
pub fn can_multiply(activations: &NumToyArray, weights: &NumToyArray) -> (r: bool)
    ensures
        r == (64 * product_sizes(activations.shape@, weights.shape@).2 <= usize::MAX),
{
    if activations.shape.len() >= 2 && weights.shape.len() >= 2 {
        weights.shape[1] <= usize::MAX / 64
    } else {
        true
    }
}

/// Whether ranges can be taken of an array.
pub fn can_slice(a: &NumToyArray, ranges: &[SliceRange]) -> (r: bool)
    ensures
        r == match a.expr@ {
            ExprView::Variable { bit_offset, .. } => sliceable(
                ranges@,
                a.shape@,
                a.bit_strides@,
                bit_offset,
            ),
            _ => false,
        },
{
    let start: usize = match &a.expr {
        Expr::Variable { bit_offset, .. } => *bit_offset,
        _ => {
            return false;
        },
    };
    if ranges.len() > a.shape.len() || a.bit_strides.len() != a.shape.len() {
        return false;
    }
    let mut offset: usize = start;
    let mut lens: Vec<usize> = Vec::new();
    let mut i: usize = 0;
    while i < ranges.len()
        invariant
            i <= ranges@.len() <= a.shape@.len(),
            a.bit_strides@.len() == a.shape@.len(),
            lens@.len() == i,
            offset as nat == start + slice_offset(ranges@, a.shape@, a.bit_strides@, i as nat),
            a.expr@ matches ExprView::Variable { bit_offset, .. } && bit_offset == start,
            forall|j: int|
                0 <= j < i ==> range_fits(#[trigger] ranges@[j], a.shape@[j], a.bit_strides@[j]),
            forall|k: nat|
                k <= i ==> start + #[trigger] slice_offset(ranges@, a.shape@, a.bit_strides@, k)
                    <= usize::MAX,
            forall|j: int|
                0 <= j < i ==> #[trigger] lens@[j] == slice_len(ranges@[j], a.shape@[j]) as usize,
        decreases ranges@.len() - i,
    {
        let x: SliceRange = ranges[i];
        let dim: usize = a.shape[i];
        let stride: usize = a.bit_strides[i];
        assert(slice_offset(ranges@, a.shape@, a.bit_strides@, (i + 1) as nat) == slice_offset(
            ranges@,
            a.shape@,
            a.bit_strides@,
            i as nat,
        ) + slice_shift(x, dim, stride));
        let stop: usize = if x.stop < dim {
            x.stop
        } else {
            dim
        };
        if x.start < stop {
            let span: usize = stop - x.start;
            assert(span as nat == slice_span(x, dim));
            let shift: usize = match x.start.checked_mul(stride) {
                Some(n) => n,
                None => {
                    assert(!range_fits(ranges@[i as int], dim, stride));
                    return false;
                },
            };
            if x.step == 0 || span > usize::MAX - x.step || stride.checked_mul(x.step).is_none() {
                assert(!range_fits(ranges@[i as int], dim, stride));
                return false;
            }
            match offset.checked_add(shift) {
                Some(n) => {
                    offset = n;
                },
                None => {
                    return false;
                },
            }
            lens.push((span + x.step - 1) / x.step);
        } else {
            lens.push(0);
        }
        i = i + 1;
    }
    while i < a.shape.len()
        invariant
            ranges@.len() <= i <= a.shape@.len(),
            lens@.len() == i,
            forall|j: int|
                0 <= j < i ==> #[trigger] lens@[j] == sliced_shape(ranges@, a.shape@)[j],
        decreases a.shape@.len() - i,
    {
        lens.push(a.shape[i]);
        i = i + 1;
    }
    assert(lens@ =~= sliced_shape(ranges@, a.shape@));
    is_countable_shape(lens.as_slice())
}

} // verus!
