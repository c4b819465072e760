//! Lazy element-wise expressions and their symbolic derivatives.

use crate::bits::{limbs_nat, signed_value};
use crate::soft_float::{F64Bits, F64_ONE};
use crate::types::int_codec::f64_integer;
use crate::types::{dtype_width, scalar_type, DataType, Scalar, ScalarView};
use std::sync::Arc;
use vstd::arithmetic::mul::*;
use vstd::arithmetic::power2::*;
use vstd::prelude::*;

verus! {

// ─── Shared values ───────────────────────────────────────────────────────────

/// Another handle on a shared value, by `std::sync::Arc::clone`: the new handle
/// points to the same value, which is all the contract claims of it.
#[verifier::external_body]
pub(crate) fn share<T>(a: &Arc<T>) -> (r: Arc<T>)
    ensures
        r == *a,
{
    Arc::clone(a)
}

/// The bytes behind a variable.
#[derive(Debug)]
pub enum PackedBuffer {
    /// Bytes in memory.
    Memory(Arc<Vec<u8>>),
}

impl View for PackedBuffer {
    type V = Seq<u8>;

    open spec fn view(&self) -> Seq<u8> {
        match *self {
            PackedBuffer::Memory(bytes) => (*bytes)@,
        }
    }
}

impl Clone for PackedBuffer {
    fn clone(&self) -> (r: Self)
        ensures
            r == *self,
    {
        match self {
            PackedBuffer::Memory(bytes) => PackedBuffer::Memory(share(bytes)),
        }
    }
}

impl PackedBuffer {
    /// The bytes.
    pub fn as_slice(&self) -> (r: &[u8])
        ensures
            r@ == self@,
    {
        match self {
            PackedBuffer::Memory(bytes) => (**bytes).as_slice(),
        }
    }

    /// A buffer that holds the given bytes.
    pub fn from_bytes(bytes: Vec<u8>) -> (r: Self)
        ensures
            r@ == bytes@,
    {
        PackedBuffer::Memory(Arc::new(bytes))
    }
}

/// A copy of a list of sizes.
pub fn copy_sizes(s: &[usize]) -> (r: Vec<usize>)
    ensures
        r@ == s@,
{
    let mut r: Vec<usize> = Vec::with_capacity(s.len());
    let mut i: usize = 0;
    while i < s.len()
        invariant
            i <= s@.len(),
            r@ =~= s@.take(i as int),
        decreases s@.len() - i,
    {
        r.push(s[i]);
        i = i + 1;
    }
    assert(s@.take(i as int) =~= s@);
    r
}

// ─── Expressions ─────────────────────────────────────────────────────────────

/// A lazy element-wise expression.
#[derive(Debug)]
pub enum Expr {
    /// A packed array.
    Variable {
        id: usize,
        name: String,
        dtype: DataType,
        size: usize,
        packed_data: PackedBuffer,
        shape: Vec<usize>,
        bit_strides: Vec<usize>,
        bit_offset: usize,
        scale: Option<u32>,
        steal_sign: bool,
    },
    /// One value for every element.
    Constant { val: Scalar },
    Add { left: Arc<Expr>, right: Arc<Expr> },
    Sub { left: Arc<Expr>, right: Arc<Expr> },
    Mul { left: Arc<Expr>, right: Arc<Expr> },
    Div { left: Arc<Expr>, right: Arc<Expr> },
    /// The product of an `m` by `k` matrix with a quantized `k` by `n` one.
    DequantizeMatmul { activations: Arc<Expr>, weights: Arc<Expr>, m: usize, k: usize, n: usize },
}

/// What an `Expr` stands for.
pub enum ExprView {
    Variable {
        id: usize,
        name: Seq<char>,
        dtype: DataType,
        size: usize,
        data: Seq<u8>,
        shape: Seq<usize>,
        bit_strides: Seq<usize>,
        bit_offset: usize,
        scale: Option<u32>,
        steal_sign: bool,
    },
    Constant { val: ScalarView },
    Add { left: Box<ExprView>, right: Box<ExprView> },
    Sub { left: Box<ExprView>, right: Box<ExprView> },
    Mul { left: Box<ExprView>, right: Box<ExprView> },
    Div { left: Box<ExprView>, right: Box<ExprView> },
    DequantizeMatmul {
        activations: Box<ExprView>,
        weights: Box<ExprView>,
        m: usize,
        k: usize,
        n: usize,
    },
}

/// The view of an expression.
pub open spec fn expr_view(e: Expr) -> ExprView
    decreases e,
{
    match e {
        Expr::Variable {
            id,
            name,
            dtype,
            size,
            packed_data,
            shape,
            bit_strides,
            bit_offset,
            scale,
            steal_sign,
        } => ExprView::Variable {
            id,
            name: name@,
            dtype,
            size,
            data: packed_data@,
            shape: shape@,
            bit_strides: bit_strides@,
            bit_offset,
            scale,
            steal_sign,
        },
        Expr::Constant { val } => ExprView::Constant { val: val@ },
        Expr::Add { left, right } => ExprView::Add {
            left: Box::new(expr_view(*left)),
            right: Box::new(expr_view(*right)),
        },
        Expr::Sub { left, right } => ExprView::Sub {
            left: Box::new(expr_view(*left)),
            right: Box::new(expr_view(*right)),
        },
        Expr::Mul { left, right } => ExprView::Mul {
            left: Box::new(expr_view(*left)),
            right: Box::new(expr_view(*right)),
        },
        Expr::Div { left, right } => ExprView::Div {
            left: Box::new(expr_view(*left)),
            right: Box::new(expr_view(*right)),
        },
        Expr::DequantizeMatmul { activations, weights, m, k, n } => ExprView::DequantizeMatmul {
            activations: Box::new(expr_view(*activations)),
            weights: Box::new(expr_view(*weights)),
            m,
            k,
            n,
        },
    }
}

impl View for Expr {
    type V = ExprView;

    open spec fn view(&self) -> ExprView {
        expr_view(*self)
    }
}

// ─── What an expression yields ───────────────────────────────────────────────

/// The element type: that of the leftmost leaf, a double for a matrix product.
pub open spec fn expr_type(e: ExprView) -> DataType
    decreases e,
{
    match e {
        ExprView::Variable { dtype, .. } => dtype,
        ExprView::Constant { val } => scalar_type(val),
        ExprView::Add { left, .. } => expr_type(*left),
        ExprView::Sub { left, .. } => expr_type(*left),
        ExprView::Mul { left, .. } => expr_type(*left),
        ExprView::Div { left, .. } => expr_type(*left),
        ExprView::DequantizeMatmul { .. } => DataType::Float(64),
    }
}

/// The larger of two sizes.
pub open spec fn larger(a: nat, b: nat) -> nat {
    if a > b {
        a
    } else {
        b
    }
}

/// The number of elements: that of the largest operand.
pub open spec fn expr_size(e: ExprView) -> nat
    decreases e,
{
    match e {
        ExprView::Variable { size, .. } => size as nat,
        ExprView::Constant { .. } => 1,
        ExprView::Add { left, right } => larger(expr_size(*left), expr_size(*right)),
        ExprView::Sub { left, right } => larger(expr_size(*left), expr_size(*right)),
        ExprView::Mul { left, right } => larger(expr_size(*left), expr_size(*right)),
        ExprView::Div { left, right } => larger(expr_size(*left), expr_size(*right)),
        ExprView::DequantizeMatmul { m, n, .. } => m as nat * n as nat,
    }
}

/// The decimal scale of a constant, if it is a fixed-point number.
pub open spec fn scalar_scale(s: ScalarView) -> Option<u32> {
    match s {
        ScalarView::FloatingInt { scale, .. } => Some(scale),
        _ => None,
    }
}

/// The first of two optional scales.
pub open spec fn first_scale(a: Option<u32>, b: Option<u32>) -> Option<u32> {
    match a {
        Some(s) => Some(s),
        None => b,
    }
}

/// The decimal scale: that of the leftmost leaf that has one.
pub open spec fn expr_scale(e: ExprView) -> Option<u32>
    decreases e,
{
    match e {
        ExprView::Variable { scale, .. } => scale,
        ExprView::Constant { val } => scalar_scale(val),
        ExprView::Add { left, right } => first_scale(expr_scale(*left), expr_scale(*right)),
        ExprView::Sub { left, right } => first_scale(expr_scale(*left), expr_scale(*right)),
        ExprView::Mul { left, right } => first_scale(expr_scale(*left), expr_scale(*right)),
        ExprView::Div { left, right } => first_scale(expr_scale(*left), expr_scale(*right)),
        ExprView::DequantizeMatmul { .. } => None,
    }
}

/// Whether the sign bit is given to the mantissa: as in the leftmost leaf.
pub open spec fn expr_steal(e: ExprView) -> bool
    decreases e,
{
    match e {
        ExprView::Variable { steal_sign, .. } => steal_sign,
        ExprView::Constant { .. } => false,
        ExprView::Add { left, .. } => expr_steal(*left),
        ExprView::Sub { left, .. } => expr_steal(*left),
        ExprView::Mul { left, .. } => expr_steal(*left),
        ExprView::Div { left, .. } => expr_steal(*left),
        ExprView::DequantizeMatmul { .. } => false,
    }
}

/// That the sizes of an expression's matrix products can be counted.
pub open spec fn expr_countable(e: ExprView) -> bool
    decreases e,
{
    match e {
        ExprView::Variable { .. } => true,
        ExprView::Constant { .. } => true,
        ExprView::Add { left, right } => expr_countable(*left) && expr_countable(*right),
        ExprView::Sub { left, right } => expr_countable(*left) && expr_countable(*right),
        ExprView::Mul { left, right } => expr_countable(*left) && expr_countable(*right),
        ExprView::Div { left, right } => expr_countable(*left) && expr_countable(*right),
        ExprView::DequantizeMatmul { m, n, .. } => m * n <= usize::MAX,
    }
}

// ─── Derivatives ─────────────────────────────────────────────────────────────

/// Zero or one as a constant of the given type.
pub open spec fn unit_scalar(d: DataType, one: bool) -> ScalarView {
    let v: u64 = if one {
        F64_ONE
    } else {
        0
    };
    let i: i64 = if one {
        1
    } else {
        0
    };
    match d {
        DataType::Float(b) => ScalarView::Float(v, b),
        DataType::Int(b) => ScalarView::Int(i, b),
        DataType::DynamicFloat => ScalarView::DynamicFloat(v),
        DataType::FloatingInt => ScalarView::FloatingInt { value: i, scale: 0 },
        DataType::ScalableInt(b) => ScalarView::ScalableInt(i, b),
        DataType::ScalableFloat(b, e) => ScalarView::ScalableFloat(v, b, e),
    }
}

/// The derivative of an expression by the variables with the given id: sum,
/// product and quotient rule, with constants of the type they stand for.
pub open spec fn derivative(e: ExprView, wrt: usize) -> ExprView
    decreases e,
{
    match e {
        ExprView::Variable { id, dtype, .. } => ExprView::Constant {
            val: unit_scalar(dtype, id == wrt),
        },
        ExprView::Constant { val } => ExprView::Constant {
            val: unit_scalar(scalar_type(val), false),
        },
        ExprView::Add { left, right } => ExprView::Add {
            left: Box::new(derivative(*left, wrt)),
            right: Box::new(derivative(*right, wrt)),
        },
        ExprView::Sub { left, right } => ExprView::Sub {
            left: Box::new(derivative(*left, wrt)),
            right: Box::new(derivative(*right, wrt)),
        },
        ExprView::Mul { left, right } => ExprView::Add {
            left: Box::new(
                ExprView::Mul { left, right: Box::new(derivative(*right, wrt)) },
            ),
            right: Box::new(
                ExprView::Mul { left: right, right: Box::new(derivative(*left, wrt)) },
            ),
        },
        ExprView::Div { left, right } => ExprView::Div {
            left: Box::new(
                ExprView::Sub {
                    left: Box::new(
                        ExprView::Mul { left: Box::new(derivative(*left, wrt)), right },
                    ),
                    right: Box::new(
                        ExprView::Mul { left, right: Box::new(derivative(*right, wrt)) },
                    ),
                },
            ),
            right: Box::new(ExprView::Mul { left: right, right }),
        },
        ExprView::DequantizeMatmul { activations, weights, m, k, n } => ExprView::Add {
            left: Box::new(
                ExprView::DequantizeMatmul {
                    activations: Box::new(derivative(*activations, wrt)),
                    weights,
                    m,
                    k,
                    n,
                },
            ),
            right: Box::new(
                ExprView::DequantizeMatmul {
                    activations,
                    weights: Box::new(derivative(*weights, wrt)),
                    m,
                    k,
                    n,
                },
            ),
        },
    }
}

/// A derivative has the type of the expression.
pub proof fn law_derivative_type(e: ExprView, wrt: usize)
    ensures
        expr_type(derivative(e, wrt)) == expr_type(e),
    decreases e,
{
    reveal_with_fuel(expr_type, 4);
    match e {
        ExprView::Variable { .. } => {},
        ExprView::Constant { .. } => {},
        ExprView::Add { left, .. } => {
            law_derivative_type(*left, wrt);
        },
        ExprView::Sub { left, .. } => {
            law_derivative_type(*left, wrt);
        },
        ExprView::Mul { .. } => {},
        ExprView::Div { left, .. } => {
            law_derivative_type(*left, wrt);
        },
        ExprView::DequantizeMatmul { .. } => {},
    }
}

/// A derivative has no more elements than the expression, or one.
pub proof fn law_derivative_size(e: ExprView, wrt: usize)
    ensures
        expr_size(derivative(e, wrt)) <= larger(expr_size(e), 1),
    decreases e,
{
    reveal_with_fuel(expr_size, 4);
    match e {
        ExprView::Variable { .. } => {},
        ExprView::Constant { .. } => {},
        ExprView::Add { left, right } => {
            law_derivative_size(*left, wrt);
            law_derivative_size(*right, wrt);
        },
        ExprView::Sub { left, right } => {
            law_derivative_size(*left, wrt);
            law_derivative_size(*right, wrt);
        },
        ExprView::Mul { left, right } => {
            law_derivative_size(*left, wrt);
            law_derivative_size(*right, wrt);
        },
        ExprView::Div { left, right } => {
            law_derivative_size(*left, wrt);
            law_derivative_size(*right, wrt);
        },
        ExprView::DequantizeMatmul { .. } => {},
    }
}

/// A constant as an integer.
pub open spec fn scalar_int(s: ScalarView) -> int {
    match s {
        ScalarView::Float(v, _) => f64_integer(v),
        ScalarView::Int(v, _) => v as int,
        ScalarView::DynamicFloat(v) => f64_integer(v),
        ScalarView::FloatingInt { value, .. } => value as int,
        ScalarView::ScalableInt(v, _) => v as int,
        ScalarView::ScalableFloat(v, _, _) => f64_integer(v),
        ScalarView::IntLimbs(l, b) => signed_value(limbs_nat(l), b as nat),
        ScalarView::ScalableIntLimbs(l, b) => signed_value(limbs_nat(l), b as nat),
    }
}

/// That an expression is built from sums, differences and products alone.
pub open spec fn is_polynomial(e: ExprView) -> bool
    decreases e,
{
    match e {
        ExprView::Variable { .. } => true,
        ExprView::Constant { .. } => true,
        ExprView::Add { left, right } => is_polynomial(*left) && is_polynomial(*right),
        ExprView::Sub { left, right } => is_polynomial(*left) && is_polynomial(*right),
        ExprView::Mul { left, right } => is_polynomial(*left) && is_polynomial(*right),
        ExprView::Div { .. } => false,
        ExprView::DequantizeMatmul { .. } => false,
    }
}

/// The value of a polynomial where the variable with id `i` is `env(i)`.
pub open spec fn polynomial_value(e: ExprView, env: spec_fn(usize) -> int) -> int
    decreases e,
{
    match e {
        ExprView::Variable { id, .. } => env(id),
        ExprView::Constant { val } => scalar_int(val),
        ExprView::Add { left, right } => polynomial_value(*left, env) + polynomial_value(
            *right,
            env,
        ),
        ExprView::Sub { left, right } => polynomial_value(*left, env) - polynomial_value(
            *right,
            env,
        ),
        ExprView::Mul { left, right } => polynomial_value(*left, env) * polynomial_value(
            *right,
            env,
        ),
        ExprView::Div { .. } => 0,
        ExprView::DequantizeMatmul { .. } => 0,
    }
}

/// An assignment with one variable moved by `h`.
pub open spec fn moved(env: spec_fn(usize) -> int, wrt: usize, h: int) -> spec_fn(usize) -> int {
    |i: usize|
        if i == wrt {
            env(i) + h
        } else {
            env(i)
        }
}

/// The quadratic rest of a polynomial's change.
pub open spec fn quadratic_rest(
    e: ExprView,
    env: spec_fn(usize) -> int,
    wrt: usize,
    h: int,
    q: int,
) -> bool {
    polynomial_value(e, moved(env, wrt, h)) == polynomial_value(e, env) + h * polynomial_value(
        derivative(e, wrt),
        env,
    ) + h * h * q
}

proof fn lemma_unit_value(d: DataType, one: bool)
    ensures
        scalar_int(unit_scalar(d, one)) == if one {
            1int
        } else {
            0
        },
{
    let b: u64 = 0x3ff0_0000_0000_0000;
    assert(b as nat / 0x10_0000_0000_0000 == 1023);
    assert(crate::soft_float::f64_exp(b) == 1023);
    assert(crate::soft_float::f64_frac(b) == 0);
    lemma2_to64_rest();
    assert(crate::soft_float::f64_weight(b) == -52);
    assert(pow2(52) == 0x10_0000_0000_0000);
    assert(0x10_0000_0000_0000nat / 0x10_0000_0000_0000nat == 1);
    assert(crate::soft_float::f64_floor_magnitude(b) == 1);
    assert(crate::soft_float::f64_exp(0) == 0);
}

/// The derivative of a polynomial is the slope of its change: moving one
/// variable by `h` moves the value by `h` times the derivative, up to a multiple
/// of `h * h`.
pub proof fn law_derivative_is_slope(e: ExprView, env: spec_fn(usize) -> int, wrt: usize, h: int)
    requires
        is_polynomial(e),
    ensures
        exists|q: int| #[trigger] quadratic_rest(e, env, wrt, h, q),
    decreases e,
{
    reveal_with_fuel(polynomial_value, 3);
    match e {
        ExprView::Variable { id, dtype, .. } => {
            lemma_unit_value(dtype, id == wrt);
            lemma_mul_basics(h);
            lemma_mul_basics(h * h);
            assert(quadratic_rest(e, env, wrt, h, 0));
        },
        ExprView::Constant { val } => {
            lemma_unit_value(scalar_type(val), false);
            lemma_mul_basics(h);
            lemma_mul_basics(h * h);
            assert(quadratic_rest(e, env, wrt, h, 0));
        },
        ExprView::Add { left, right } => {
            law_derivative_is_slope(*left, env, wrt, h);
            law_derivative_is_slope(*right, env, wrt, h);
            let ql = choose|q: int| #[trigger] quadratic_rest(*left, env, wrt, h, q);
            let qr = choose|q: int| #[trigger] quadratic_rest(*right, env, wrt, h, q);
            let a = polynomial_value(derivative(*left, wrt), env);
            let b = polynomial_value(derivative(*right, wrt), env);
            lemma_mul_is_distributive_add(h, a, b);
            lemma_mul_is_distributive_add(h * h, ql, qr);
            assert(quadratic_rest(e, env, wrt, h, ql + qr));
        },
        ExprView::Sub { left, right } => {
            law_derivative_is_slope(*left, env, wrt, h);
            law_derivative_is_slope(*right, env, wrt, h);
            let ql = choose|q: int| #[trigger] quadratic_rest(*left, env, wrt, h, q);
            let qr = choose|q: int| #[trigger] quadratic_rest(*right, env, wrt, h, q);
            let a = polynomial_value(derivative(*left, wrt), env);
            let b = polynomial_value(derivative(*right, wrt), env);
            lemma_mul_is_distributive_sub(h, a, b);
            lemma_mul_is_distributive_sub(h * h, ql, qr);
            assert(quadratic_rest(e, env, wrt, h, ql - qr));
        },
        ExprView::Mul { left, right } => {
            law_derivative_is_slope(*left, env, wrt, h);
            law_derivative_is_slope(*right, env, wrt, h);
            let ql = choose|q: int| #[trigger] quadratic_rest(*left, env, wrt, h, q);
            let qr = choose|q: int| #[trigger] quadratic_rest(*right, env, wrt, h, q);
            let l = polynomial_value(*left, env);
            let r = polynomial_value(*right, env);
            let a = polynomial_value(derivative(*left, wrt), env);
            let b = polynomial_value(derivative(*right, wrt), env);
            let q = l * qr + r * ql + (a + h * ql) * (b + h * qr);
            lemma_product_change(l, r, a, b, ql, qr, h);
            assert(quadratic_rest(e, env, wrt, h, q));
        },
        _ => {},
    }
}

pub proof fn lemma_product_change(l: int, r: int, a: int, b: int, ql: int, qr: int, h: int)
    ensures
        (l + h * a + h * h * ql) * (r + h * b + h * h * qr) == l * r + h * (l * b + r * a) + h * h
            * (l * qr + r * ql + (a + h * ql) * (b + h * qr)),
{
    let u = a + h * ql;
    let v = b + h * qr;
    lemma_mul_is_distributive_add(h, a, h * ql);
    lemma_mul_is_associative(h, h, ql);
    lemma_mul_is_distributive_add(h, b, h * qr);
    lemma_mul_is_associative(h, h, qr);
    let x = h * u;
    let y = h * v;
    lemma_mul_is_distributive_add_other_way(r + y, l, x);
    lemma_mul_is_distributive_add(l, r, y);
    lemma_mul_is_distributive_add(x, r, y);
    assert((l + x) * (r + y) == l * r + l * y + x * r + x * y);
    // l * y == h * (l * b) + h * h * (l * qr)
    lemma_mul_is_distributive_add(l, h * b, h * h * qr);
    lemma_swap_factor(l, h, b);
    lemma_swap_factor(l, h * h, qr);
    // x * r == h * (r * a) + h * h * (r * ql)
    lemma_mul_is_commutative(x, r);
    lemma_mul_is_distributive_add(r, h * a, h * h * ql);
    lemma_swap_factor(r, h, a);
    lemma_swap_factor(r, h * h, ql);
    // x * y == h * h * (u * v)
    lemma_mul_is_associative(x, h, v);
    lemma_mul_is_commutative(x, h);
    lemma_mul_is_associative(h, h, u);
    lemma_mul_is_associative(h * h, u, v);
    lemma_mul_is_distributive_add(h, l * b, r * a);
    lemma_mul_is_distributive_add(h * h, l * qr + r * ql, u * v);
    lemma_mul_is_distributive_add(h * h, l * qr, r * ql);
}

proof fn lemma_swap_factor(x: int, y: int, z: int)
    ensures
        x * (y * z) == y * (x * z),
{
    lemma_mul_is_associative(x, y, z);
    lemma_mul_is_commutative(x, y);
    lemma_mul_is_associative(y, x, z);
}

// ─── Operations ──────────────────────────────────────────────────────────────

/// Zero or one as a constant of the given type.
fn unit_of(d: DataType, one: bool) -> (r: Scalar)
    ensures
        r@ == unit_scalar(d, one),
{
    let v: F64Bits = if one {
        F64_ONE
    } else {
        0
    };
    let i: i64 = if one {
        1
    } else {
        0
    };
    match d {
        DataType::Float(b) => Scalar::Float(v, b),
        DataType::Int(b) => Scalar::Int(i, b),
        DataType::DynamicFloat => Scalar::DynamicFloat(v),
        DataType::FloatingInt => Scalar::FloatingInt { value: i, scale: 0 },
        DataType::ScalableInt(b) => Scalar::ScalableInt(i, b),
        DataType::ScalableFloat(b, e) => Scalar::ScalableFloat(v, b, e),
    }
}

impl Clone for Expr {
    fn clone(&self) -> (r: Self)
        ensures
            r@ == self@,
    {
        match self {
            Expr::Variable {
                id,
                name,
                dtype,
                size,
                packed_data,
                shape,
                bit_strides,
                bit_offset,
                scale,
                steal_sign,
            } => Expr::Variable {
                id: *id,
                name: name.clone(),
                dtype: *dtype,
                size: *size,
                packed_data: packed_data.clone(),
                shape: copy_sizes(shape.as_slice()),
                bit_strides: copy_sizes(bit_strides.as_slice()),
                bit_offset: *bit_offset,
                scale: *scale,
                steal_sign: *steal_sign,
            },
            Expr::Constant { val } => Expr::Constant { val: val.clone() },
            Expr::Add { left, right } => Expr::Add { left: share(left), right: share(right) },
            Expr::Sub { left, right } => Expr::Sub { left: share(left), right: share(right) },
            Expr::Mul { left, right } => Expr::Mul { left: share(left), right: share(right) },
            Expr::Div { left, right } => Expr::Div { left: share(left), right: share(right) },
            Expr::DequantizeMatmul { activations, weights, m, k, n } => Expr::DequantizeMatmul {
                activations: share(activations),
                weights: share(weights),
                m: *m,
                k: *k,
                n: *n,
            },
        }
    }
}

impl Expr {
    /// A packed array.
    pub fn new_var(
        id: usize,
        name: &str,
        dtype: DataType,
        size: usize,
        packed_data: PackedBuffer,
        shape: Vec<usize>,
        bit_strides: Vec<usize>,
        bit_offset: usize,
        scale: Option<u32>,
        steal_sign: bool,
    ) -> (r: Self)
        ensures
            r is Variable,
            r@ == (ExprView::Variable {
                id,
                name: name@,
                dtype,
                size,
                data: packed_data@,
                shape: shape@,
                bit_strides: bit_strides@,
                bit_offset,
                scale,
                steal_sign,
            }),
    {
        Expr::Variable {
            id,
            name: name.to_owned(),
            dtype,
            size,
            packed_data,
            shape,
            bit_strides,
            bit_offset,
            scale,
            steal_sign,
        }
    }

    /// One value for every element.
    pub fn new_const(val: Scalar) -> (r: Self)
        ensures
            r@ == (ExprView::Constant { val: val@ }),
    {
        Expr::Constant { val }
    }

    /// The sum.
    pub fn add(self, other: Expr) -> (r: Self)
        ensures
            r@ == (ExprView::Add { left: Box::new(self@), right: Box::new(other@) }),
    {
        Expr::Add { left: Arc::new(self), right: Arc::new(other) }
    }

    /// The difference.
    pub fn sub(self, other: Expr) -> (r: Self)
        ensures
            r@ == (ExprView::Sub { left: Box::new(self@), right: Box::new(other@) }),
    {
        Expr::Sub { left: Arc::new(self), right: Arc::new(other) }
    }

    /// The product.
    pub fn mul(self, other: Expr) -> (r: Self)
        ensures
            r@ == (ExprView::Mul { left: Box::new(self@), right: Box::new(other@) }),
    {
        Expr::Mul { left: Arc::new(self), right: Arc::new(other) }
    }

    /// The quotient.
    pub fn div(self, other: Expr) -> (r: Self)
        ensures
            r@ == (ExprView::Div { left: Box::new(self@), right: Box::new(other@) }),
    {
        Expr::Div { left: Arc::new(self), right: Arc::new(other) }
    }

    /// The symbolic derivative by the variables with the given id.
    pub fn grad(&self, wrt_id: usize) -> (r: Self)
        ensures
            r@ == derivative(self@, wrt_id),
        decreases *self,
    {
        match self {
            Expr::Variable { id, dtype, .. } => Expr::Constant {
                val: unit_of(*dtype, *id == wrt_id),
            },
            Expr::Constant { val } => Expr::Constant { val: unit_of(val.data_type(), false) },
            Expr::Add { left, right } => {
                let dl: Expr = left.grad(wrt_id);
                let dr: Expr = right.grad(wrt_id);
                dl.add(dr)
            },
            Expr::Sub { left, right } => {
                let dl: Expr = left.grad(wrt_id);
                let dr: Expr = right.grad(wrt_id);
                dl.sub(dr)
            },
            Expr::Mul { left, right } => {
                let dl: Expr = left.grad(wrt_id);
                let dr: Expr = right.grad(wrt_id);
                let a: Expr = Expr::Mul { left: share(left), right: Arc::new(dr) };
                let b: Expr = Expr::Mul { left: share(right), right: Arc::new(dl) };
                a.add(b)
            },
            Expr::Div { left, right } => {
                let dl: Expr = left.grad(wrt_id);
                let dr: Expr = right.grad(wrt_id);
                let a: Expr = Expr::Mul { left: Arc::new(dl), right: share(right) };
                let b: Expr = Expr::Mul { left: share(left), right: Arc::new(dr) };
                let square: Expr = Expr::Mul { left: share(right), right: share(right) };
                a.sub(b).div(square)
            },
            Expr::DequantizeMatmul { activations, weights, m, k, n } => {
                let da: Expr = activations.grad(wrt_id);
                let dw: Expr = weights.grad(wrt_id);
                let a: Expr = Expr::DequantizeMatmul {
                    activations: Arc::new(da),
                    weights: share(weights),
                    m: *m,
                    k: *k,
                    n: *n,
                };
                let b: Expr = Expr::DequantizeMatmul {
                    activations: share(activations),
                    weights: Arc::new(dw),
                    m: *m,
                    k: *k,
                    n: *n,
                };
                a.add(b)
            },
        }
    }

    /// The element type of the result.
    pub fn data_type(&self) -> (r: DataType)
        ensures
            r == expr_type(self@),
        decreases *self,
    {
        match self {
            Expr::Variable { dtype, .. } => *dtype,
            Expr::Constant { val } => val.data_type(),
            Expr::Add { left, .. } => left.data_type(),
            Expr::Sub { left, .. } => left.data_type(),
            Expr::Mul { left, .. } => left.data_type(),
            Expr::Div { left, .. } => left.data_type(),
            Expr::DequantizeMatmul { .. } => DataType::Float(64),
        }
    }

    /// The number of elements of the result.
    pub fn size(&self) -> (r: usize)
        requires
            expr_countable(self@),
        ensures
            r as nat == expr_size(self@),
        decreases *self,
    {
        match self {
            Expr::Variable { size, .. } => *size,
            Expr::Constant { .. } => 1,
            Expr::Add { left, right } => max_size(left.size(), right.size()),
            Expr::Sub { left, right } => max_size(left.size(), right.size()),
            Expr::Mul { left, right } => max_size(left.size(), right.size()),
            Expr::Div { left, right } => max_size(left.size(), right.size()),
            Expr::DequantizeMatmul { m, n, .. } => *m * *n,
        }
    }

    /// The decimal scale of the result, if it has one.
    pub fn get_scale(&self) -> (r: Option<u32>)
        ensures
            r == expr_scale(self@),
        decreases *self,
    {
        match self {
            Expr::Variable { scale, .. } => *scale,
            Expr::Constant { val } => constant_scale(val),
            Expr::Add { left, right } => or_scale(left.get_scale(), right.get_scale()),
            Expr::Sub { left, right } => or_scale(left.get_scale(), right.get_scale()),
            Expr::Mul { left, right } => or_scale(left.get_scale(), right.get_scale()),
            Expr::Div { left, right } => or_scale(left.get_scale(), right.get_scale()),
            Expr::DequantizeMatmul { .. } => None,
        }
    }

    /// Whether the result is coded without a sign bit.
    pub fn steal_sign(&self) -> (r: bool)
        ensures
            r == expr_steal(self@),
        decreases *self,
    {
        match self {
            Expr::Variable { steal_sign, .. } => *steal_sign,
            Expr::Constant { .. } => false,
            Expr::Add { left, .. } => left.steal_sign(),
            Expr::Sub { left, .. } => left.steal_sign(),
            Expr::Mul { left, .. } => left.steal_sign(),
            Expr::Div { left, .. } => left.steal_sign(),
            Expr::DequantizeMatmul { .. } => false,
        }
    }
}

/// A packed array of one dimension, without gaps and from the first bit on.
pub open spec fn flat_view(
    id: usize,
    name: Seq<char>,
    dtype: DataType,
    size: usize,
    data: Seq<u8>,
    scale: Option<u32>,
    steal_sign: bool,
) -> ExprView {
    ExprView::Variable {
        id,
        name,
        dtype,
        size,
        data,
        shape: seq![size],
        bit_strides: seq![dtype_width(dtype) as usize],
        bit_offset: 0,
        scale,
        steal_sign,
    }
}

/// A packed array of one dimension, without gaps and from the first bit on.
pub fn flat_var(
    id: usize,
    name: &str,
    dtype: DataType,
    size: usize,
    data: Vec<u8>,
    scale: Option<u32>,
    steal_sign: bool,
) -> (r: Expr)
    ensures
        r is Variable,
        r@ == flat_view(id, name@, dtype, size, data@, scale, steal_sign),
{
    let mut shape: Vec<usize> = Vec::new();
    shape.push(size);
    let mut strides: Vec<usize> = Vec::new();
    strides.push(dtype.bit_width() as usize);
    assert(shape@ =~= seq![size]);
    assert(strides@ =~= seq![dtype_width(dtype) as usize]);
    Expr::new_var(
        id,
        name,
        dtype,
        size,
        PackedBuffer::from_bytes(data),
        shape,
        strides,
        0,
        scale,
        steal_sign,
    )
}

/// The larger of two sizes.
pub fn max_size(a: usize, b: usize) -> (r: usize)
    ensures
        r as nat == larger(a as nat, b as nat),
{
    if a > b {
        a
    } else {
        b
    }
}

/// The decimal scale of a constant.
pub fn constant_scale(val: &Scalar) -> (r: Option<u32>)
    ensures
        r == scalar_scale(val@),
{
    match val {
        Scalar::FloatingInt { scale, .. } => Some(*scale),
        _ => None,
    }
}

/// The first of two optional scales.
pub fn or_scale(a: Option<u32>, b: Option<u32>) -> (r: Option<u32>)
    ensures
        r == first_scale(a, b),
{
    match a {
        Some(s) => Some(s),
        None => b,
    }
}

} // verus!
