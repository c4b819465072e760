//! What arithmetic comes to on whole numbers: where the floating-point unit is exact on
//! whole numbers, so are expressions and matrix products.

use crate::bits::{byte_bit, lemma_bits_nat, nat_bit};
use crate::fuser::kernel::expr_value;
use crate::helper_matmul::{dot, lemma_place, product, weight_code, weight_double};
use crate::ir::ExprView;
use crate::soft_float::{
    f64_is_zero, f64_of_int, f64_of_nat, f64_rounded, float_answer, law_small_integer_is_exact,
    lemma_round_small, FloatOp,
};
use crate::types::{fixed_point_double, nearest_fixed_point, scalar_double, ScalarView};
use vstd::arithmetic::div_mod::*;
use vstd::arithmetic::mul::*;
use vstd::arithmetic::power::*;
use vstd::arithmetic::power2::*;
use vstd::prelude::*;

verus! {

// ─── Exact answers ───────────────────────────────────────────────────────────

/// That a whole number is one that a double holds exactly.
pub open spec fn is_small(n: int) -> bool {
    -0x20_0000_0000_0000 < n < 0x20_0000_0000_0000
}

/// That a double is a whole number; zero is so with either sign.
pub open spec fn is_whole(x: u64, n: int) -> bool {
    x == f64_of_int(n) || (n == 0 && f64_is_zero(x))
}

/// What an operation yields on whole numbers, where it yields one that a double holds
/// exactly.
pub open spec fn whole_answer(op: FloatOp, a: int, b: int) -> Option<int> {
    let r = match op {
        FloatOp::Add => Some(a + b),
        FloatOp::Sub => Some(a - b),
        FloatOp::Mul => Some(a * b),
        FloatOp::Div => if b != 0 && a % b == 0 {
            Some(a / b)
        } else {
            None
        },
        FloatOp::Pow10 => None,
    };
    match r {
        Some(n) => if is_small(n) {
            Some(n)
        } else {
            None
        },
        None => None,
    }
}

/// That a floating-point unit is exact on whole numbers.
pub open spec fn is_exact<F: Fn(FloatOp, u64, u64) -> u64>(f: F) -> bool {
    forall|op: FloatOp, x: u64, y: u64, a: int, b: int|
        {
            &&& is_small(a)
            &&& is_small(b)
            &&& #[trigger] is_whole(x, a)
            &&& #[trigger] is_whole(y, b)
        } ==> (whole_answer(op, a, b) matches Some(n) ==> is_whole(
            #[trigger] float_answer(f, op, x, y),
            n,
        ))
}

// ─── Expressions ─────────────────────────────────────────────────────────────

/// The whole number that a constant is.
pub open spec fn whole_constant<F: Fn(FloatOp, u64, u64) -> u64>(
    f: F,
    val: ScalarView,
) -> Option<int> {
    let x = scalar_double(f, val);
    let n = f64_rounded(x);
    if is_small(n) && is_whole(x, n) {
        Some(n)
    } else {
        None
    }
}

/// The whole number that the operation of two others is.
pub open spec fn whole_pair(op: FloatOp, a: Option<int>, b: Option<int>) -> Option<int> {
    match (a, b) {
        (Some(m), Some(n)) => whole_answer(op, m, n),
        _ => None,
    }
}

/// What an expression is as arithmetic on whole numbers, where the variable with id `i`
/// is `env(i)` and every step is whole.
pub open spec fn whole_value<F: Fn(FloatOp, u64, u64) -> u64>(
    f: F,
    e: ExprView,
    env: spec_fn(usize) -> int,
) -> Option<int>
    decreases e,
{
    match e {
        ExprView::Variable { id, .. } => if is_small(env(id)) {
            Some(env(id))
        } else {
            None
        },
        ExprView::Constant { val } => whole_constant(f, val),
        ExprView::Add { left, right } => whole_pair(
            FloatOp::Add,
            whole_value(f, *left, env),
            whole_value(f, *right, env),
        ),
        ExprView::Sub { left, right } => whole_pair(
            FloatOp::Sub,
            whole_value(f, *left, env),
            whole_value(f, *right, env),
        ),
        ExprView::Mul { left, right } => whole_pair(
            FloatOp::Mul,
            whole_value(f, *left, env),
            whole_value(f, *right, env),
        ),
        ExprView::Div { left, right } => whole_pair(
            FloatOp::Div,
            whole_value(f, *left, env),
            whole_value(f, *right, env),
        ),
        ExprView::DequantizeMatmul { .. } => None,
    }
}

proof fn lemma_answer<F: Fn(FloatOp, u64, u64) -> u64>(
    f: F,
    op: FloatOp,
    x: u64,
    y: u64,
    a: int,
    b: int,
)
    requires
        is_exact(f),
        is_small(a),
        is_small(b),
        is_whole(x, a),
        is_whole(y, b),
        whole_answer(op, a, b) is Some,
    ensures
        is_whole(float_answer(f, op, x, y), whole_answer(op, a, b)->0),
        is_small(whole_answer(op, a, b)->0),
{
}

/// An expression on whole numbers yields what arithmetic on whole numbers yields:
/// the sum, the difference, the product and the quotient of its operands.
pub proof fn law_expression_is_whole_arithmetic<F: Fn(FloatOp, u64, u64) -> u64>(
    f: F,
    e: ExprView,
    env: spec_fn(usize) -> int,
    xs: spec_fn(usize) -> u64,
)
    requires
        is_exact(f),
        forall|i: usize| is_whole(#[trigger] xs(i), env(i)),
        whole_value(f, e, env) is Some,
    ensures
        is_whole(expr_value(f, e, xs), whole_value(f, e, env)->0),
        is_small(whole_value(f, e, env)->0),
    decreases e,
{
    match e {
        ExprView::Variable { id, .. } => {
            assert(is_whole(xs(id), env(id)));
        },
        ExprView::Constant { .. } => {},
        ExprView::Add { left, right } => {
            law_expression_is_whole_arithmetic(f, *left, env, xs);
            law_expression_is_whole_arithmetic(f, *right, env, xs);
            lemma_answer(
                f,
                FloatOp::Add,
                expr_value(f, *left, xs),
                expr_value(f, *right, xs),
                whole_value(f, *left, env)->0,
                whole_value(f, *right, env)->0,
            );
        },
        ExprView::Sub { left, right } => {
            law_expression_is_whole_arithmetic(f, *left, env, xs);
            law_expression_is_whole_arithmetic(f, *right, env, xs);
            lemma_answer(
                f,
                FloatOp::Sub,
                expr_value(f, *left, xs),
                expr_value(f, *right, xs),
                whole_value(f, *left, env)->0,
                whole_value(f, *right, env)->0,
            );
        },
        ExprView::Mul { left, right } => {
            law_expression_is_whole_arithmetic(f, *left, env, xs);
            law_expression_is_whole_arithmetic(f, *right, env, xs);
            lemma_answer(
                f,
                FloatOp::Mul,
                expr_value(f, *left, xs),
                expr_value(f, *right, xs),
                whole_value(f, *left, env)->0,
                whole_value(f, *right, env)->0,
            );
        },
        ExprView::Div { left, right } => {
            law_expression_is_whole_arithmetic(f, *left, env, xs);
            law_expression_is_whole_arithmetic(f, *right, env, xs);
            lemma_answer(
                f,
                FloatOp::Div,
                expr_value(f, *left, xs),
                expr_value(f, *right, xs),
                whole_value(f, *left, env)->0,
                whole_value(f, *right, env)->0,
            );
        },
        ExprView::DequantizeMatmul { .. } => {},
    }
}

// ─── Fixed-point numbers ─────────────────────────────────────────────────────

/// That a floating-point unit knows ten to the power of a scale, as a whole number.
pub open spec fn knows_power<F: Fn(FloatOp, u64, u64) -> u64>(f: F, scale: u32) -> bool {
    &&& is_small(pow(10, scale as nat))
    &&& is_whole(float_answer(f, FloatOp::Pow10, scale as u64, 0), pow(10, scale as nat))
}

/// A fixed-point number counts parts of ten to the power of its scale: a whole number is
/// held as that many times the power, and read as itself again.
pub proof fn law_fixed_point_counts_parts<F: Fn(FloatOp, u64, u64) -> u64>(
    f: F,
    n: int,
    scale: u32,
)
    requires
        is_exact(f),
        knows_power(f, scale),
        is_small(n),
        is_small(n * pow(10, scale as nat)),
    ensures
        nearest_fixed_point(f, f64_of_int(n), scale) == (ScalarView::FloatingInt {
            value: (n * pow(10, scale as nat)) as i64,
            scale,
        }),
        is_whole(fixed_point_double(f, (n * pow(10, scale as nat)) as i64, scale), n),
{
    let t = pow(10, scale as nat);
    let y = float_answer(f, FloatOp::Pow10, scale as u64, 0);
    let x = f64_of_int(n);
    let v = n * t;
    lemma_pow_positive(10, scale as nat);
    assert(is_whole(x, n));
    lemma_answer(f, FloatOp::Mul, x, y, n, t);
    let product = float_answer(f, FloatOp::Mul, x, y);
    law_small_integer_is_exact(v);
    if product != f64_of_int(v) {
        lemma_zero_rounds(product);
    }
    assert(f64_rounded(product) == v);
    let w = f64_of_int(v);
    assert(is_whole(w, v));
    lemma_fundamental_div_mod_converse(v, t, n, 0);
    lemma_answer(f, FloatOp::Div, w, y, v, t);
}

proof fn lemma_zero_rounds(x: u64)
    requires
        f64_is_zero(x),
    ensures
        f64_rounded(x) == 0,
{
    lemma_pow2_pos(1074);
    lemma_round_small(0, 1074);
}

// ─── Matrix products ─────────────────────────────────────────────────────────

/// The whole number that a code of `bits` bits is: in two's complement, or unsigned
/// where the sign is stolen.
pub open spec fn weight_whole(code: nat, bits: nat, steal_sign: bool) -> int {
    if !steal_sign && code >= pow2((bits - 1) as nat) {
        code - pow2(bits)
    } else {
        code as int
    }
}

/// The sum of the first `terms` products of a row and a column.
pub open spec fn whole_dot(
    a: spec_fn(nat, nat) -> int,
    w: spec_fn(nat, nat) -> int,
    row: nat,
    col: nat,
    terms: nat,
) -> int
    decreases terms,
{
    if terms == 0 {
        0
    } else {
        let i = (terms - 1) as nat;
        whole_dot(a, w, row, col, i) + a(row, i) * w(i, col)
    }
}

proof fn lemma_weight<F: Fn(FloatOp, u64, u64) -> u64>(
    f: F,
    weights: Seq<u8>,
    bits: nat,
    at: nat,
    steal_sign: bool,
)
    requires
        is_exact(f),
        1 <= bits <= 52,
    ensures
        ({
            let code = weight_code(weights, bits, at);
            let n = weight_whole(code, bits, steal_sign);
            is_small(n) && is_whole(weight_double(f, code, bits, steal_sign), n)
        }),
{
    let p = |t: nat| byte_bit(weights, at * bits + t);
    let code = weight_code(weights, bits, at);
    lemma_bits_nat(p, bits);
    let h = (bits - 1) as nat;
    lemma_pow2_unfold(bits);
    lemma_pow2_pos(h);
    crate::bits::lemma_pow2_le(bits, 52);
    lemma2_to64_rest();
    assert(pow2(bits) <= 0x10_0000_0000_0000);
    if code >= pow2(h) {
        lemma_fundamental_div_mod_converse(
            code as int,
            pow2(h) as int,
            1,
            code - pow2(h),
        );
    } else {
        lemma_basic_div(code as int, pow2(h) as int);
    }
    assert(nat_bit(code, h) == (code >= pow2(h)));
    assert(f64_of_int(code as int) == f64_of_nat(false, code));
    assert(is_whole(f64_of_nat(false, code), code as int));
    assert(is_whole(f64_of_int(pow2(bits) as int), pow2(bits) as int));
    if !steal_sign && nat_bit(code, h) {
        lemma_answer(
            f,
            FloatOp::Sub,
            f64_of_nat(false, code),
            f64_of_int(pow2(bits) as int),
            code as int,
            pow2(bits) as int,
        );
    }
}

/// That the first `terms` products of a row and a column, and their sums, are whole
/// numbers that doubles hold exactly.
pub open spec fn stays_small(
    a: spec_fn(nat, nat) -> int,
    w: spec_fn(nat, nat) -> int,
    row: nat,
    col: nat,
    terms: nat,
) -> bool {
    forall|i: nat| i < terms ==> #[trigger] is_small_at(a, w, row, col, i)
}

pub open spec fn is_small_at(
    a: spec_fn(nat, nat) -> int,
    w: spec_fn(nat, nat) -> int,
    row: nat,
    col: nat,
    i: nat,
) -> bool {
    &&& is_small(a(row, i))
    &&& is_small(w(i, col))
    &&& is_small(a(row, i) * w(i, col))
    &&& is_small(whole_dot(a, w, row, col, i + 1))
}

/// That doubles, row by row, are the whole numbers of a matrix with rows of `k`.
pub open spec fn is_matrix(acts: Seq<u64>, k: nat, a: spec_fn(nat, nat) -> int, row: nat) -> bool {
    forall|i: nat| i < k ==> is_whole(#[trigger] acts[(row * k + i) as int], a(row, i))
}

proof fn lemma_dot<F: Fn(FloatOp, u64, u64) -> u64>(
    f: F,
    acts: Seq<u64>,
    weights: Seq<u8>,
    k: nat,
    n: nat,
    bits: nat,
    steal_sign: bool,
    a: spec_fn(nat, nat) -> int,
    w: spec_fn(nat, nat) -> int,
    row: nat,
    col: nat,
    terms: nat,
)
    requires
        is_exact(f),
        1 <= bits <= 52,
        terms <= k,
        is_matrix(acts, k, a, row),
        forall|i: nat|
            i < k ==> #[trigger] w(i, col) == weight_whole(
                weight_code(weights, bits, i * n + col),
                bits,
                steal_sign,
            ),
        stays_small(a, w, row, col, terms),
    ensures
        is_whole(
            dot(f, acts, weights, k, n, bits, steal_sign, row, col, terms),
            whole_dot(a, w, row, col, terms),
        ),
        is_small(whole_dot(a, w, row, col, terms)),
    decreases terms,
{
    if terms == 0 {
        assert(f64_of_int(0) == 0);
    } else {
        let i = (terms - 1) as nat;
        assert(is_small_at(a, w, row, col, i));
        lemma_dot(f, acts, weights, k, n, bits, steal_sign, a, w, row, col, i);
        lemma_weight(f, weights, bits, i * n + col, steal_sign);
        let x = acts[(row * k + i) as int];
        let y = weight_double(f, weight_code(weights, bits, i * n + col), bits, steal_sign);
        assert(w(i, col) == weight_whole(
            weight_code(weights, bits, i * n + col),
            bits,
            steal_sign,
        ));
        assert(is_whole(x, a(row, i)));
        lemma_answer(f, FloatOp::Mul, x, y, a(row, i), w(i, col));
        lemma_answer(
            f,
            FloatOp::Add,
            dot(f, acts, weights, k, n, bits, steal_sign, row, col, i),
            float_answer(f, FloatOp::Mul, x, y),
            whole_dot(a, w, row, col, i),
            a(row, i) * w(i, col),
        );
    }
}

/// The product of a matrix of whole numbers and a matrix of packed weights is their
/// matrix product: the element at a row and a column is the sum, over the inner index,
/// of what the first matrix has in that row times what the second has in that column.
/// The activations lie row by row, and so do the weights, as codes of `bits` bits in
/// two's complement, or unsigned where the sign is stolen.
pub proof fn law_product_is_matrix_product<F: Fn(FloatOp, u64, u64) -> u64>(
    f: F,
    acts: Seq<u64>,
    weights: Seq<u8>,
    m: nat,
    k: nat,
    n: nat,
    bits: nat,
    steal_sign: bool,
    a: spec_fn(nat, nat) -> int,
    w: spec_fn(nat, nat) -> int,
    row: nat,
    col: nat,
)
    requires
        is_exact(f),
        1 <= bits <= 52,
        row < m,
        col < n,
        is_matrix(acts, k, a, row),
        forall|i: nat|
            i < k ==> #[trigger] w(i, col) == weight_whole(
                weight_code(weights, bits, i * n + col),
                bits,
                steal_sign,
            ),
        stays_small(a, w, row, col, k),
    ensures
        row * n + col < product(f, acts, weights, m, k, n, bits, steal_sign).len(),
        is_whole(
            product(f, acts, weights, m, k, n, bits, steal_sign)[(row * n + col) as int],
            whole_dot(a, w, row, col, k),
        ),
{
    lemma_place(row, m, col, n);
    lemma_dot(f, acts, weights, k, n, bits, steal_sign, a, w, row, col, k);
}

} // verus!
