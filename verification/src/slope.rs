//! Derivatives as slopes, over fractions: where a variable moves, the value of an
//! expression moves by the derivative times as much, up to the square of the move.

use crate::bits::{limbs_nat, signed_value};
use crate::ir::{derivative, unit_scalar, ExprView};
use crate::soft_float::{f64_exp, f64_frac, f64_sig, f64_sign, f64_weight};
use crate::types::{scalar_type, DataType, ScalarView};
use vstd::arithmetic::mul::*;
use vstd::arithmetic::power::*;
use vstd::arithmetic::power2::*;
use vstd::prelude::*;

verus! {

// ─── Values as fractions ─────────────────────────────────────────────────────

/// A finite double as a fraction: numerator and denominator.
pub open spec fn double_fraction(b: u64) -> (int, int) {
    let w = f64_weight(b);
    let m = if f64_sign(b) {
        -(f64_sig(b) as int)
    } else {
        f64_sig(b) as int
    };
    if w >= 0 {
        (m * pow2(w as nat), 1)
    } else {
        (m, pow2((-w) as nat) as int)
    }
}

/// A constant as a fraction.
pub open spec fn scalar_fraction(s: ScalarView) -> (int, int) {
    match s {
        ScalarView::Float(v, _) => double_fraction(v),
        ScalarView::Int(v, _) => (v as int, 1),
        ScalarView::DynamicFloat(v) => double_fraction(v),
        ScalarView::FloatingInt { value, scale } => (value as int, pow(10, scale as nat)),
        ScalarView::ScalableInt(v, _) => (v as int, 1),
        ScalarView::ScalableFloat(v, _, _) => double_fraction(v),
        ScalarView::IntLimbs(l, b) => (signed_value(limbs_nat(l), b as nat), 1),
        ScalarView::ScalableIntLimbs(l, b) => (signed_value(limbs_nat(l), b as nat), 1),
    }
}

/// That an expression has a fraction as its value: it is built from sums,
/// differences, products and quotients, and from matrix products of a single term.
pub open spec fn is_fractional(e: ExprView) -> bool
    decreases e,
{
    match e {
        ExprView::Variable { .. } => true,
        ExprView::Constant { .. } => true,
        ExprView::Add { left, right } => is_fractional(*left) && is_fractional(*right),
        ExprView::Sub { left, right } => is_fractional(*left) && is_fractional(*right),
        ExprView::Mul { left, right } => is_fractional(*left) && is_fractional(*right),
        ExprView::Div { left, right } => is_fractional(*left) && is_fractional(*right),
        ExprView::DequantizeMatmul { activations, weights, m, k, n } => {
            &&& m == 1 && k == 1 && n == 1
            &&& is_fractional(*activations)
            &&& is_fractional(*weights)
        },
    }
}

/// The value of an expression as a fraction, where the variable with id `i` is
/// `env(i)`.
pub open spec fn fraction(e: ExprView, env: spec_fn(usize) -> (int, int)) -> (int, int)
    decreases e,
{
    match e {
        ExprView::Variable { id, .. } => env(id),
        ExprView::Constant { val } => scalar_fraction(val),
        ExprView::Add { left, right } => {
            let (a, b) = fraction(*left, env);
            let (c, d) = fraction(*right, env);
            (a * d + c * b, b * d)
        },
        ExprView::Sub { left, right } => {
            let (a, b) = fraction(*left, env);
            let (c, d) = fraction(*right, env);
            (a * d - c * b, b * d)
        },
        ExprView::Mul { left, right } => {
            let (a, b) = fraction(*left, env);
            let (c, d) = fraction(*right, env);
            (a * c, b * d)
        },
        ExprView::Div { left, right } => {
            let (a, b) = fraction(*left, env);
            let (c, d) = fraction(*right, env);
            (a * d, b * c)
        },
        ExprView::DequantizeMatmul { activations, weights, .. } => {
            let (a, b) = fraction(*activations, env);
            let (c, d) = fraction(*weights, env);
            (a * c, b * d)
        },
    }
}

/// That an expression has a value: no divisor is zero.
pub open spec fn has_value(e: ExprView, env: spec_fn(usize) -> (int, int)) -> bool
    decreases e,
{
    match e {
        ExprView::Variable { id, .. } => env(id).1 != 0,
        ExprView::Constant { .. } => true,
        ExprView::Add { left, right } => has_value(*left, env) && has_value(*right, env),
        ExprView::Sub { left, right } => has_value(*left, env) && has_value(*right, env),
        ExprView::Mul { left, right } => has_value(*left, env) && has_value(*right, env),
        ExprView::Div { left, right } => has_value(*left, env) && has_value(*right, env)
            && fraction(*right, env).0 != 0,
        ExprView::DequantizeMatmul { activations, weights, .. } => has_value(*activations, env)
            && has_value(*weights, env),
    }
}

/// An assignment with one variable moved by `h`.
pub open spec fn shifted(
    env: spec_fn(usize) -> (int, int),
    wrt: usize,
    h: int,
) -> spec_fn(usize) -> (int, int) {
    |i: usize|
        if i == wrt {
            (env(i).0 + h * env(i).1, env(i).1)
        } else {
            env(i)
        }
}

/// That, with `q` for the value of the derivative, the value of an expression moves
/// from `v` to `w` by `h * q` and `h * h` times a fraction: over the product of the
/// three denominators, the rest is a multiple of `h * h`.
pub open spec fn moves_by(v: (int, int), w: (int, int), q: (int, int), h: int, k: int) -> bool {
    (w.0 * v.1 - v.0 * w.1) * q.1 - h * (q.0 * (v.1 * w.1)) == h * h * k
}

/// The derivative of an expression is the slope of its change. Where neither value
/// has a zero divisor, neither has the derivative, and moving one variable by `h`
/// moves the value by `h` times the derivative, up to `h * h` times a fraction over
/// the product of the denominators.
pub proof fn law_derivative_is_rate(
    e: ExprView,
    env: spec_fn(usize) -> (int, int),
    wrt: usize,
    h: int,
)
    requires
        is_fractional(e),
        has_value(e, env),
        has_value(e, shifted(env, wrt, h)),
    ensures
        has_value(derivative(e, wrt), env),
        fraction(e, env).1 != 0,
        fraction(e, shifted(env, wrt, h)).1 != 0,
        fraction(derivative(e, wrt), env).1 != 0,
        exists|k: int| #[trigger]
            moves_by(
                fraction(e, env),
                fraction(e, shifted(env, wrt, h)),
                fraction(derivative(e, wrt), env),
                h,
                k,
            ),
{
    let v = fraction(e, env);
    let w = fraction(e, shifted(env, wrt, h));
    let q = fraction(derivative(e, wrt), env);
    let r = rates(e, env, wrt);
    lemma_denominator(e, env);
    lemma_denominator(e, shifted(env, wrt, h));
    lemma_derivative_has_value(e, env, wrt);
    lemma_denominator(derivative(e, wrt), env);
    lemma_expansion(e, env, wrt, h);
    lemma_rate(e, env, wrt);
    let a = choose|a: int| #[trigger] expands(w.0, v.0, r.0, h, a);
    let b = choose|b: int| #[trigger] expands(w.1, v.1, r.1, h, b);
    let k = q.1 * (a * v.1 - b * v.0) - q.0 * v.1 * (r.1 + h * b);
    let wr = r.0 * v.1 - v.0 * r.1;
    let t = a * v.1 - b * v.0;
    let u = q.0 * v.1 * (r.1 + h * b);
    let x = q.1 * wr;
    // The change of the value, over both denominators.
    lemma_expanded_times(v.0, r.0, a, h, v.1);
    lemma_expanded_times(v.1, r.1, b, h, v.0);
    lemma_mul_is_commutative(v.0, w.1);
    lemma_mul_is_commutative(v.0, v.1);
    lemma_mul_is_commutative(v.0, r.1);
    lemma_mul_is_distributive_sub(h, r.0 * v.1, r.1 * v.0);
    lemma_mul_is_distributive_sub(h * h, a * v.1, b * v.0);
    assert(w.0 * v.1 - v.0 * w.1 == h * wr + h * h * t);
    lemma_mul_is_distributive_add_other_way(q.1, h * wr, h * h * t);
    lemma_swap_last(h, wr, q.1);
    lemma_swap_last(h * h, t, q.1);
    lemma_mul_is_commutative(wr, q.1);
    lemma_mul_is_commutative(t, q.1);
    // The derivative, over both denominators.
    lemma_expanded_times(v.1, r.1, b, h, v.1);
    lemma_mul_is_commutative(v.1, w.1);
    lemma_mul_is_distributive_add_other_way(v.1, r.1, h * b);
    lemma_mul_is_distributive_add(h, r.1 * v.1, (h * b) * v.1);
    lemma_mul_is_associative(h, b, v.1);
    lemma_mul_is_associative(h, h, b * v.1);
    let y = r.1 + h * b;
    assert(v.1 * w.1 == v.1 * v.1 + h * (y * v.1));
    lemma_mul_is_distributive_add(q.0, v.1 * v.1, h * (y * v.1));
    lemma_swap_first(q.0, h, y * v.1);
    lemma_mul_is_commutative(y, v.1);
    lemma_mul_is_associative(q.0, v.1, y);
    assert(q.0 * (v.1 * w.1) == x + h * u);
    lemma_mul_is_distributive_add(h, x, h * u);
    lemma_mul_is_associative(h, h, u);
    lemma_mul_is_distributive_sub(h * h, q.1 * t, u);
    assert(moves_by(v, w, q, h, k));
}

// ─── Rates of numerators and denominators ────────────────────────────────────

/// The rates at which the numerator and the denominator of an expression's value
/// move with a variable.
spec fn rates(e: ExprView, env: spec_fn(usize) -> (int, int), wrt: usize) -> (int, int)
    decreases e,
{
    match e {
        ExprView::Variable { id, .. } => if id == wrt {
            (env(id).1, 0)
        } else {
            (0, 0)
        },
        ExprView::Constant { .. } => (0, 0),
        ExprView::Add { left, right } => {
            let (a, b) = fraction(*left, env);
            let (c, d) = fraction(*right, env);
            let (p, q) = rates(*left, env, wrt);
            let (r, s) = rates(*right, env, wrt);
            ((p * d + a * s) + (r * b + c * q), q * d + b * s)
        },
        ExprView::Sub { left, right } => {
            let (a, b) = fraction(*left, env);
            let (c, d) = fraction(*right, env);
            let (p, q) = rates(*left, env, wrt);
            let (r, s) = rates(*right, env, wrt);
            ((p * d + a * s) - (r * b + c * q), q * d + b * s)
        },
        ExprView::Mul { left, right } => {
            let (a, b) = fraction(*left, env);
            let (c, d) = fraction(*right, env);
            let (p, q) = rates(*left, env, wrt);
            let (r, s) = rates(*right, env, wrt);
            (p * c + a * r, q * d + b * s)
        },
        ExprView::Div { left, right } => {
            let (a, b) = fraction(*left, env);
            let (c, d) = fraction(*right, env);
            let (p, q) = rates(*left, env, wrt);
            let (r, s) = rates(*right, env, wrt);
            (p * d + a * s, q * c + b * r)
        },
        ExprView::DequantizeMatmul { activations, weights, .. } => {
            let (a, b) = fraction(*activations, env);
            let (c, d) = fraction(*weights, env);
            let (p, q) = rates(*activations, env, wrt);
            let (r, s) = rates(*weights, env, wrt);
            (p * c + a * r, q * d + b * s)
        },
    }
}

/// That `y` is `x` moved at the rate `r` by `h`, up to a multiple of `h * h`.
spec fn expands(y: int, x: int, r: int, h: int, a: int) -> bool {
    y == x + h * r + h * h * a
}

spec fn expandable(y: int, x: int, r: int, h: int) -> bool {
    exists|a: int| #[trigger] expands(y, x, r, h, a)
}

proof fn lemma_expand_product(y1: int, x1: int, r1: int, y2: int, x2: int, r2: int, h: int)
    requires
        expandable(y1, x1, r1, h),
        expandable(y2, x2, r2, h),
    ensures
        expandable(y1 * y2, x1 * x2, r1 * x2 + x1 * r2, h),
{
    let a = choose|a: int| #[trigger] expands(y1, x1, r1, h, a);
    let b = choose|b: int| #[trigger] expands(y2, x2, r2, h, b);
    let k = x1 * b + x2 * a + (r1 + h * a) * (r2 + h * b);
    crate::ir::lemma_product_change(x1, x2, r1, r2, a, b, h);
    lemma_mul_is_commutative(x2, r1);
    assert(expands(y1 * y2, x1 * x2, r1 * x2 + x1 * r2, h, k));
}

proof fn lemma_expand_sum(y1: int, x1: int, r1: int, y2: int, x2: int, r2: int, h: int)
    requires
        expandable(y1, x1, r1, h),
        expandable(y2, x2, r2, h),
    ensures
        expandable(y1 + y2, x1 + x2, r1 + r2, h),
        expandable(y1 - y2, x1 - x2, r1 - r2, h),
{
    let a = choose|a: int| #[trigger] expands(y1, x1, r1, h, a);
    let b = choose|b: int| #[trigger] expands(y2, x2, r2, h, b);
    lemma_mul_is_distributive_add(h, r1, r2);
    lemma_mul_is_distributive_add(h * h, a, b);
    lemma_mul_is_distributive_sub(h, r1, r2);
    lemma_mul_is_distributive_sub(h * h, a, b);
    assert(expands(y1 + y2, x1 + x2, r1 + r2, h, a + b));
    assert(expands(y1 - y2, x1 - x2, r1 - r2, h, a - b));
}

/// That the numerator and the denominator of an expression move at their rates.
spec fn moves_at_rates(
    e: ExprView,
    env: spec_fn(usize) -> (int, int),
    wrt: usize,
    h: int,
) -> bool {
    let x = fraction(e, env);
    let y = fraction(e, shifted(env, wrt, h));
    let r = rates(e, env, wrt);
    expandable(y.0, x.0, r.0, h) && expandable(y.1, x.1, r.1, h)
}

/// Numerators and denominators move at their rates.
proof fn lemma_expansion(e: ExprView, env: spec_fn(usize) -> (int, int), wrt: usize, h: int)
    ensures
        moves_at_rates(e, env, wrt, h),
    decreases e,
{
    let moved = shifted(env, wrt, h);
    let y = fraction(e, moved);
    let x = fraction(e, env);
    let z = rates(e, env, wrt);
    match e {
        ExprView::Variable { .. } => {
            lemma_mul_basics(h);
            lemma_mul_basics(h * h);
            assert(expands(y.0, x.0, z.0, h, 0));
            assert(expands(y.1, x.1, z.1, h, 0));
        },
        ExprView::Constant { .. } => {
            lemma_mul_basics(h);
            lemma_mul_basics(h * h);
            assert(expands(y.0, x.0, z.0, h, 0));
            assert(expands(y.1, x.1, z.1, h, 0));
        },
        ExprView::Add { left, right } => {
            lemma_expansion(*left, env, wrt, h);
            lemma_expansion(*right, env, wrt, h);
            lemma_expand_parts(*left, *right, env, wrt, h);
            let (a, b) = fraction(*left, env);
            let (c, d) = fraction(*right, env);
            let (a1, b1) = fraction(*left, moved);
            let (c1, d1) = fraction(*right, moved);
            let (p, q) = rates(*left, env, wrt);
            let (r, s) = rates(*right, env, wrt);
            lemma_expand_sum(
                a1 * d1,
                a * d,
                p * d + a * s,
                c1 * b1,
                c * b,
                r * b + c * q,
                h,
            );
        },
        ExprView::Sub { left, right } => {
            lemma_expansion(*left, env, wrt, h);
            lemma_expansion(*right, env, wrt, h);
            lemma_expand_parts(*left, *right, env, wrt, h);
            let (a, b) = fraction(*left, env);
            let (c, d) = fraction(*right, env);
            let (a1, b1) = fraction(*left, moved);
            let (c1, d1) = fraction(*right, moved);
            let (p, q) = rates(*left, env, wrt);
            let (r, s) = rates(*right, env, wrt);
            lemma_expand_sum(
                a1 * d1,
                a * d,
                p * d + a * s,
                c1 * b1,
                c * b,
                r * b + c * q,
                h,
            );
        },
        ExprView::Mul { left, right } => {
            lemma_expansion(*left, env, wrt, h);
            lemma_expansion(*right, env, wrt, h);
            lemma_expand_parts(*left, *right, env, wrt, h);
        },
        ExprView::Div { left, right } => {
            lemma_expansion(*left, env, wrt, h);
            lemma_expansion(*right, env, wrt, h);
            lemma_expand_parts(*left, *right, env, wrt, h);
        },
        ExprView::DequantizeMatmul { activations, weights, .. } => {
            lemma_expansion(*activations, env, wrt, h);
            lemma_expansion(*weights, env, wrt, h);
            lemma_expand_parts(*activations, *weights, env, wrt, h);
        },
    }
}

proof fn lemma_expand_parts(
    l: ExprView,
    r: ExprView,
    env: spec_fn(usize) -> (int, int),
    wrt: usize,
    h: int,
)
    requires
        moves_at_rates(l, env, wrt, h),
        moves_at_rates(r, env, wrt, h),
    ensures
        ({
            let moved = shifted(env, wrt, h);
            let (a, b) = fraction(l, env);
            let (c, d) = fraction(r, env);
            let (a1, b1) = fraction(l, moved);
            let (c1, d1) = fraction(r, moved);
            let (p, q) = rates(l, env, wrt);
            let (t, s) = rates(r, env, wrt);
            &&& expandable(a1 * d1, a * d, p * d + a * s, h)
            &&& expandable(c1 * b1, c * b, t * b + c * q, h)
            &&& expandable(b1 * d1, b * d, q * d + b * s, h)
            &&& expandable(a1 * c1, a * c, p * c + a * t, h)
            &&& expandable(b1 * c1, b * c, q * c + b * t, h)
        }),
{
    let moved = shifted(env, wrt, h);
    let (a, b) = fraction(l, env);
    let (c, d) = fraction(r, env);
    let (a1, b1) = fraction(l, moved);
    let (c1, d1) = fraction(r, moved);
    let (p, q) = rates(l, env, wrt);
    let (t, s) = rates(r, env, wrt);
    lemma_expand_product(a1, a, p, d1, d, s, h);
    lemma_expand_product(c1, c, t, b1, b, q, h);
    lemma_expand_product(b1, b, q, d1, d, s, h);
    lemma_expand_product(a1, a, p, c1, c, t, h);
    lemma_expand_product(b1, b, q, c1, c, t, h);
}

// ─── The derivative as a fraction ────────────────────────────────────────────

/// A unit constant is one or zero, over a denominator that is not zero.
proof fn lemma_unit_fraction(d: DataType, one: bool)
    ensures
        ({
            let (p, q) = scalar_fraction(unit_scalar(d, one));
            &&& q != 0
            &&& p == if one {
                q
            } else {
                0
            }
        }),
{
    let b: u64 = 0x3ff0_0000_0000_0000;
    assert(b as nat / 0x10_0000_0000_0000 == 1023);
    assert(f64_exp(b) == 1023);
    assert(f64_frac(b) == 0);
    assert(f64_weight(b) == -52);
    assert(f64_exp(0) == 0);
    assert(f64_frac(0) == 0);
    lemma2_to64_rest();
    assert(pow2(52) == 0x10_0000_0000_0000);
    lemma_pow2_pos(1074);
    lemma_pow0(10);
}

/// Where an expression has a value, its denominator is not zero.
proof fn lemma_denominator(e: ExprView, env: spec_fn(usize) -> (int, int))
    requires
        has_value(e, env),
    ensures
        fraction(e, env).1 != 0,
    decreases e,
{
    match e {
        ExprView::Variable { .. } => {},
        ExprView::Constant { val } => {
            lemma_scalar_denominator(val);
        },
        ExprView::Add { left, right } => {
            lemma_denominator(*left, env);
            lemma_denominator(*right, env);
            lemma_mul_nonzero(fraction(*left, env).1, fraction(*right, env).1);
        },
        ExprView::Sub { left, right } => {
            lemma_denominator(*left, env);
            lemma_denominator(*right, env);
            lemma_mul_nonzero(fraction(*left, env).1, fraction(*right, env).1);
        },
        ExprView::Mul { left, right } => {
            lemma_denominator(*left, env);
            lemma_denominator(*right, env);
            lemma_mul_nonzero(fraction(*left, env).1, fraction(*right, env).1);
        },
        ExprView::Div { left, right } => {
            lemma_denominator(*left, env);
            lemma_mul_nonzero(fraction(*left, env).1, fraction(*right, env).0);
        },
        ExprView::DequantizeMatmul { activations, weights, .. } => {
            lemma_denominator(*activations, env);
            lemma_denominator(*weights, env);
            lemma_mul_nonzero(fraction(*activations, env).1, fraction(*weights, env).1);
        },
    }
}

proof fn lemma_scalar_denominator(s: ScalarView)
    ensures
        scalar_fraction(s).1 != 0,
{
    match s {
        ScalarView::Float(v, _) => {
            lemma_pow2_pos((-f64_weight(v)) as nat);
        },
        ScalarView::DynamicFloat(v) => {
            lemma_pow2_pos((-f64_weight(v)) as nat);
        },
        ScalarView::ScalableFloat(v, _, _) => {
            lemma_pow2_pos((-f64_weight(v)) as nat);
        },
        ScalarView::FloatingInt { scale, .. } => {
            lemma_pow_positive(10, scale as nat);
        },
        _ => {},
    }
}

/// Where an expression has a value, so has its derivative.
proof fn lemma_derivative_has_value(
    e: ExprView,
    env: spec_fn(usize) -> (int, int),
    wrt: usize,
)
    requires
        has_value(e, env),
    ensures
        has_value(derivative(e, wrt), env),
    decreases e,
{
    reveal_with_fuel(has_value, 4);
    reveal_with_fuel(fraction, 3);
    match e {
        ExprView::Variable { .. } => {},
        ExprView::Constant { .. } => {},
        ExprView::Add { left, right } => {
            lemma_derivative_has_value(*left, env, wrt);
            lemma_derivative_has_value(*right, env, wrt);
        },
        ExprView::Sub { left, right } => {
            lemma_derivative_has_value(*left, env, wrt);
            lemma_derivative_has_value(*right, env, wrt);
        },
        ExprView::Mul { left, right } => {
            lemma_derivative_has_value(*left, env, wrt);
            lemma_derivative_has_value(*right, env, wrt);
        },
        ExprView::Div { left, right } => {
            lemma_derivative_has_value(*left, env, wrt);
            lemma_derivative_has_value(*right, env, wrt);
            lemma_mul_nonzero(fraction(*right, env).0, fraction(*right, env).0);
        },
        ExprView::DequantizeMatmul { activations, weights, .. } => {
            lemma_derivative_has_value(*activations, env, wrt);
            lemma_derivative_has_value(*weights, env, wrt);
        },
    }
}

/// That `p / q` is the rate of `n / d`, whose parts move at the rates `n1` and `d1`.
spec fn is_rate(p: int, q: int, n: int, d: int, n1: int, d1: int) -> bool {
    p * (d * d) == q * (n1 * d - n * d1)
}

/// The derivative is the rate of the value.
proof fn lemma_rate(e: ExprView, env: spec_fn(usize) -> (int, int), wrt: usize)
    ensures
        is_rate(
            fraction(derivative(e, wrt), env).0,
            fraction(derivative(e, wrt), env).1,
            fraction(e, env).0,
            fraction(e, env).1,
            rates(e, env, wrt).0,
            rates(e, env, wrt).1,
        ),
    decreases e,
{
    reveal_with_fuel(fraction, 5);
    match e {
        ExprView::Variable { id, dtype, .. } => {
            lemma_unit_fraction(dtype, id == wrt);
            lemma_mul_basics(env(id).0);
            lemma_mul_basics(env(id).1);
            lemma_mul_basics(env(id).1 * env(id).1);
            lemma_mul_basics(scalar_fraction(unit_scalar(dtype, id == wrt)).1);
        },
        ExprView::Constant { val } => {
            lemma_unit_fraction(scalar_type(val), false);
            let (a, b) = scalar_fraction(val);
            lemma_mul_basics(a);
            lemma_mul_basics(b);
            lemma_mul_basics(b * b);
            lemma_mul_basics(scalar_fraction(unit_scalar(scalar_type(val), false)).1);
        },
        ExprView::Add { left, right } => {
            lemma_rate(*left, env, wrt);
            lemma_rate(*right, env, wrt);
            let (a, b) = fraction(*left, env);
            let (c, d) = fraction(*right, env);
            let (p, q) = rates(*left, env, wrt);
            let (r, s) = rates(*right, env, wrt);
            let (x, y) = fraction(derivative(*left, wrt), env);
            let (z, w) = fraction(derivative(*right, wrt), env);
            lemma_sum_rate(a, b, c, d, p, q, r, s, x, y, z, w);
        },
        ExprView::Sub { left, right } => {
            lemma_rate(*left, env, wrt);
            lemma_rate(*right, env, wrt);
            let (a, b) = fraction(*left, env);
            let (c, d) = fraction(*right, env);
            let (p, q) = rates(*left, env, wrt);
            let (r, s) = rates(*right, env, wrt);
            let (x, y) = fraction(derivative(*left, wrt), env);
            let (z, w) = fraction(derivative(*right, wrt), env);
            lemma_sum_rate(a, b, c, d, p, q, r, s, x, y, z, w);
        },
        ExprView::Mul { left, right } => {
            lemma_rate(*left, env, wrt);
            lemma_rate(*right, env, wrt);
            let (a, b) = fraction(*left, env);
            let (c, d) = fraction(*right, env);
            let (p, q) = rates(*left, env, wrt);
            let (r, s) = rates(*right, env, wrt);
            let (x, y) = fraction(derivative(*left, wrt), env);
            let (z, w) = fraction(derivative(*right, wrt), env);
            lemma_product_rate(a, b, c, d, p, q, r, s, x, y, z, w);
        },
        ExprView::Div { left, right } => {
            lemma_rate(*left, env, wrt);
            lemma_rate(*right, env, wrt);
            let (a, b) = fraction(*left, env);
            let (c, d) = fraction(*right, env);
            let (p, q) = rates(*left, env, wrt);
            let (r, s) = rates(*right, env, wrt);
            let (x, y) = fraction(derivative(*left, wrt), env);
            let (z, w) = fraction(derivative(*right, wrt), env);
            lemma_quotient_rate(a, b, c, d, p, q, r, s, x, y, z, w);
        },
        ExprView::DequantizeMatmul { activations, weights, .. } => {
            lemma_rate(*activations, env, wrt);
            lemma_rate(*weights, env, wrt);
            let (a, b) = fraction(*activations, env);
            let (c, d) = fraction(*weights, env);
            let (p, q) = rates(*activations, env, wrt);
            let (r, s) = rates(*weights, env, wrt);
            let (x, y) = fraction(derivative(*activations, wrt), env);
            let (z, w) = fraction(derivative(*weights, wrt), env);
            lemma_product_rate(a, b, c, d, p, q, r, s, x, y, z, w);
            lemma_mul_is_commutative(c, x);
            lemma_mul_is_commutative(d, y);
            lemma_swapped_sum(a * z, b * w, x * c, y * d);
        },
    }
}

proof fn lemma_swapped_sum(a: int, b: int, c: int, d: int)
    ensures
        a * d + c * b == c * b + a * d,
        b * d == d * b,
{
    lemma_mul_is_commutative(b, d);
}

// ─── Products in other orders ────────────────────────────────────────────────

proof fn lemma_expanded_times(x: int, r: int, a: int, h: int, y: int)
    ensures
        (x + h * r + h * h * a) * y == x * y + h * (r * y) + h * h * (a * y),
{
    lemma_mul_is_distributive_add_other_way(y, x + h * r, h * h * a);
    lemma_mul_is_distributive_add_other_way(y, x, h * r);
    lemma_mul_is_associative(h, r, y);
    lemma_mul_is_associative(h * h, a, y);
}

proof fn lemma_swap_last(a: int, b: int, c: int)
    ensures
        (a * b) * c == a * (b * c),
        (a * b) * c == (a * c) * b,
{
    lemma_mul_is_associative(a, b, c);
    lemma_mul_is_associative(a, c, b);
    lemma_mul_is_commutative(b, c);
}

proof fn lemma_swap_first(a: int, b: int, c: int)
    ensures
        a * (b * c) == b * (a * c),
{
    lemma_mul_is_associative(a, b, c);
    lemma_mul_is_associative(b, a, c);
    lemma_mul_is_commutative(a, b);
}

/// Four factors may be paired in every way.
proof fn lemma_pairs(a: int, b: int, c: int, d: int)
    ensures
        (a * b) * (c * d) == (a * c) * (b * d),
        (a * b) * (c * d) == (a * d) * (c * b),
        (a * b) * (c * d) == (a * d) * (b * c),
{
    lemma_mul_is_associative(a, b, c * d);
    lemma_swap_first(b, c, d);
    lemma_mul_is_associative(a, c, b * d);
    lemma_mul_is_commutative(c, d);
    lemma_swap_first(b, d, c);
    lemma_mul_is_associative(a, d, b * c);
    lemma_mul_is_commutative(b, c);
}

proof fn lemma_sum_rate(
    a: int,
    b: int,
    c: int,
    d: int,
    p: int,
    q: int,
    r: int,
    s: int,
    x: int,
    y: int,
    z: int,
    w: int,
)
    requires
        is_rate(x, y, a, b, p, q),
        is_rate(z, w, c, d, r, s),
    ensures
        is_rate(
            x * w + z * y,
            y * w,
            a * d + c * b,
            b * d,
            (p * d + a * s) + (r * b + c * q),
            q * d + b * s,
        ),
        is_rate(
            x * w - z * y,
            y * w,
            a * d - c * b,
            b * d,
            (p * d + a * s) - (r * b + c * q),
            q * d + b * s,
        ),
{
    let bb = b * b;
    let dd = d * d;
    let u = p * b - a * q;
    let v = r * d - c * s;
    let d1 = q * d + b * s;
    let left = p * d + a * s;
    let right = r * b + c * q;
    // The rates of the parts.
    lemma_mul_is_distributive_add_other_way(b * d, p * d, a * s);
    lemma_pairs(p, d, b, d);
    lemma_mul_is_distributive_add(a * d, q * d, b * s);
    lemma_pairs(a, d, q, d);
    lemma_pairs(a, d, b, s);
    lemma_mul_is_commutative(b, d);
    lemma_mul_is_distributive_sub_other_way(dd, p * b, a * q);
    assert(left * (b * d) - (a * d) * d1 == u * dd);
    lemma_mul_is_distributive_add_other_way(b * d, r * b, c * q);
    lemma_pairs(r, b, b, d);
    lemma_mul_is_distributive_add(c * b, q * d, b * s);
    lemma_pairs(c, b, q, d);
    lemma_pairs(c, b, b, s);
    lemma_mul_is_distributive_sub_other_way(bb, r * d, c * s);
    assert(right * (b * d) - (c * b) * d1 == v * bb);
    // The derivatives of the parts.
    lemma_pairs(b, d, b, d);
    lemma_pairs(x, w, bb, dd);
    lemma_pairs(z, y, bb, dd);
    assert((x * w) * (bb * dd) == (y * u) * (w * dd));
    assert((z * y) * (bb * dd) == (w * v) * (y * bb)) by {
        lemma_mul_is_commutative(bb, y);
    }
    lemma_pairs(y, u, w, dd);
    lemma_pairs(w, v, y, bb);
    lemma_mul_is_commutative(w, y);
    // Sum and difference.
    lemma_mul_is_distributive_add_other_way(b * d, left, right);
    lemma_mul_is_distributive_add_other_way(d1, a * d, c * b);
    lemma_mul_is_distributive_add_other_way(bb * dd, x * w, z * y);
    lemma_mul_is_distributive_add(y * w, u * dd, v * bb);
    lemma_mul_is_distributive_sub_other_way(b * d, left, right);
    lemma_mul_is_distributive_sub_other_way(d1, a * d, c * b);
    lemma_mul_is_distributive_sub_other_way(bb * dd, x * w, z * y);
    lemma_mul_is_distributive_sub(y * w, u * dd, v * bb);
}

proof fn lemma_product_rate(
    a: int,
    b: int,
    c: int,
    d: int,
    p: int,
    q: int,
    r: int,
    s: int,
    x: int,
    y: int,
    z: int,
    w: int,
)
    requires
        is_rate(x, y, a, b, p, q),
        is_rate(z, w, c, d, r, s),
    ensures
        is_rate(
            (a * z) * (d * y) + (c * x) * (b * w),
            (b * w) * (d * y),
            a * c,
            b * d,
            p * c + a * r,
            q * d + b * s,
        ),
{
    let bb = b * b;
    let dd = d * d;
    let u = p * b - a * q;
    let v = r * d - c * s;
    let n1 = p * c + a * r;
    let d1 = q * d + b * s;
    let f = b * w;
    let g = d * y;
    lemma_mul_is_distributive_add_other_way(b * d, p * c, a * r);
    lemma_pairs(p, c, b, d);
    lemma_pairs(a, r, b, d);
    lemma_mul_is_distributive_add(a * c, q * d, b * s);
    lemma_pairs(a, c, q, d);
    lemma_pairs(a, c, b, s);
    lemma_mul_is_distributive_sub(c * d, p * b, a * q);
    lemma_mul_is_distributive_sub(a * b, r * d, c * s);
    lemma_mul_is_commutative(p * b, c * d);
    lemma_mul_is_commutative(a * q, c * d);
    assert(n1 * (b * d) - (a * c) * d1 == (c * d) * u + (a * b) * v);
    lemma_pairs(b, d, b, d);
    // The first term.
    let g1 = a * g;
    lemma_swap_last(a, z, g);
    lemma_mul_is_commutative(g1, z);
    assert((a * z) * g == z * g1);
    lemma_pairs(z, g1, bb, dd);
    assert((z * g1) * (bb * dd) == (w * v) * (bb * g1));
    assert(bb * g1 == (a * b) * (g * b)) by {
        lemma_mul_is_commutative(bb, g1);
        lemma_pairs(a, g, b, b);
    }
    assert(f * g == w * (g * b)) by {
        lemma_mul_is_commutative(b, w);
        lemma_mul_is_associative(w, b, g);
        lemma_mul_is_commutative(b, g);
    }
    lemma_pairs(w, g * b, a * b, v);
    lemma_mul_is_commutative(a * b, g * b);
    assert((w * v) * (bb * g1) == (f * g) * ((a * b) * v));
    // The second term.
    let g2 = c * f;
    lemma_swap_last(c, x, f);
    lemma_mul_is_commutative(g2, x);
    assert((c * x) * f == x * g2);
    lemma_pairs(x, g2, bb, dd);
    assert((x * g2) * (bb * dd) == (y * u) * (g2 * dd));
    assert(g2 * dd == (c * d) * (f * d)) by {
        lemma_pairs(c, f, d, d);
    }
    assert(f * g == y * (f * d)) by {
        lemma_mul_is_associative(f, d, y);
        lemma_mul_is_commutative(f * d, y);
    }
    lemma_pairs(y, f * d, c * d, u);
    lemma_mul_is_commutative(c * d, f * d);
    assert((y * u) * (g2 * dd) == (f * g) * ((c * d) * u));
    lemma_mul_is_distributive_add_other_way(bb * dd, (a * z) * g, (c * x) * f);
    lemma_mul_is_distributive_add(f * g, (c * d) * u, (a * b) * v);
}

proof fn lemma_quotient_rate(
    a: int,
    b: int,
    c: int,
    d: int,
    p: int,
    q: int,
    r: int,
    s: int,
    x: int,
    y: int,
    z: int,
    w: int,
)
    requires
        is_rate(x, y, a, b, p, q),
        is_rate(z, w, c, d, r, s),
    ensures
        is_rate(
            ((x * c) * (b * w) - (a * z) * (y * d)) * (d * d),
            ((y * d) * (b * w)) * (c * c),
            a * d,
            b * c,
            p * d + a * s,
            q * c + b * r,
        ),
{
    let bb = b * b;
    let cc = c * c;
    let dd = d * d;
    let u = p * b - a * q;
    let v = r * d - c * s;
    let n1 = p * d + a * s;
    let d1 = q * c + b * r;
    let f = b * w;
    let k = y * d;
    lemma_mul_is_distributive_add_other_way(b * c, p * d, a * s);
    lemma_pairs(p, d, b, c);
    lemma_pairs(a, s, b, c);
    lemma_mul_is_distributive_add(a * d, q * c, b * r);
    lemma_pairs(a, d, q, c);
    lemma_pairs(a, d, b, r);
    lemma_mul_is_commutative(d, r);
    lemma_mul_is_commutative(s, c);
    lemma_mul_is_distributive_sub(d * c, p * b, a * q);
    lemma_mul_is_distributive_sub(a * b, r * d, c * s);
    lemma_mul_is_commutative(p * b, d * c);
    lemma_mul_is_commutative(a * q, d * c);
    assert(n1 * (b * c) - (a * d) * d1 == (d * c) * u - (a * b) * v);
    lemma_pairs(b, c, b, c);
    let den = (k * f) * cc;
    // The first term.
    let g1 = c * f;
    let whole = dd * (bb * cc);
    assert((x * c) * f == x * g1) by {
        lemma_mul_is_associative(x, c, f);
    }
    assert((x * g1) * whole == (y * u) * (g1 * (dd * cc))) by {
        lemma_swap_first(dd, bb, cc);
        lemma_pairs(x, g1, bb, dd * cc);
    }
    assert(den == y * ((d * f) * cc)) by {
        lemma_mul_is_associative(y, d, f);
        lemma_mul_is_associative(y, d * f, cc);
    }
    assert(((d * f) * cc) * (d * c) == g1 * (dd * cc)) by {
        lemma_swap_last(d * f, cc, d * c);
        lemma_pairs(d, f, d, c);
        lemma_mul_is_commutative(f, c);
        lemma_swap_last(dd, g1, cc);
        lemma_mul_is_commutative(dd * cc, g1);
    }
    lemma_pairs(y, (d * f) * cc, d * c, u);
    assert((x * g1) * whole == den * ((d * c) * u));
    // The second term.
    let g2 = a * k;
    assert((a * z) * k == z * g2) by {
        lemma_swap_last(a, z, k);
        lemma_mul_is_commutative(g2, z);
    }
    assert((z * g2) * whole == (w * v) * (g2 * (bb * cc))) by {
        lemma_pairs(z, g2, dd, bb * cc);
    }
    assert(den == w * ((k * b) * cc)) by {
        lemma_mul_is_associative(k, b, w);
        lemma_mul_is_commutative(k * b, w);
        lemma_mul_is_associative(w, k * b, cc);
    }
    assert(((k * b) * cc) * (a * b) == g2 * (bb * cc)) by {
        lemma_swap_last(k * b, cc, a * b);
        lemma_pairs(k, b, a, b);
        lemma_mul_is_commutative(k, a);
        lemma_mul_is_associative(g2, bb, cc);
    }
    lemma_pairs(w, (k * b) * cc, a * b, v);
    assert((z * g2) * whole == den * ((a * b) * v));
    let top = (x * c) * f - (a * z) * k;
    lemma_mul_is_associative(top, dd, bb * cc);
    lemma_mul_is_distributive_sub_other_way(whole, (x * c) * f, (a * z) * k);
    lemma_mul_is_distributive_sub(den, (d * c) * u, (a * b) * v);
}

} // verus!
