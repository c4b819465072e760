//! What the limb interpreter computes: integers of any width modulo a power of two, and
//! the doubles that expressions yield.

use crate::bits::{
    lemma_limbs_bit, lemma_mod_pow2_mod, lemma_nat_bit_past, lemma_pow2_64, lemma_pow2_le,
    limb_bit, limb_count, limbs_nat, wrap_i64,
};
use crate::fuser::helpers::ArithOp;
use crate::fuser::interp::{
    eval_scalar, eval_values, interpreted, is_int, is_scalable_int, limbs_result, output_type,
    scalar_result, var_element, widened,
};
use crate::fuser::kernel::{distinct_vars, expr_value, var_ids};
use crate::fuser::laws::element_double;
use crate::ir::{expr_scale, expr_size, expr_steal, expr_type, ExprView};
use crate::limbs::{lemma_limbs_of, limbs_of};
use crate::soft_float::{f64_is_zero, FloatOp};
use crate::types::int_codec::{extended_bit, extended_limbs, lemma_extended_limbs};
use crate::types::laws::{coded_value, law_array_holds_codes};
use crate::types::{codable, scalar_double, ScalarView};
use vstd::arithmetic::div_mod::*;
use vstd::arithmetic::power2::*;
use vstd::prelude::*;

verus! {

// ─── Integers ────────────────────────────────────────────────────────────────

/// The number that an integer scalar is, up to multiples of two to the power of its
/// width.
pub open spec fn scalar_number(s: ScalarView) -> int {
    match s {
        ScalarView::Int(v, _) => v as int,
        ScalarView::ScalableInt(v, _) => v as int,
        ScalarView::IntLimbs(l, _) => limbs_nat(l) as int,
        ScalarView::ScalableIntLimbs(l, _) => limbs_nat(l) as int,
        _ => 0,
    }
}

/// That limbs are those of an integer of `b` bits.
pub open spec fn are_limbs(l: Seq<u64>, b: u32) -> bool {
    l.len() == limb_count(b as nat) && limbs_nat(l) < pow2(b as nat)
}

/// That a scalar is an integer of `b` bits, of fixed width or scalable.
pub open spec fn is_whole_of(s: ScalarView, b: u32, scalable: bool) -> bool {
    match s {
        ScalarView::Int(_, w) => w == b && b <= 64 && !scalable,
        ScalarView::ScalableInt(_, w) => w == b && b <= 64 && scalable,
        ScalarView::IntLimbs(l, w) => w == b && b > 64 && !scalable && are_limbs(l, b),
        ScalarView::ScalableIntLimbs(l, w) => w == b && b > 64 && scalable && are_limbs(l, b),
        _ => false,
    }
}

/// What an expression is as arithmetic on integers, where the variable with id `i` is
/// `env(i)`.
pub open spec fn plain_value(e: ExprView, env: spec_fn(usize) -> int) -> int
    decreases e,
{
    match e {
        ExprView::Variable { id, .. } => env(id),
        ExprView::Constant { val } => scalar_number(val),
        ExprView::Add { left, right } => plain_value(*left, env) + plain_value(*right, env),
        ExprView::Sub { left, right } => plain_value(*left, env) - plain_value(*right, env),
        ExprView::Mul { left, right } => plain_value(*left, env) * plain_value(*right, env),
        _ => 0,
    }
}

/// That an expression without divisions reads integers of `b` bits, which for the
/// variable with id `i` are `env(i)`, up to multiples of two to the power of `b`.
pub open spec fn leaves_are_whole(
    e: ExprView,
    vars: Seq<ExprView>,
    i: nat,
    b: u32,
    scalable: bool,
    env: spec_fn(usize) -> int,
) -> bool
    decreases e,
{
    match e {
        ExprView::Variable { id, .. } => {
            let s = var_element(vars[var_ids(vars).index_of(id)], i);
            is_whole_of(s, b, scalable) && scalar_number(s) % pow2(b as nat) as int == env(id)
                % pow2(b as nat) as int
        },
        ExprView::Constant { val } => is_whole_of(val, b, scalable),
        ExprView::Add { left, right } => leaves_are_whole(*left, vars, i, b, scalable, env)
            && leaves_are_whole(*right, vars, i, b, scalable, env),
        ExprView::Sub { left, right } => leaves_are_whole(*left, vars, i, b, scalable, env)
            && leaves_are_whole(*right, vars, i, b, scalable, env),
        ExprView::Mul { left, right } => leaves_are_whole(*left, vars, i, b, scalable, env)
            && leaves_are_whole(*right, vars, i, b, scalable, env),
        _ => false,
    }
}

/// Limbs of `b` bits are not changed where they are extended to `b` bits.
proof fn lemma_same_width(l: Seq<u64>, b: u32)
    requires
        are_limbs(l, b),
    ensures
        extended_limbs(l, b as nat, b as nat) == l,
{
    let w = b as nat;
    assert forall|j: nat| #[trigger] limb_bit(l, j) == (j < w && extended_bit(l, w, j)) by {
        if j >= w {
            lemma_limbs_bit(l, j);
            lemma_pow2_le(w, j);
            lemma_nat_bit_past(limbs_nat(l), j);
        }
    }
    lemma_extended_limbs(l, w, w, l);
}

/// An operation, but for division.
spec fn plain_result(op: ArithOp, m: int, n: int) -> int {
    match op {
        ArithOp::Add => m + n,
        ArithOp::Sub => m - n,
        ArithOp::Mul => m * n,
        ArithOp::Div => 0,
    }
}

proof fn lemma_plain_mod(op: ArithOp, x: int, y: int, m: int, n: int, p: int)
    requires
        p > 0,
        !(op is Div),
        x % p == m % p,
        y % p == n % p,
    ensures
        plain_result(op, x, y) % p == plain_result(op, m, n) % p,
{
    match op {
        ArithOp::Add => {
            lemma_add_mod_noop(x, y, p);
            lemma_add_mod_noop(m, n, p);
        },
        ArithOp::Sub => {
            lemma_sub_mod_noop(x, y, p);
            lemma_sub_mod_noop(m, n, p);
        },
        ArithOp::Mul => {
            lemma_mul_mod_noop(x, y, p);
            lemma_mul_mod_noop(m, n, p);
        },
        ArithOp::Div => {},
    }
}

/// A number that wraps in a word is the same modulo smaller powers of two.
proof fn lemma_wrapped_mod(x: int, b: nat)
    requires
        b <= 64,
    ensures
        wrap_i64(x) % pow2(b) as int == x % pow2(b) as int,
{
    let q = 0x1_0000_0000_0000_0000int;
    lemma_pow2_64();
    lemma_mod_pow2_mod(x, b, 64);
    lemma_mod_pow2_mod(wrap_i64(x), b, 64);
    assert(wrap_i64(x) % q == x % q) by {
        lemma_mod_bound(x, q);
        let m = x % q;
        if m >= 0x8000_0000_0000_0000 {
            lemma_mod_add_multiples_vanish(m - q, q);
        }
        lemma_small_mod(m as nat, q as nat);
    }
}

proof fn lemma_limbs_result<F: Fn(FloatOp, u64, u64) -> u64>(
    f: F,
    op: ArithOp,
    l: Seq<u64>,
    r: Seq<u64>,
    b: u32,
)
    requires
        are_limbs(l, b),
        are_limbs(r, b),
        !(op is Div),
    ensures
        are_limbs(limbs_result(f, op, l, r, b), b),
        limbs_nat(limbs_result(f, op, l, r, b)) == plain_result(
            op,
            limbs_nat(l) as int,
            limbs_nat(r) as int,
        ) % pow2(b as nat) as int,
{
    let p = pow2(b as nat) as int;
    let k = limb_count(b as nat);
    let x = plain_result(op, limbs_nat(l) as int, limbs_nat(r) as int);
    lemma_pow2_pos(b as nat);
    lemma_mod_bound(x, p);
    let n = (x % p) as nat;
    lemma_limbs_of(n, k);
    lemma_pow2_le(b as nat, 64 * k);
    lemma_small_mod(n, pow2(64 * k));
    assert(limbs_result(f, op, l, r, b) == limbs_of(n, k));
}

/// An operation on two integers of `b` bits gives an integer of `b` bits, which is the
/// sum, the difference or the product of theirs modulo two to the power of `b`.
proof fn lemma_whole_result<F: Fn(FloatOp, u64, u64) -> u64>(
    f: F,
    op: ArithOp,
    l: ScalarView,
    r: ScalarView,
    b: u32,
    scalable: bool,
    m: int,
    n: int,
)
    requires
        is_whole_of(l, b, scalable),
        is_whole_of(r, b, scalable),
        scalar_number(l) % pow2(b as nat) as int == m % pow2(b as nat) as int,
        scalar_number(r) % pow2(b as nat) as int == n % pow2(b as nat) as int,
        !(op is Div),
    ensures
        is_whole_of(scalar_result(f, op, l, r), b, scalable),
        scalar_number(scalar_result(f, op, l, r)) % pow2(b as nat) as int == plain_result(op, m, n)
            % pow2(b as nat) as int,
{
    let p = pow2(b as nat) as int;
    let x = plain_result(op, scalar_number(l), scalar_number(r));
    lemma_pow2_pos(b as nat);
    lemma_plain_mod(op, scalar_number(l), scalar_number(r), m, n, p);
    if b <= 64 {
        lemma_wrapped_mod(x, b as nat);
        assert(scalar_number(scalar_result(f, op, l, r)) == wrap_i64(x));
    } else {
        let u = limbs_in(l);
        let v = limbs_in(r);
        lemma_same_width(u, b);
        lemma_same_width(v, b);
        assert(widened(l, b) == u && widened(r, b) == v);
        lemma_limbs_result(f, op, u, v, b);
        lemma_mod_twice(x, p);
    }
}

/// The limbs of a wide integer.
spec fn limbs_in(s: ScalarView) -> Seq<u64> {
    match s {
        ScalarView::IntLimbs(l, _) => l,
        ScalarView::ScalableIntLimbs(l, _) => l,
        _ => Seq::empty(),
    }
}

/// The limb interpreter computes with integers of any width as arithmetic does: for
/// integers of `b` bits, fixed or scalable, the sums, differences and products of an
/// expression come to what they are on whole numbers, modulo two to the power of `b`.
pub proof fn law_interpreter_wraps_integers<F: Fn(FloatOp, u64, u64) -> u64>(
    f: F,
    e: ExprView,
    vars: Seq<ExprView>,
    i: nat,
    b: u32,
    scalable: bool,
    env: spec_fn(usize) -> int,
)
    requires
        leaves_are_whole(e, vars, i, b, scalable, env),
    ensures
        is_whole_of(eval_scalar(f, e, vars, i), b, scalable),
        scalar_number(eval_scalar(f, e, vars, i)) % pow2(b as nat) as int == plain_value(e, env)
            % pow2(b as nat) as int,
    decreases e,
{
    match e {
        ExprView::Add { left, right } => {
            law_interpreter_wraps_integers(f, *left, vars, i, b, scalable, env);
            law_interpreter_wraps_integers(f, *right, vars, i, b, scalable, env);
            lemma_whole_result(
                f,
                ArithOp::Add,
                eval_scalar(f, *left, vars, i),
                eval_scalar(f, *right, vars, i),
                b,
                scalable,
                plain_value(*left, env),
                plain_value(*right, env),
            );
        },
        ExprView::Sub { left, right } => {
            law_interpreter_wraps_integers(f, *left, vars, i, b, scalable, env);
            law_interpreter_wraps_integers(f, *right, vars, i, b, scalable, env);
            lemma_whole_result(
                f,
                ArithOp::Sub,
                eval_scalar(f, *left, vars, i),
                eval_scalar(f, *right, vars, i),
                b,
                scalable,
                plain_value(*left, env),
                plain_value(*right, env),
            );
        },
        ExprView::Mul { left, right } => {
            law_interpreter_wraps_integers(f, *left, vars, i, b, scalable, env);
            law_interpreter_wraps_integers(f, *right, vars, i, b, scalable, env);
            lemma_whole_result(
                f,
                ArithOp::Mul,
                eval_scalar(f, *left, vars, i),
                eval_scalar(f, *right, vars, i),
                b,
                scalable,
                plain_value(*left, env),
                plain_value(*right, env),
            );
        },
        _ => {},
    }
}

// ─── Doubles ─────────────────────────────────────────────────────────────────

/// That an expression reads scalars that are no integers, with the doubles `env(i)` for
/// the variable with id `i`, and divides by no zero.
pub open spec fn leaves_are_fractions<F: Fn(FloatOp, u64, u64) -> u64>(
    f: F,
    e: ExprView,
    vars: Seq<ExprView>,
    i: nat,
    env: spec_fn(usize) -> u64,
) -> bool
    decreases e,
{
    match e {
        ExprView::Variable { id, .. } => {
            let s = var_element(vars[var_ids(vars).index_of(id)], i);
            !is_int(s) && !is_scalable_int(s) && scalar_double(f, s) == env(id)
        },
        ExprView::Constant { val } => !is_int(val) && !is_scalable_int(val),
        ExprView::Add { left, right } => leaves_are_fractions(f, *left, vars, i, env)
            && leaves_are_fractions(f, *right, vars, i, env),
        ExprView::Sub { left, right } => leaves_are_fractions(f, *left, vars, i, env)
            && leaves_are_fractions(f, *right, vars, i, env),
        ExprView::Mul { left, right } => leaves_are_fractions(f, *left, vars, i, env)
            && leaves_are_fractions(f, *right, vars, i, env),
        ExprView::Div { left, right } => leaves_are_fractions(f, *left, vars, i, env)
            && leaves_are_fractions(f, *right, vars, i, env) && !f64_is_zero(
            expr_value(f, *right, env),
        ),
        ExprView::DequantizeMatmul { .. } => false,
    }
}

/// On scalars that are no integers the limb interpreter yields what the expression
/// yields.
pub proof fn law_interpreter_computes_doubles<F: Fn(FloatOp, u64, u64) -> u64>(
    f: F,
    e: ExprView,
    vars: Seq<ExprView>,
    i: nat,
    env: spec_fn(usize) -> u64,
)
    requires
        leaves_are_fractions(f, e, vars, i, env),
    ensures
        !is_int(eval_scalar(f, e, vars, i)),
        !is_scalable_int(eval_scalar(f, e, vars, i)),
        scalar_double(f, eval_scalar(f, e, vars, i)) == expr_value(f, e, env),
    decreases e,
{
    match e {
        ExprView::Add { left, right } => {
            law_interpreter_computes_doubles(f, *left, vars, i, env);
            law_interpreter_computes_doubles(f, *right, vars, i, env);
        },
        ExprView::Sub { left, right } => {
            law_interpreter_computes_doubles(f, *left, vars, i, env);
            law_interpreter_computes_doubles(f, *right, vars, i, env);
        },
        ExprView::Mul { left, right } => {
            law_interpreter_computes_doubles(f, *left, vars, i, env);
            law_interpreter_computes_doubles(f, *right, vars, i, env);
        },
        ExprView::Div { left, right } => {
            law_interpreter_computes_doubles(f, *left, vars, i, env);
            law_interpreter_computes_doubles(f, *right, vars, i, env);
        },
        _ => {},
    }
}

// ─── The result ──────────────────────────────────────────────────────────────

/// The array that the limb interpreter yields holds, for each element, what the
/// expression was evaluated to, as the type of the result codes it.
pub proof fn law_interpreted_is_held<F: Fn(FloatOp, u64, u64) -> u64>(f: F, e: ExprView, i: nat)
    requires
        i < expr_size(e) <= usize::MAX,
        codable(expr_type(interpreted(f, e)), expr_steal(interpreted(f, e))),
    ensures
        expr_size(interpreted(f, e)) == expr_size(e),
        element_double(f, interpreted(f, e), i) == coded_value(
            f,
            scalar_double(f, eval_scalar(f, e, distinct_vars(e, Seq::empty()), i)),
            expr_type(interpreted(f, e)),
            expr_scale(e),
            expr_steal(interpreted(f, e)),
            true,
        ),
{
    let vals = eval_values(f, e);
    let (d, s) = output_type(expr_type(e), expr_steal(e), vals);
    law_array_holds_codes(f, vals, d, expr_scale(e), s, true, i);
}

} // verus!
