//! The limb interpreter: expressions evaluated element by element, integers of
//! any width included.

use crate::bits::{limb_count, limbs_nat, wrap_i64};
use crate::elements::{
    addressable, all_non_negative, are_non_negative, choose_scalable_float, element_scalar,
    integer_limbs, pack_values, packed_values, scalable_float_type, unpack_scalars, widest_int,
    widest_int_bits,
};
use crate::fuser::helpers::ArithOp;
use crate::fuser::kernel::{covered, distinct_inputs, distinct_vars, var_id, var_ids};
use crate::fuser::limb_arith::{add_limbs, mul_limbs, sub_limbs};
use crate::fuser::plan::float_op;
use crate::fuser::words::trunc_div;
use crate::hardware::HardwareEngine;
use crate::ir::{
    expr_countable, expr_scale, expr_size, expr_steal, expr_type, flat_var, flat_view, Expr,
    ExprView,
};
use crate::limbs::limbs_of;
use crate::soft_float::{ask, f64_is_zero, float_answer, is_float_unit, is_zero, F64Bits, FloatOp};
use crate::types::int_codec::{extended_limbs, int_limbs_double};
use crate::types::{
    codable, decode_custom_int_limbs_to_double, dtype_width, encode_custom_int_limbs_from_double,
    extension_width, scalar_double, scalar_limbs, DataType, Scalar, ScalarView,
};
use vstd::arithmetic::power2::*;
use vstd::prelude::*;

verus! {

// ─── Values ──────────────────────────────────────────────────────────────────

/// The widest integer that is evaluated.
pub const MAX_EVAL_BITS: u32 = 0x8000_0000;

/// That a scalar can be evaluated: an integer has a width, and a limb string
/// has more than 64 bits and the limbs that they take.
pub open spec fn sane(s: ScalarView) -> bool {
    match s {
        ScalarView::Int(_, b) => 1 <= b <= MAX_EVAL_BITS,
        ScalarView::ScalableInt(_, b) => 1 <= b <= MAX_EVAL_BITS,
        ScalarView::IntLimbs(l, b) => 64 < b <= MAX_EVAL_BITS && l.len() == limb_count(b as nat),
        ScalarView::ScalableIntLimbs(l, b) => 64 < b <= MAX_EVAL_BITS && l.len() == limb_count(
            b as nat,
        ),
        _ => true,
    }
}

/// The result of an operation on integers of up to 64 bits, which wraps; zero
/// for a zero divisor.
pub open spec fn int_result(op: ArithOp, l: i64, r: i64) -> i64 {
    match op {
        ArithOp::Add => wrap_i64(l + r) as i64,
        ArithOp::Sub => wrap_i64(l - r) as i64,
        ArithOp::Mul => wrap_i64(l * r) as i64,
        ArithOp::Div => if r == 0 {
            0
        } else {
            wrap_i64(trunc_div(l as int, r as int)) as i64
        },
    }
}

/// The result of an operation on doubles; zero for a zero divisor.
pub open spec fn double_result<F: Fn(FloatOp, u64, u64) -> u64>(
    f: F,
    op: ArithOp,
    l: u64,
    r: u64,
) -> u64 {
    if op is Div && f64_is_zero(r) {
        0
    } else {
        float_answer(f, float_op(op), l, r)
    }
}

/// The result of an operation on limb strings of `b` bits: modulo `2^b`, and
/// by way of doubles for division.
pub open spec fn limbs_result<F: Fn(FloatOp, u64, u64) -> u64>(
    f: F,
    op: ArithOp,
    l: Seq<u64>,
    r: Seq<u64>,
    b: u32,
) -> Seq<u64> {
    let m = pow2(b as nat) as int;
    let k = limb_count(b as nat);
    match op {
        ArithOp::Add => limbs_of(((limbs_nat(l) + limbs_nat(r)) as int % m) as nat, k),
        ArithOp::Sub => limbs_of(((limbs_nat(l) - limbs_nat(r)) % m) as nat, k),
        ArithOp::Mul => limbs_of(((limbs_nat(l) * limbs_nat(r)) as int % m) as nat, k),
        ArithOp::Div => integer_limbs(
            double_result(
                f,
                op,
                int_limbs_double(f, l, b as nat),
                int_limbs_double(f, r, b as nat),
            ),
            b,
        ),
    }
}

/// The width of an integer scalar.
pub open spec fn int_width(s: ScalarView) -> u32 {
    match s {
        ScalarView::Int(_, b) => b,
        ScalarView::IntLimbs(_, b) => b,
        ScalarView::ScalableInt(_, b) => b,
        ScalarView::ScalableIntLimbs(_, b) => b,
        _ => 0,
    }
}

/// The value of an integer scalar of up to 64 bits.
pub open spec fn small_int(s: ScalarView) -> i64 {
    match s {
        ScalarView::Int(v, _) => v,
        ScalarView::ScalableInt(v, _) => v,
        _ => 0,
    }
}

/// That a scalar is an integer of fixed width.
pub open spec fn is_int(s: ScalarView) -> bool {
    s is Int || s is IntLimbs
}

/// That a scalar is a scalable integer.
pub open spec fn is_scalable_int(s: ScalarView) -> bool {
    s is ScalableInt || s is ScalableIntLimbs
}

/// The larger of two widths.
pub open spec fn wider(a: u32, b: u32) -> u32 {
    if a > b {
        a
    } else {
        b
    }
}

/// The limbs of an integer scalar, its sign repeated up to `b` bits.
pub open spec fn widened(s: ScalarView, b: u32) -> Seq<u64> {
    extended_limbs(scalar_limbs(s, false), extension_width(s) as nat, b as nat)
}

/// The result of an operation on two scalars: integers of one kind stay
/// integers, of the larger width; all else goes by way of doubles and takes the
/// float type of the left operand.
pub open spec fn scalar_result<F: Fn(FloatOp, u64, u64) -> u64>(
    f: F,
    op: ArithOp,
    l: ScalarView,
    r: ScalarView,
) -> ScalarView {
    let b = wider(int_width(l), int_width(r));
    if is_int(l) && is_int(r) {
        if b <= 64 {
            ScalarView::Int(int_result(op, small_int(l), small_int(r)), b)
        } else {
            ScalarView::IntLimbs(limbs_result(f, op, widened(l, b), widened(r, b), b), b)
        }
    } else if is_scalable_int(l) && is_scalable_int(r) {
        if b <= 64 {
            ScalarView::ScalableInt(int_result(op, small_int(l), small_int(r)), b)
        } else {
            ScalarView::ScalableIntLimbs(
                limbs_result(f, op, widened(l, b), widened(r, b), b),
                b,
            )
        }
    } else {
        let v = double_result(f, op, scalar_double(f, l), scalar_double(f, r));
        match l {
            ScalarView::Float(_, w) => ScalarView::Float(v, w),
            ScalarView::ScalableFloat(_, w, e) => ScalarView::ScalableFloat(v, w, e),
            _ => ScalarView::DynamicFloat(v),
        }
    }
}

/// The element of a variable.
pub open spec fn var_element(v: ExprView, i: nat) -> ScalarView {
    match v {
        ExprView::Variable { dtype, data, scale, steal_sign, .. } => element_scalar(
            data,
            i,
            dtype,
            scale,
            steal_sign,
        ),
        _ => arbitrary(),
    }
}

/// The value of an expression for element `i`, its variables looked up by id.
pub open spec fn eval_scalar<F: Fn(FloatOp, u64, u64) -> u64>(
    f: F,
    e: ExprView,
    vars: Seq<ExprView>,
    i: nat,
) -> ScalarView
    decreases e,
{
    match e {
        ExprView::Variable { id, .. } => var_element(vars[var_ids(vars).index_of(id)], i),
        ExprView::Constant { val } => val,
        ExprView::Add { left, right } => scalar_result(
            f,
            ArithOp::Add,
            eval_scalar(f, *left, vars, i),
            eval_scalar(f, *right, vars, i),
        ),
        ExprView::Sub { left, right } => scalar_result(
            f,
            ArithOp::Sub,
            eval_scalar(f, *left, vars, i),
            eval_scalar(f, *right, vars, i),
        ),
        ExprView::Mul { left, right } => scalar_result(
            f,
            ArithOp::Mul,
            eval_scalar(f, *left, vars, i),
            eval_scalar(f, *right, vars, i),
        ),
        ExprView::Div { left, right } => scalar_result(
            f,
            ArithOp::Div,
            eval_scalar(f, *left, vars, i),
            eval_scalar(f, *right, vars, i),
        ),
        ExprView::DequantizeMatmul { .. } => arbitrary(),
    }
}

// ─── Operations ──────────────────────────────────────────────────────────────

fn int_arith(op: ArithOp, l: i64, r: i64) -> (res: i64)
    ensures
        res == int_result(op, l, r),
{
    match op {
        ArithOp::Add => wrapped(l as i128 + r as i128),
        ArithOp::Sub => wrapped(l as i128 - r as i128),
        ArithOp::Mul => {
            proof {
                lemma_product_range(l as int, r as int);
            }
            wrapped(l as i128 * r as i128)
        },
        ArithOp::Div => {
            if r == 0 {
                0
            } else {
                wrapped(truncated_quotient(l, r))
            }
        },
    }
}

proof fn lemma_product_range(l: int, r: int)
    requires
        -0x8000_0000_0000_0000 <= l <= 0x7fff_ffff_ffff_ffff,
        -0x8000_0000_0000_0000 <= r <= 0x7fff_ffff_ffff_ffff,
    ensures
        -0x4000_0000_0000_0000_0000_0000_0000_0000 <= l * r
            <= 0x4000_0000_0000_0000_0000_0000_0000_0000,
{
    let h = 0x8000_0000_0000_0000int;
    let a = if l < 0 {
        -l
    } else {
        l
    };
    let b = if r < 0 {
        -r
    } else {
        r
    };
    vstd::arithmetic::mul::lemma_mul_upper_bound(a, h, b, h);
    vstd::arithmetic::mul::lemma_mul_nonnegative(a, b);
    assert(l * r == a * b || l * r == -(a * b)) by (nonlinear_arith)
        requires
            a == l || a == -l,
            b == r || b == -r,
    ;
}

/// A number modulo `2^64`, as a signed one.
fn wrapped(n: i128) -> (r: i64)
    requires
        -0x4000_0000_0000_0000_0000_0000_0000_0000 <= n
            <= 0x4000_0000_0000_0000_0000_0000_0000_0000,
    ensures
        r as int == wrap_i64(n as int),
{
    let k: i128 = 0x1_0000_0000_0000_0000;
    let m: i128 = if n >= 0 {
        n % k
    } else {
        let q: i128 = (-n) % k;
        proof {
            vstd::arithmetic::div_mod::lemma_fundamental_div_mod(-n as int, k as int);
            let t = (-n as int) / (k as int);
            if q == 0 {
                vstd::arithmetic::div_mod::lemma_fundamental_div_mod_converse(
                    n as int,
                    k as int,
                    -t,
                    0,
                );
            } else {
                vstd::arithmetic::div_mod::lemma_fundamental_div_mod_converse(
                    n as int,
                    k as int,
                    -t - 1,
                    k - q,
                );
            }
        }
        if q == 0 {
            0
        } else {
            k - q
        }
    };
    if m >= 0x8000_0000_0000_0000 {
        (m - k) as i64
    } else {
        m as i64
    }
}

fn truncated_quotient(l: i64, r: i64) -> (q: i128)
    requires
        r != 0,
    ensures
        q as int == trunc_div(l as int, r as int),
        -0x8000_0000_0000_0000 <= q <= 0x8000_0000_0000_0000,
{
    let x: u128 = if l < 0 {
        (-(l as i128)) as u128
    } else {
        l as u128
    };
    let y: u128 = if r < 0 {
        (-(r as i128)) as u128
    } else {
        r as u128
    };
    let q: u128 = x / y;
    proof {
        vstd::arithmetic::div_mod::lemma_div_nonincreasing(x as int, y as int);
    }
    if (l < 0) == (r < 0) {
        q as i128
    } else {
        -(q as i128)
    }
}

fn double_arith<F: Fn(FloatOp, u64, u64) -> u64>(op: ArithOp, l: F64Bits, r: F64Bits, f: &F) -> (v:
    F64Bits)
    requires
        is_float_unit(*f),
    ensures
        v == double_result(*f, op, l, r),
{
    match op {
        ArithOp::Add => ask(f, FloatOp::Add, l, r),
        ArithOp::Sub => ask(f, FloatOp::Sub, l, r),
        ArithOp::Mul => ask(f, FloatOp::Mul, l, r),
        ArithOp::Div => {
            if is_zero(r) {
                0
            } else {
                ask(f, FloatOp::Div, l, r)
            }
        },
    }
}

fn limb_arith<F: Fn(FloatOp, u64, u64) -> u64>(
    op: ArithOp,
    l: &Vec<u64>,
    r: &Vec<u64>,
    b: u32,
    f: &F,
) -> (res: Vec<u64>)
    requires
        is_float_unit(*f),
        64 < b <= MAX_EVAL_BITS,
        l@.len() == limb_count(b as nat),
        r@.len() == limb_count(b as nat),
    ensures
        res@ == limbs_result(*f, op, l@, r@, b),
        res@.len() == limb_count(b as nat),
{
    let ghost k = limb_count(b as nat);
    match op {
        ArithOp::Add => {
            let res: Vec<u64> = add_limbs(l.as_slice(), r.as_slice(), b);
            proof {
                crate::limbs::lemma_limbs_are(res@, limbs_nat(res@), k);
            }
            res
        },
        ArithOp::Sub => {
            let res: Vec<u64> = sub_limbs(l.as_slice(), r.as_slice(), b);
            proof {
                crate::limbs::lemma_limbs_are(res@, limbs_nat(res@), k);
            }
            res
        },
        ArithOp::Mul => {
            let res: Vec<u64> = mul_limbs(l.as_slice(), r.as_slice(), b);
            proof {
                crate::limbs::lemma_limbs_are(res@, limbs_nat(res@), k);
            }
            res
        },
        ArithOp::Div => {
            let lf: u64 = decode_custom_int_limbs_to_double(l.as_slice(), b, f);
            let rf: u64 = decode_custom_int_limbs_to_double(r.as_slice(), b, f);
            let v: u64 = double_arith(op, lf, rf, f);
            let res: Vec<u64> = encode_custom_int_limbs_from_double(v, b);
            proof {
                crate::limbs::lemma_limbs_are(res@, limbs_nat(res@), k);
            }
            res
        },
    }
}

/// Which kind of integer a scalar is, with its width and, for up to 64 bits,
/// its value.
fn int_parts(s: &Scalar) -> (r: (bool, bool, u32, i64))
    ensures
        r.0 == is_int(s@),
        r.1 == is_scalable_int(s@),
        r.2 == int_width(s@),
        r.3 == small_int(s@),
{
    match s {
        Scalar::Int(v, b) => (true, false, *b, *v),
        Scalar::IntLimbs(_, b) => (true, false, *b, 0),
        Scalar::ScalableInt(v, b) => (false, true, *b, *v),
        Scalar::ScalableIntLimbs(_, b) => (false, true, *b, 0),
        _ => (false, false, 0, 0),
    }
}

/// An operation on two scalars.
pub fn apply_op<F: Fn(FloatOp, u64, u64) -> u64>(l: Scalar, r: Scalar, op: ArithOp, f: &F) -> (res:
    Scalar)
    requires
        is_float_unit(*f),
        sane(l@),
        sane(r@),
    ensures
        res@ == scalar_result(*f, op, l@, r@),
        sane(res@),
{
    let (l_int, l_scalable, lb, lv) = int_parts(&l);
    let (r_int, r_scalable, rb, rv) = int_parts(&r);
    let max_b: u32 = if lb > rb {
        lb
    } else {
        rb
    };
    if (l_int && r_int) || (l_scalable && r_scalable) {
        if max_b <= 64 {
            let v: i64 = int_arith(op, lv, rv);
            if l_int {
                Scalar::Int(v, max_b)
            } else {
                Scalar::ScalableInt(v, max_b)
            }
        } else {
            let alimbs: Vec<u64> = l.to_extended_limbs(max_b);
            let blimbs: Vec<u64> = r.to_extended_limbs(max_b);
            let res: Vec<u64> = limb_arith(op, &alimbs, &blimbs, max_b, f);
            if l_int {
                Scalar::IntLimbs(res, max_b)
            } else {
                Scalar::ScalableIntLimbs(res, max_b)
            }
        }
    } else {
        let lf: u64 = l.to_double(f);
        let rf: u64 = r.to_double(f);
        let v: u64 = double_arith(op, lf, rf, f);
        match l {
            Scalar::Float(_, b) => Scalar::Float(v, b),
            Scalar::ScalableFloat(_, b, e) => Scalar::ScalableFloat(v, b, e),
            _ => Scalar::DynamicFloat(v),
        }
    }
}

// ─── Evaluation ──────────────────────────────────────────────────────────────

/// The unpacked elements of a variable.
struct UnpackedVar {
    id: usize,
    elements: Vec<Scalar>,
}

/// That a variable's elements can be unpacked and evaluated.
pub open spec fn var_ready(v: ExprView, size: nat) -> bool {
    match v {
        ExprView::Variable { dtype, size: n, steal_sign, .. } => {
            &&& codable(dtype, steal_sign)
            &&& dtype_width(dtype) <= MAX_EVAL_BITS
            &&& addressable(n as nat, dtype_width(dtype) as nat)
            &&& n >= size
        },
        _ => false,
    }
}

/// That an expression can be evaluated for `size` elements.
pub open spec fn eval_ready(e: ExprView, size: nat) -> bool
    decreases e,
{
    match e {
        ExprView::Variable { .. } => var_ready(e, size),
        ExprView::Constant { val } => sane(val),
        ExprView::Add { left, right } => eval_ready(*left, size) && eval_ready(*right, size),
        ExprView::Sub { left, right } => eval_ready(*left, size) && eval_ready(*right, size),
        ExprView::Mul { left, right } => eval_ready(*left, size) && eval_ready(*right, size),
        ExprView::Div { left, right } => eval_ready(*left, size) && eval_ready(*right, size),
        ExprView::DequantizeMatmul { .. } => false,
    }
}

/// Elements of a ready variable can be evaluated.
proof fn lemma_element_sane(v: ExprView, size: nat, i: nat)
    requires
        var_ready(v, size),
    ensures
        sane(var_element(v, i)),
{
}

/// That a table holds the elements of a list of variables.
spec fn table_of(table: Seq<UnpackedVar>, vars: Seq<ExprView>, size: nat) -> bool {
    &&& table.len() == vars.len()
    &&& forall|k: int|
        0 <= k < table.len() ==> {
            &&& (#[trigger] table[k]).id == var_id(vars[k])
            &&& table[k].elements@.len() >= size
            &&& forall|i: int|
                0 <= i < size ==> (#[trigger] table[k].elements@[i])@ == var_element(
                    vars[k],
                    i as nat,
                ) && sane(table[k].elements@[i]@)
        }
}

/// The place of the variable with the given id in a table, if it is there.
fn find_var(
    table: &Vec<UnpackedVar>,
    id: usize,
    Ghost(vars): Ghost<Seq<ExprView>>,
    Ghost(size): Ghost<nat>,
) -> (r: Option<usize>)
    requires
        table_of(table@, vars, size),
    ensures
        match r {
            Some(k) => k < table@.len() && var_ids(vars)[k as int] == id && var_ids(
                vars,
            ).contains(id),
            None => !var_ids(vars).contains(id),
        },
{
    let mut i: usize = 0;
    while i < table.len()
        invariant
            i <= table@.len(),
            table_of(table@, vars, size),
            forall|j: int| 0 <= j < i ==> (#[trigger] table@[j]).id != id,
        decreases table@.len() - i,
    {
        if table[i].id == id {
            proof {
                assert(var_ids(vars)[i as int] == id);
            }
            return Some(i);
        }
        i = i + 1;
    }
    proof {
        if var_ids(vars).contains(id) {
            let k = choose|k: int| 0 <= k < var_ids(vars).len() && var_ids(vars)[k] == id;
            assert(table@[k].id == id);
        }
    }
    None
}

fn collect_vars(
    node: &Expr,
    engine: &HardwareEngine,
    cache: &mut Vec<UnpackedVar>,
    size: usize,
    Ghost(vars): Ghost<Seq<ExprView>>,
)
    requires
        eval_ready(node@, size as nat),
        distinct_inputs(vars),
        table_of(old(cache)@, vars, size as nat),
    ensures
        table_of(final(cache)@, distinct_vars(node@, vars), size as nat),
        distinct_inputs(distinct_vars(node@, vars)),
    decreases *node,
{
    proof {
        crate::fuser::kernel::lemma_distinct_vars(node@, vars);
    }
    match node {
        Expr::Variable { id, dtype, size: count, packed_data, scale, steal_sign, .. } => {
            if find_var(cache, *id, Ghost(vars), Ghost(size as nat)).is_some() {
                return ;
            }
            let elements: Vec<Scalar> = unpack_scalars(
                engine,
                packed_data.as_slice(),
                *count,
                *dtype,
                *scale,
                *steal_sign,
            );
            let ghost before = cache@;
            proof {
                assert forall|i: int| 0 <= i < size implies (#[trigger] elements@[i])@
                    == var_element(node@, i as nat) && sane(elements@[i]@) by {
                    lemma_element_sane(node@, size as nat, i as nat);
                }
            }
            cache.push(UnpackedVar { id: *id, elements });
            proof {
                let now = vars.push(node@);
                assert forall|k: int| 0 <= k < cache@.len() implies ({
                    &&& (#[trigger] cache@[k]).id == var_id(now[k])
                    &&& cache@[k].elements@.len() >= size
                    &&& forall|i: int|
                        0 <= i < size ==> (#[trigger] cache@[k].elements@[i])@ == var_element(
                            now[k],
                            i as nat,
                        ) && sane(cache@[k].elements@[i]@)
                }) by {
                    if k < before.len() {
                        assert(cache@[k] == before[k]);
                    }
                }
            }
        },
        Expr::Constant { .. } => {},
        Expr::Add { left, right } => {
            collect_vars(left, engine, cache, size, Ghost(vars));
            collect_vars(right, engine, cache, size, Ghost(distinct_vars(left@, vars)));
        },
        Expr::Sub { left, right } => {
            collect_vars(left, engine, cache, size, Ghost(vars));
            collect_vars(right, engine, cache, size, Ghost(distinct_vars(left@, vars)));
        },
        Expr::Mul { left, right } => {
            collect_vars(left, engine, cache, size, Ghost(vars));
            collect_vars(right, engine, cache, size, Ghost(distinct_vars(left@, vars)));
        },
        Expr::Div { left, right } => {
            collect_vars(left, engine, cache, size, Ghost(vars));
            collect_vars(right, engine, cache, size, Ghost(distinct_vars(left@, vars)));
        },
        Expr::DequantizeMatmul { .. } => {},
    }
}

fn eval_node<F: Fn(FloatOp, u64, u64) -> u64>(
    node: &Expr,
    idx: usize,
    table: &Vec<UnpackedVar>,
    f: &F,
    Ghost(vars): Ghost<Seq<ExprView>>,
    Ghost(size): Ghost<nat>,
) -> (r: Scalar)
    requires
        is_float_unit(*f),
        eval_ready(node@, size),
        covered(node@, var_ids(vars)),
        distinct_inputs(vars),
        table_of(table@, vars, size),
        idx < size,
    ensures
        r@ == eval_scalar(*f, node@, vars, idx as nat),
        sane(r@),
    decreases *node,
{
    match node {
        Expr::Variable { id, .. } => {
            let ghost ids = var_ids(vars);
            match find_var(table, *id, Ghost(vars), Ghost(size)) {
                Some(k) => {
                    proof {
                        assert(ids[k as int] == *id);
                        let p = ids.index_of(*id);
                        assert(0 <= p < ids.len() && ids[p] == *id);
                        assert(k == p);
                        assert(table@[k as int].elements@[idx as int]@ == var_element(
                            vars[k as int],
                            idx as nat,
                        ));
                    }
                    table[k].elements[idx].clone()
                },
                None => Scalar::DynamicFloat(0),
            }
        },
        Expr::Constant { val } => val.clone(),
        Expr::Add { left, right } => {
            let l: Scalar = eval_node(left, idx, table, f, Ghost(vars), Ghost(size));
            let r: Scalar = eval_node(right, idx, table, f, Ghost(vars), Ghost(size));
            apply_op(l, r, ArithOp::Add, f)
        },
        Expr::Sub { left, right } => {
            let l: Scalar = eval_node(left, idx, table, f, Ghost(vars), Ghost(size));
            let r: Scalar = eval_node(right, idx, table, f, Ghost(vars), Ghost(size));
            apply_op(l, r, ArithOp::Sub, f)
        },
        Expr::Mul { left, right } => {
            let l: Scalar = eval_node(left, idx, table, f, Ghost(vars), Ghost(size));
            let r: Scalar = eval_node(right, idx, table, f, Ghost(vars), Ghost(size));
            apply_op(l, r, ArithOp::Mul, f)
        },
        Expr::Div { left, right } => {
            let l: Scalar = eval_node(left, idx, table, f, Ghost(vars), Ghost(size));
            let r: Scalar = eval_node(right, idx, table, f, Ghost(vars), Ghost(size));
            apply_op(l, r, ArithOp::Div, f)
        },
        Expr::DequantizeMatmul { .. } => Scalar::DynamicFloat(0),
    }
}

// ─── The result ──────────────────────────────────────────────────────────────

/// The type of a list of results, and whether their sign bit is given to the
/// mantissa: scalable types follow the values, and a sign is stolen from floats
/// without negative ones alone.
pub open spec fn output_type(d: DataType, steal_sign: bool, vals: Seq<u64>) -> (DataType, bool) {
    let s = steal_sign && all_non_negative(vals);
    match d {
        DataType::ScalableInt(_) => (DataType::ScalableInt(widest_int(vals) as u32), steal_sign),
        DataType::ScalableFloat(_, _) => (scalable_float_type(vals, s), s),
        DataType::Float(_) => (d, s),
        DataType::DynamicFloat => (d, s),
        _ => (d, steal_sign),
    }
}

/// The values of an expression for its elements.
pub open spec fn eval_values<F: Fn(FloatOp, u64, u64) -> u64>(f: F, e: ExprView) -> Seq<u64> {
    Seq::new(
        expr_size(e),
        |i: int| scalar_double(f, eval_scalar(f, e, distinct_vars(e, Seq::empty()), i as nat)),
    )
}

/// The array that the limb interpreter yields for an expression.
pub open spec fn interpreted<F: Fn(FloatOp, u64, u64) -> u64>(f: F, e: ExprView) -> ExprView {
    let vals = eval_values(f, e);
    let (d, s) = output_type(expr_type(e), expr_steal(e), vals);
    flat_view(
        999,
        "fused_limb_result"@,
        d,
        expr_size(e) as usize,
        packed_values(f, vals, d, expr_scale(e), s, true),
        expr_scale(e),
        s,
    )
}

/// Chooses the type of a list of results.
fn choose_output_type(d: DataType, steal_sign: bool, vals: &[F64Bits]) -> (r: (DataType, bool))
    requires
        codable(d, false),
        steal_sign ==> codable(d, true),
    ensures
        r == output_type(d, steal_sign, vals@),
        codable(r.0, r.1),
        dtype_width(r.0) <= 64 || dtype_width(r.0) == dtype_width(d),
{
    match d {
        DataType::ScalableInt(_) => (DataType::ScalableInt(widest_int_bits(vals)), steal_sign),
        DataType::ScalableFloat(_, _) => {
            let s: bool = steal_sign && are_non_negative(vals);
            (choose_scalable_float(vals, s), s)
        },
        DataType::Float(_) => (d, steal_sign && are_non_negative(vals)),
        DataType::DynamicFloat => (d, steal_sign && are_non_negative(vals)),
        _ => (d, steal_sign),
    }
}

/// Evaluates an expression element by element and packs the results.
pub fn execute_expr_limb_interpreter<F: Fn(FloatOp, u64, u64) -> u64>(
    engine: &HardwareEngine,
    expr: &Expr,
    f: &F,
) -> (r: Expr)
    requires
        is_float_unit(*f),
        expr_countable(expr@),
        eval_ready(expr@, expr_size(expr@)),
        codable(expr_type(expr@), false),
        addressable(expr_size(expr@), dtype_width(expr_type(expr@)) as nat),
        addressable(expr_size(expr@), 64),
    ensures
        r is Variable,
        r@ == interpreted(*f, expr@),
{
    let size: usize = expr.size();
    let mut table: Vec<UnpackedVar> = Vec::new();
    let ghost none = Seq::<ExprView>::empty();
    proof {
        assert(var_ids(none) =~= Seq::<usize>::empty());
        crate::fuser::kernel::lemma_distinct_vars(expr@, none);
    }
    collect_vars(expr, engine, &mut table, size, Ghost(none));
    let ghost vars = distinct_vars(expr@, none);
    let mut vals: Vec<u64> = Vec::with_capacity(size);
    let mut idx: usize = 0;
    while idx < size
        invariant
            is_float_unit(*f),
            idx <= size,
            size as nat == expr_size(expr@),
            eval_ready(expr@, size as nat),
            vars == distinct_vars(expr@, Seq::empty()),
            covered(expr@, var_ids(vars)),
            distinct_inputs(vars),
            table_of(table@, vars, size as nat),
            vals@.len() == idx,
            forall|j: int| 0 <= j < idx ==> #[trigger] vals@[j] == eval_values(*f, expr@)[j],
        decreases size - idx,
    {
        let s: Scalar = eval_node(expr, idx, &table, f, Ghost(vars), Ghost(size as nat));
        let v: u64 = s.to_double(f);
        vals.push(v);
        idx = idx + 1;
    }
    assert(vals@ =~= eval_values(*f, expr@));
    let scale: Option<u32> = expr.get_scale();
    let (d, s) = choose_output_type(expr.data_type(), expr.steal_sign(), vals.as_slice());
    proof {
        lemma_narrow_addressable(size as nat, dtype_width(d) as nat);
    }
    let data: Vec<u8> = pack_values(engine, vals.as_slice(), d, scale, s, true, f);
    flat_var(999, "fused_limb_result", d, size, data, scale, s)
}

/// Elements of up to 64 bits take no more room than words.
pub proof fn lemma_narrow_addressable(n: nat, w: nat)
    requires
        addressable(n, 64),
        1 <= w,
    ensures
        w <= 64 ==> addressable(n, w),
{
    if w <= 64 {
        assert(limb_count(w) == 1 && limb_count(64) == 1);
        vstd::arithmetic::mul::lemma_mul_basics(n as int);
        vstd::arithmetic::mul::lemma_mul_inequality(w as int, 64, n as int);
        vstd::arithmetic::mul::lemma_mul_is_commutative(n as int, w as int);
    }
}

} // verus!
