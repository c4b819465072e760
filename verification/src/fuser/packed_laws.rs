//! What execution over packed inputs yields: the width in which integers are
//! computed does not show in it, and where kernels are run as planned it is what
//! the expression yields.

use crate::array::laws::{buffer_bytes, is_run, is_wrapped};
use crate::bits;
use crate::bits::{
    bits_nat, byte_bit, lemma_bits_nat, lemma_nat_bits_eq, limb_count, limbs_nat, nat_bit,
    signed_value,
};
use crate::elements::{
    all_non_negative, decoded_values, element_scalar, is_float_type, packed_values,
    scalable_float_type, widest_float, widest_int,
};
use crate::fuser::exec::{
    compute_width, cpu_execution, is_float_mode, is_packed_plan, packed_execution, ran_packed,
    repacked_result, sample_choice, sample_size, sampled_execution, signless_bytes,
};
use crate::fuser::helpers::{limb_len, limb_start, loaded};
use crate::fuser::kernel::{
    distinct_vars, elementwise, expr_value, fused, var_ids, widths_with, FusedOp,
};
use crate::fuser::laws::{
    divisible, element_double, element_int, holds_stores, input_bytes, int_value, is_element,
    is_int_element, law_int_kernel_computes_expression, law_int_result_wraps,
    law_kernel_result_is_packed_value, law_packed_kernel_computes_expression, law_words_wrap_once,
    narrow_ints, short_vars, undivided, word_value,
};
use crate::fuser::plan::{output_stores, packed_value, stored_values, KernelPlan, OpVal};
use crate::fuser::wide_laws::{
    element_number, is_number_element, law_wide_kernel_computes_expression, law_wide_result_wraps,
    law_wide_wraps_once, lemma_pow2_128, lemma_wide_value_bound, short_ints, wide_int_value,
    wide_value,
};
use crate::fuser::words::lemma_signed_fits;
use crate::hardware::{packed_len, trimmed_word, unpacked_word};
use crate::ir::{
    expr_scale, expr_size, expr_steal, expr_type, flat_view, Expr, ExprView, PackedBuffer,
};
use crate::soft_float::{
    exact_integer, f64_is_non_negative, f64_of_int, f64_rounded, lemma_top_bit, top_bit, FloatOp,
};
use crate::types::float_codec::{first_fit, float_exponent};
use crate::types::int_codec::scalable_int_bits;
use crate::types::laws::{
    coded_in_place, coded_value, float_exact, int_fits, law_array_holds_codes,
    law_coded_without_sign, law_exact_float_is_held, law_int_array_round_trip, law_packed_element,
    law_twos_complement, type_exponent_width,
};
use crate::types::{codable, dtype_width, DataType, ScalarView};
use vstd::arithmetic::div_mod::*;
use vstd::arithmetic::mul::*;
use vstd::arithmetic::power2::*;
use vstd::prelude::*;

verus! {

// ─── The width in which integers are computed ────────────────────────────────

/// All widths of up to one word compute alike.
proof fn lemma_width_is_free<F: Fn(FloatOp, u64, u64) -> u64>(
    f: F,
    op: FusedOp,
    vars: Seq<ExprView>,
    widths: Map<usize, u32>,
    float_mode: bool,
    a: u32,
    b: u32,
    bufs: Seq<Seq<u8>>,
    i: nat,
)
    requires
        (a <= 64) == (b <= 64),
    ensures
        packed_value(f, op, vars, widths, float_mode, a, bufs, i) == packed_value(
            f,
            op,
            vars,
            widths,
            float_mode,
            b,
            bufs,
            i,
        ),
    decreases op,
{
    match op {
        FusedOp::Add(l, r) => {
            lemma_width_is_free(f, *l, vars, widths, float_mode, a, b, bufs, i);
            lemma_width_is_free(f, *r, vars, widths, float_mode, a, b, bufs, i);
        },
        FusedOp::Sub(l, r) => {
            lemma_width_is_free(f, *l, vars, widths, float_mode, a, b, bufs, i);
            lemma_width_is_free(f, *r, vars, widths, float_mode, a, b, bufs, i);
        },
        FusedOp::Mul(l, r) => {
            lemma_width_is_free(f, *l, vars, widths, float_mode, a, b, bufs, i);
            lemma_width_is_free(f, *r, vars, widths, float_mode, a, b, bufs, i);
        },
        FusedOp::Div(l, r) => {
            lemma_width_is_free(f, *l, vars, widths, float_mode, a, b, bufs, i);
            lemma_width_is_free(f, *r, vars, widths, float_mode, a, b, bufs, i);
        },
        _ => {},
    }
}

/// A plan for one width of up to one word is a plan for every such width.
proof fn lemma_plan_width_is_free<F: Fn(FloatOp, u64, u64) -> u64>(
    f: F,
    plan: KernelPlan,
    e: ExprView,
    d: DataType,
    a: u32,
    b: u32,
)
    requires
        (a <= 64) == (b <= 64),
        is_packed_plan(f, plan, e, d, a),
    ensures
        is_packed_plan(f, plan, e, d, b),
{
    let vars = distinct_vars(e, Seq::empty());
    let op = fused(f, e, var_ids(vars));
    let widths = widths_with(e, Map::empty());
    let mode = is_float_mode(d);
    assert forall|bufs: Seq<Seq<u8>>, i: nat| #[trigger]
        stored_values(f, plan.insts@, plan.stores@, bufs, i) == output_stores(
            f,
            packed_value(f, op, vars, widths, mode, b, bufs, i),
            d,
            expr_scale(e),
        ) by {
        lemma_width_is_free(f, op, vars, widths, mode, a, b, bufs, i);
    }
}

/// What execution over packed inputs yields does not depend on the width in which
/// integers are computed, as long as it is one word or two alike.
pub proof fn law_compute_width_is_free<
    F: Fn(FloatOp, u64, u64) -> u64,
    R: Fn(&KernelPlan, &Vec<PackedBuffer>, u32, usize) -> Option<Vec<u8>>,
>(f: F, run: R, e: ExprView, a: u32, b: u32, r: Option<Expr>)
    requires
        (a <= 64) == (b <= 64),
        packed_execution(f, run, e, a, r),
    ensures
        packed_execution(f, run, e, b, r),
{
    let n = expr_size(e) as usize;
    let (plan, bufs, out) = choose|
        plan: KernelPlan,
        bufs: Vec<PackedBuffer>,
        out: Option<Vec<u8>>,
    |
        {
            &&& #[trigger] ran_packed(f, run, e, a, n, plan, bufs, out)
            &&& match (r, out) {
                (Some(x), Some(bytes)) => x is Variable && x@ == repacked_result(f, e, bytes@),
                (None, None) => true,
                _ => false,
            }
        };
    lemma_plan_width_is_free(f, plan, e, expr_type(e), a, b);
    assert(ran_packed(f, run, e, b, n, plan, bufs, out));
}

// ─── Execution after a sample ────────────────────────────────────────────────

/// That bytes are what a plan stores for its first `n` elements of width `w`, and
/// zero behind them.
pub open spec fn is_packed_run<F: Fn(FloatOp, u64, u64) -> u64>(
    f: F,
    plan: KernelPlan,
    bufs: Seq<PackedBuffer>,
    w: nat,
    n: nat,
    out: Seq<u8>,
) -> bool {
    &&& out.len() == packed_len(n, w)
    &&& is_run(f, plan, bufs, n, out)
    &&& forall|j: nat| j >= n * w ==> !#[trigger] byte_bit(out, j)
}

/// That a function runs every kernel over packed inputs as it is planned.
pub open spec fn runs_packed_plans<
    F: Fn(FloatOp, u64, u64) -> u64,
    R: Fn(&KernelPlan, &Vec<PackedBuffer>, u32, usize) -> Option<Vec<u8>>,
>(f: F, run: R) -> bool {
    forall|p: &KernelPlan, b: &Vec<PackedBuffer>, w: u32, n: usize, out: Option<Vec<u8>>| #[trigger]
        run.ensures((p, b, w, n), out) ==> out is Some && is_packed_run(
            f,
            *p,
            b@,
            w as nat,
            n as nat,
            out->0@,
        )
}

/// Where every kernel is run and the result has at most 64 bits, execution after a
/// sample yields what execution over packed inputs yields: the width that the
/// sample chose does not show.
pub proof fn law_sampled_execution_is_packed<
    F: Fn(FloatOp, u64, u64) -> u64,
    R: Fn(&KernelPlan, &Vec<PackedBuffer>, u32, usize) -> Option<Vec<u8>>,
    C: Fn(&KernelPlan, &Vec<Vec<u64>>, usize) -> Vec<u64>,
>(f: F, run: R, run_cpu: C, e: ExprView, r: Option<Expr>)
    requires
        sampled_execution(f, run, run_cpu, e, r),
        runs_packed_plans(f, run),
        dtype_width(expr_type(e)) <= 64,
    ensures
        packed_execution(f, run, e, dtype_width(expr_type(e)), r),
{
    let d = expr_type(e);
    let n = sample_size(expr_size(e));
    let (plan, bufs, sample) = choose|
        plan: KernelPlan,
        bufs: Vec<PackedBuffer>,
        sample: Option<Vec<u8>>,
    |
        {
            &&& #[trigger] ran_packed(f, run, e, dtype_width(d), n as usize, plan, bufs, sample)
            &&& match sample {
                Some(bytes) => packed_execution(
                    f,
                    run,
                    e,
                    compute_width(
                        e,
                        sample_choice(
                            d,
                            expr_steal(e),
                            decoded_values(f, bytes@, n, d, expr_scale(e), false),
                        ),
                    ),
                    r,
                ),
                None => r is Some && cpu_execution(f, run_cpu, e, r->0),
            }
        };
    assert(sample is Some);
    let vals = decoded_values(f, sample->0@, n, d, expr_scale(e), false);
    let b = compute_width(e, sample_choice(d, expr_steal(e), vals));
    law_compute_width_is_free(f, run, e, b, dtype_width(d), r);
}

/// Bits of a list of bytes determine it.
proof fn lemma_bytes_eq(a: Seq<u8>, b: Seq<u8>)
    requires
        a.len() == b.len(),
        forall|j: nat| #[trigger] byte_bit(a, j) == byte_bit(b, j),
    ensures
        a == b,
{
    assert forall|k: int| 0 <= k < a.len() implies a[k] == b[k] by {
        lemma2_to64();
        assert forall|t: nat| t < 8 implies #[trigger] nat_bit(a[k] as nat, t) == nat_bit(
            b[k] as nat,
            t,
        ) by {
            let j = (8 * k + t) as nat;
            assert(byte_bit(a, j) == byte_bit(b, j));
            assert(j / 8 == k && j % 8 == t);
        }
        lemma_nat_bits_eq(a[k] as nat, b[k] as nat, 8);
    }
    assert(a =~= b);
}

/// Elements of at most 64 bits, and zeros behind them, determine the bytes.
proof fn lemma_elements_determine(a: Seq<u8>, b: Seq<u8>, n: nat, w: u32)
    requires
        1 <= w <= 64,
        a.len() == b.len(),
        forall|i: nat| i < n ==> #[trigger] loaded(a, i, w, 0) == loaded(b, i, w, 0),
        forall|j: nat| j >= n * w as nat ==> !#[trigger] byte_bit(a, j),
        forall|j: nat| j >= n * w as nat ==> !#[trigger] byte_bit(b, j),
    ensures
        a == b,
{
    let v = w as nat;
    assert forall|j: nat| #[trigger] byte_bit(a, j) == byte_bit(b, j) by {
        if j < n * v {
            let i = j / v;
            let t = j % v;
            lemma_fundamental_div_mod(j as int, v as int);
            lemma_mod_bound(j as int, v as int);
            lemma_mul_is_commutative(i as int, v as int);
            lemma_multiply_divide_lt(j as int, v as int, n as int);
            let p = |s: nat| byte_bit(a, limb_start(i, w, 0) + s);
            let q = |s: nat| byte_bit(b, limb_start(i, w, 0) + s);
            assert(limb_start(i, w, 0) == i * v && limb_len(w, 0) == v);
            lemma_bits_nat(p, v);
            lemma_bits_nat(q, v);
            bits::lemma_pow2_64();
            bits::lemma_pow2_le(v, 64);
            assert(loaded(a, i, w, 0) == loaded(b, i, w, 0));
            assert(bits_nat(p, v) == bits_nat(q, v));
            assert(nat_bit(bits_nat(p, v), t) == p(t));
            assert(nat_bit(bits_nat(q, v), t) == q(t));
        }
    }
    lemma_bytes_eq(a, b);
}

/// The first word of an element of at most 64 bits that a kernel stores.
proof fn lemma_first_store<F: Fn(FloatOp, u64, u64) -> u64>(
    f: F,
    v: OpVal,
    d: DataType,
    scale: Option<u32>,
)
    requires
        1 <= dtype_width(d) <= 64,
    ensures
        output_stores(f, v, d, scale).len() == 1,
        output_stores(f, v, d, scale)[0].width == dtype_width(d),
        output_stores(f, v, d, scale)[0].limb == 0,
{
    assert(limb_count(dtype_width(d) as nat) == 1);
}

/// Runs of the kernel of an expression with a result of at most 64 bits give the
/// same bytes.
proof fn lemma_runs_agree<
    F: Fn(FloatOp, u64, u64) -> u64,
    R: Fn(&KernelPlan, &Vec<PackedBuffer>, u32, usize) -> Option<Vec<u8>>,
>(
    f: F,
    run: R,
    e: ExprView,
    n: usize,
    p: KernelPlan,
    x: Vec<PackedBuffer>,
    a: Option<Vec<u8>>,
    q: KernelPlan,
    y: Vec<PackedBuffer>,
    b: Option<Vec<u8>>,
)
    requires
        runs_packed_plans(f, run),
        dtype_width(expr_type(e)) <= 64,
        ran_packed(f, run, e, dtype_width(expr_type(e)), n, p, x, a),
        ran_packed(f, run, e, dtype_width(expr_type(e)), n, q, y, b),
    ensures
        a is Some,
        b is Some,
        a->0@ == b->0@,
{
    let d = expr_type(e);
    let w = dtype_width(d);
    let (s, t) = (a->0@, b->0@);
    assert(is_packed_run(f, p, x@, w as nat, n as nat, s));
    assert(is_packed_run(f, q, y@, w as nat, n as nat, t));
    assert(buffer_bytes(x@) =~= input_bytes(e));
    assert(buffer_bytes(y@) =~= input_bytes(e));
    if w == 0 {
        lemma_mul_basics(n as int);
        assert(s =~= t);
    } else {
        let vars = distinct_vars(e, Seq::empty());
        assert forall|i: nat| i < n as nat implies #[trigger] loaded(s, i, w, 0) == loaded(
            t,
            i,
            w,
            0,
        ) by {
            let v = packed_value(
                f,
                fused(f, e, var_ids(vars)),
                vars,
                widths_with(e, Map::empty()),
                is_float_mode(d),
                w,
                input_bytes(e),
                i,
            );
            let stores = output_stores(f, v, d, expr_scale(e));
            lemma_first_store(f, v, d, expr_scale(e));
            assert(holds_stores(
                s,
                i,
                stored_values(f, p.insts@, p.stores@, buffer_bytes(x@), i),
            ));
            assert(holds_stores(
                t,
                i,
                stored_values(f, q.insts@, q.stores@, buffer_bytes(y@), i),
            ));
            assert(stored_values(f, p.insts@, p.stores@, input_bytes(e), i) == stores);
            assert(stored_values(f, q.insts@, q.stores@, input_bytes(e), i) == stores);
            let first = stores[0];
            assert(loaded(s, i, first.width, first.limb) == trimmed_word(
                first.val,
                first.width as nat,
                first.limb as nat,
            ));
        }
        lemma_elements_determine(s, t, n as nat, w);
    }
}

/// Where kernels are run as planned and the result has at most 64 bits, execution
/// after a sample and execution over packed inputs agree: both have a result, with
/// the same type, size, bytes, scale and sign.
pub proof fn law_sampled_and_packed_agree<
    F: Fn(FloatOp, u64, u64) -> u64,
    R: Fn(&KernelPlan, &Vec<PackedBuffer>, u32, usize) -> Option<Vec<u8>>,
    C: Fn(&KernelPlan, &Vec<Vec<u64>>, usize) -> Vec<u64>,
>(f: F, run: R, run_cpu: C, e: ExprView, sampled: Option<Expr>, whole: Option<Expr>)
    requires
        sampled_execution(f, run, run_cpu, e, sampled),
        packed_execution(f, run, e, dtype_width(expr_type(e)), whole),
        runs_packed_plans(f, run),
        dtype_width(expr_type(e)) <= 64,
    ensures
        sampled is Some,
        whole is Some,
        sampled->0@ == whole->0@,
{
    let w = dtype_width(expr_type(e));
    let n = expr_size(e) as usize;
    law_sampled_execution_is_packed(f, run, run_cpu, e, sampled);
    let (p, x, a) = choose|plan: KernelPlan, bufs: Vec<PackedBuffer>, out: Option<Vec<u8>>|
        {
            &&& #[trigger] ran_packed(f, run, e, w, n, plan, bufs, out)
            &&& match (sampled, out) {
                (Some(x), Some(bytes)) => x is Variable && x@ == repacked_result(f, e, bytes@),
                (None, None) => true,
                _ => false,
            }
        };
    let (q, y, b) = choose|plan: KernelPlan, bufs: Vec<PackedBuffer>, out: Option<Vec<u8>>|
        {
            &&& #[trigger] ran_packed(f, run, e, w, n, plan, bufs, out)
            &&& match (whole, out) {
                (Some(x), Some(bytes)) => x is Variable && x@ == repacked_result(f, e, bytes@),
                (None, None) => true,
                _ => false,
            }
        };
    lemma_runs_agree(f, run, e, n, p, x, a, q, y, b);
}

// ─── Execution as planned ────────────────────────────────────────────────────

/// The bytes that a run of the kernel of an expression gave, and that the result is
/// made of.
proof fn packed_output<
    F: Fn(FloatOp, u64, u64) -> u64,
    R: Fn(&KernelPlan, &Vec<PackedBuffer>, u32, usize) -> Option<Vec<u8>>,
>(f: F, run: R, e: ExprView, r: Option<Expr>) -> (res: (KernelPlan, Seq<u8>))
    requires
        packed_execution(f, run, e, dtype_width(expr_type(e)), r),
        runs_packed_plans(f, run),
        expr_size(e) <= usize::MAX,
    ensures
        r is Some,
        r->0@ == repacked_result(f, e, res.1),
        is_packed_plan(f, res.0, e, expr_type(e), dtype_width(expr_type(e))),
        distinct_vars(e, Seq::empty()).len() <= usize::MAX,
        forall|i: nat|
            i < expr_size(e) ==> #[trigger] holds_stores(
                res.1,
                i,
                stored_values(f, res.0.insts@, res.0.stores@, input_bytes(e), i),
            ),
{
    let w = dtype_width(expr_type(e));
    let n = expr_size(e) as usize;
    let (plan, bufs, out) = choose|
        plan: KernelPlan,
        bufs: Vec<PackedBuffer>,
        out: Option<Vec<u8>>,
    |
        {
            &&& #[trigger] ran_packed(f, run, e, w, n, plan, bufs, out)
            &&& match (r, out) {
                (Some(x), Some(bytes)) => x is Variable && x@ == repacked_result(f, e, bytes@),
                (None, None) => true,
                _ => false,
            }
        };
    assert(is_packed_run(f, plan, bufs@, w as nat, n as nat, out->0@));
    assert(buffer_bytes(bufs@) =~= input_bytes(e));
    assert(distinct_vars(e, Seq::empty()).len() == bufs.len());
    assert forall|i: nat| i < expr_size(e) implies #[trigger] holds_stores(
        out->0@,
        i,
        stored_values(f, plan.insts@, plan.stores@, input_bytes(e), i),
    ) by {
        assert(holds_stores(
            out->0@,
            i,
            stored_values(f, plan.insts@, plan.stores@, buffer_bytes(bufs@), i),
        ));
    }
    (plan, out->0@)
}

/// That element `i` of a result is what a type makes of a value. The value is coded
/// with a sign bit; where the result has none, no element is negative. Where the
/// result has another type, or a float type without a sign bit, the element is coded
/// once more, which changes it only in another type and, without a sign bit, where
/// the value is a subnormal double that the type codes out of place. A float type
/// that holds the value exactly makes the value itself of it.
pub open spec fn holds_coded<F: Fn(FloatOp, u64, u64) -> u64>(
    f: F,
    r: ExprView,
    i: nat,
    v: u64,
    d: DataType,
    scale: Option<u32>,
) -> bool {
    let x = coded_value(f, v, d, scale, false, true);
    let y = element_double(f, r, i);
    let n = expr_type(r);
    let s = expr_steal(r);
    let e = type_exponent_width(d) as nat;
    &&& s ==> f64_is_non_negative(x)
    &&& n != d || (s && is_float_type(d)) ==> y == coded_value(f, x, n, scale, s, false)
    &&& n == d && (!s || coded_in_place(v, e)) ==> y == x
    &&& n == d && is_float_type(d) && float_exact(v, dtype_width(d) as nat, e, false) ==> y == v
}

/// Where kernels are run as planned, an expression of a float or a fixed-point type
/// that was executed over packed inputs holds, for each element, what the
/// expression yields for the elements of its variables, as its type codes it. Only a
/// scalable type can change.
pub proof fn law_packed_execution_computes_expression<
    F: Fn(FloatOp, u64, u64) -> u64,
    R: Fn(&KernelPlan, &Vec<PackedBuffer>, u32, usize) -> Option<Vec<u8>>,
>(f: F, run: R, e: ExprView, r: Option<Expr>, i: nat, env: spec_fn(usize) -> u64)
    requires
        packed_execution(f, run, e, dtype_width(expr_type(e)), r),
        runs_packed_plans(f, run),
        elementwise(e),
        short_vars(e),
        is_float_mode(expr_type(e)),
        codable(expr_type(e), false),
        i < expr_size(e) <= usize::MAX,
        is_element(f, e, i, env),
    ensures
        r is Some,
        holds_coded(f, r->0@, i, expr_value(f, e, env), expr_type(e), expr_scale(e)),
        !(expr_type(e) is ScalableFloat) ==> expr_type(r->0@) == expr_type(e),
{
    let d = expr_type(e);
    let w = dtype_width(d);
    let scale = expr_scale(e);
    let v = expr_value(f, e, env);
    let (plan, out) = packed_output(f, run, e, r);
    law_packed_kernel_computes_expression(f, plan, e, d, w, i, env);
    assert(holds_stores(out, i, stored_values(f, plan.insts@, plan.stores@, input_bytes(e), i)));
    lemma_settled_element(f, out, expr_size(e), d, scale, expr_steal(e), v, i);
    let vals = decoded_values(f, out, expr_size(e), d, scale, false);
    let s = expr_steal(e) && all_non_negative(vals);
    if d is ScalableFloat {
        let n = scalable_float_type(vals, s);
        lemma_scalable_float_codable(vals, s);
        law_array_holds_codes(f, vals, n, scale, s, false, i);
    }
}

/// An element of a result whose sign bit was settled is what its type makes of the
/// value that the kernel stored.
pub proof fn lemma_settled_element<F: Fn(FloatOp, u64, u64) -> u64>(
    f: F,
    out: Seq<u8>,
    size: nat,
    d: DataType,
    scale: Option<u32>,
    steal: bool,
    v: u64,
    i: nat,
)
    requires
        codable(d, false),
        i < size <= usize::MAX,
        holds_stores(out, i, output_stores(f, OpVal::Float(v), d, scale)),
    ensures
        ({
            let vals = decoded_values(f, out, size, d, scale, false);
            let s = steal && all_non_negative(vals);
            let data = signless_bytes(f, out, vals, d, scale, s);
            &&& vals[i as int] == coded_value(f, v, d, scale, false, true)
            &&& s ==> f64_is_non_negative(vals[i as int])
            &&& holds_coded(
                f,
                flat_view(0, Seq::empty(), d, size as usize, data, scale, s),
                i,
                v,
                d,
                scale,
            )
        }),
{
    let vals = decoded_values(f, out, size, d, scale, false);
    let s = steal && all_non_negative(vals);
    let stored = Seq::new(i + 1, |k: int| v);
    law_kernel_result_is_packed_value(f, stored, d, scale, out, i);
    law_packed_element(f, stored, d, scale, false, true, i);
    let e = type_exponent_width(d) as nat;
    if is_float_type(d) {
        if float_exact(v, dtype_width(d) as nat, e, false) {
            law_exact_float_is_held(f, v, d, scale, false, true);
        }
        if s {
            law_array_holds_codes(f, vals, d, scale, true, false, i);
            if coded_in_place(v, e) {
                law_coded_without_sign(f, v, d, scale, true, false);
            }
        }
    }
}

/// A list of values has a scalable float type that can code them.
proof fn lemma_scalable_float_codable(vals: Seq<u64>, steal_sign: bool)
    ensures
        codable(scalable_float_type(vals, steal_sign), steal_sign),
{
    lemma_widest_float(vals, steal_sign);
}

proof fn lemma_widest_float(vals: Seq<u64>, steal_sign: bool)
    ensures
        8 <= widest_float(vals, steal_sign).0 <= 56,
        4 <= widest_float(vals, steal_sign).1 <= 15,
    decreases vals.len(),
{
    if vals.len() > 0 {
        lemma_widest_float(vals.drop_last(), steal_sign);
        lemma_first_fit_range(float_exponent(vals.last()), 2);
    }
}

proof fn lemma_first_fit_range(x: int, e: nat)
    requires
        e <= 15,
    ensures
        e <= first_fit(x, e) <= 15,
    decreases 15 - e,
{
    if e < 15 {
        lemma_first_fit_range(x, e + 1);
    }
}

/// Where kernels are run as planned, an expression over integers that was executed
/// over packed inputs in at most 64 bits holds, for each element, what the
/// expression yields in words for the elements of its variables, where no divisor
/// is zero, wrapped to the width of the expression's type; where it fits, it is
/// that number. Without divisions the same holds of the integer that the expression
/// yields. Of a scalable type it holds where the element is exact as a double.
pub proof fn law_packed_execution_computes_integers<
    F: Fn(FloatOp, u64, u64) -> u64,
    R: Fn(&KernelPlan, &Vec<PackedBuffer>, u32, usize) -> Option<Vec<u8>>,
>(f: F, run: R, e: ExprView, r: Option<Expr>, i: nat, env: spec_fn(usize) -> int)
    requires
        packed_execution(f, run, e, dtype_width(expr_type(e)), r),
        runs_packed_plans(f, run),
        elementwise(e),
        divisible(f, e, env),
        narrow_ints(e),
        !is_float_mode(expr_type(e)),
        1 <= dtype_width(expr_type(e)) <= 64,
        i < expr_size(e) <= usize::MAX,
        is_int_element(e, i, env),
        expr_type(e) is ScalableInt ==> exact_integer(
            wrapped_to(word_value(f, e, env), dtype_width(expr_type(e)) as nat),
        ),
    ensures
        r is Some,
        ({
            let w = dtype_width(expr_type(e)) as nat;
            let x = element_int(r->0@, i);
            &&& is_wrapped(x, word_value(f, e, env), w)
            &&& undivided(e) ==> is_wrapped(x, int_value(f, e, env), w)
        }),
{
    let d = expr_type(e);
    let w = dtype_width(d);
    let v = word_value(f, e, env);
    let (plan, out) = packed_output(f, run, e, r);
    law_int_kernel_computes_expression(f, plan, e, d, w, i, env);
    assert(holds_stores(out, i, stored_values(f, plan.insts@, plan.stores@, input_bytes(e), i)));
    law_int_result_wraps(v, w, out, i);
    if undivided(e) {
        law_words_wrap_once(f, e, env);
        law_int_result_wraps(int_value(f, e, env), w, out, i);
    }
    let x = signed_value(unpacked_word(out, w as nat, i) as nat, w as nat);
    if d is ScalableInt {
        lemma_repacked_integer(f, e, out, i, x);
    }
}

/// What is left of an integer in `w` bits.
pub open spec fn wrapped_to(v: int, w: nat) -> int {
    signed_value((v % pow2(w) as int) as nat, w)
}

/// Packing scalable integers anew keeps those that are exact as doubles.
proof fn lemma_repacked_integer<F: Fn(FloatOp, u64, u64) -> u64>(
    f: F,
    e: ExprView,
    out: Seq<u8>,
    i: nat,
    x: int,
)
    requires
        expr_type(e) is ScalableInt,
        1 <= dtype_width(expr_type(e)) <= 64,
        i < expr_size(e) <= usize::MAX,
        x == signed_value(
            unpacked_word(out, dtype_width(expr_type(e)) as nat, i) as nat,
            dtype_width(expr_type(e)) as nat,
        ),
        exact_integer(x),
    ensures
        element_int(repacked_result(f, e, out), i) == x,
{
    let d = expr_type(e);
    let w = dtype_width(d);
    let scale = expr_scale(e);
    let vals = decoded_values(f, out, expr_size(e), d, scale, false);
    let s = expr_steal(e) && all_non_negative(vals);
    let b = widest_int(vals) as u32;
    assert(limb_count(w as nat) == 1);
    assert(i * 1 + 0 == i);
    lemma_signed_fits(unpacked_word(out, w as nat, i) as nat, w as nat);
    assert(x as i64 == x);
    assert(element_scalar(out, i, d, scale, false) == ScalarView::ScalableInt(x as i64, w));
    assert(vals[i as int] == f64_of_int(x));
    lemma_widest_int(vals, i as int);
    lemma_bits_fit(x, b as nat);
    if b != w {
        let data = packed_values(f, vals, DataType::ScalableInt(b), scale, s, false);
        law_int_array_round_trip(f, vals, b, scale, s, false, i);
        assert(limb_count(b as nat) == 1);
        lemma_signed_fits(unpacked_word(data, b as nat, i) as nat, b as nat);
        assert(element_scalar(data, i, DataType::ScalableInt(b), scale, s)
            == ScalarView::ScalableInt(
            signed_value(unpacked_word(data, b as nat, i) as nat, b as nat) as i64,
            b,
        ));
    }
}

/// The width of the widest integer of a list is that of each at least.
proof fn lemma_widest_int(vals: Seq<u64>, i: int)
    ensures
        2 <= widest_int(vals) <= 64,
        0 <= i < vals.len() ==> scalable_int_bits(f64_rounded(vals[i])) <= widest_int(vals),
    decreases vals.len(),
{
    if vals.len() > 0 {
        lemma_widest_int(vals.drop_last(), i);
        if i < vals.len() - 1 {
            assert(0 <= i ==> vals.drop_last()[i] == vals[i]);
        }
    }
}

/// An integer of one word fits the width that it needs.
proof fn lemma_bits_fit(x: int, b: nat)
    requires
        -0x8000_0000_0000_0000 <= x <= 0x7fff_ffff_ffff_ffff,
        scalable_int_bits(x) <= b <= 64,
        b >= 2,
    ensures
        int_fits(x, b),
{
    let m: nat = if x < 0 {
        (-x) as nat
    } else {
        x as nat
    };
    bits::lemma_pow2_64();
    lemma_pow2_unfold(64);
    if m == 0 {
        lemma_pow2_pos((b - 1) as nat);
    } else if scalable_int_bits(x) < 64 {
        lemma_top_bit(m);
        bits::lemma_pow2_le(top_bit(m) + 1, (b - 1) as nat);
    }
}

/// Where kernels are run as planned, an expression over integers of 65 to 128 bits
/// that was executed over packed inputs holds, for each element, what the
/// expression yields in two words for the elements of its variables, wrapped to the
/// width of the result. Without divisions that is the integer that the expression
/// yields, wrapped to that width, and where it fits, it is that number.
pub proof fn law_packed_execution_computes_wide_integers<
    F: Fn(FloatOp, u64, u64) -> u64,
    R: Fn(&KernelPlan, &Vec<PackedBuffer>, u32, usize) -> Option<Vec<u8>>,
>(f: F, run: R, e: ExprView, r: Option<Expr>, i: nat, env: spec_fn(usize) -> int)
    requires
        packed_execution(f, run, e, dtype_width(expr_type(e)), r),
        runs_packed_plans(f, run),
        elementwise(e),
        short_ints(e),
        expr_type(e) is Int,
        64 < dtype_width(expr_type(e)) <= 128,
        i < expr_size(e) <= usize::MAX,
        is_number_element(e, i, env),
    ensures
        r is Some,
        ({
            let w = dtype_width(expr_type(e)) as nat;
            let x = element_number(r->0@, i);
            &&& x == signed_value(wide_value(f, e, env) % pow2(w), w)
            &&& undivided(e) ==> is_wrapped(x, wide_int_value(f, e, env), w)
        }),
{
    let d = expr_type(e);
    let w = dtype_width(d) as nat;
    let n = wide_value(f, e, env);
    let (plan, out) = packed_output(f, run, e, r);
    law_wide_kernel_computes_expression(f, plan, e, d, dtype_width(d), i, env);
    assert(holds_stores(out, i, stored_values(f, plan.insts@, plan.stores@, input_bytes(e), i)));
    lemma_wide_value_bound(f, e, env);
    law_wide_result_wraps(n, dtype_width(d), out, i);
    lemma_pow2_pos(w);
    lemma_mod_twice(n as int, pow2(w) as int);
    if undivided(e) {
        let v = wide_int_value(f, e, env);
        law_wide_wraps_once(f, e, env);
        lemma_pow2_128();
        bits::lemma_mod_pow2_mod(v, w, 128);
        if int_fits(v, w) {
            law_twos_complement(v, w);
        }
    }
}

} // verus!
