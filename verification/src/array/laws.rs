//! What the execution of an array yields where kernels are run as planned.

use crate::array::{execution_type, pool_execution, pool_result, ran_graph};
use crate::bits::signed_value;
use crate::fuser::exec::{is_float_mode, is_packed_plan};
use crate::fuser::kernel::{distinct_vars, elementwise, expr_value};
use crate::fuser::laws::{
    divisible, element_int, holds_stores, input_bytes, int_value, is_element, is_int_element,
    law_int_kernel_computes_expression, law_int_result_wraps,
    law_packed_kernel_computes_expression, law_words_wrap_once, narrow_ints, short_vars, undivided,
    word_value,
};
use crate::fuser::packed_laws::{holds_coded, lemma_settled_element};
use crate::fuser::plan::{stored_values, KernelPlan};
use crate::fuser::wide_laws::{
    element_number, is_number_element, law_wide_kernel_computes_expression, law_wide_result_wraps,
    law_wide_wraps_once, lemma_pow2_128, lemma_wide_value_bound, short_ints, wide_int_value,
    wide_value,
};
use crate::graph::ArenaGraph;
use crate::ir::{expr_scale, expr_size, expr_steal, expr_type, Expr, ExprView, PackedBuffer};
use crate::soft_float::FloatOp;
use crate::types::laws::int_fits;
use crate::types::{codable, dtype_width};
use vstd::arithmetic::power2::*;
use vstd::prelude::*;

verus! {

/// The bytes of a list of buffers.
pub open spec fn buffer_bytes(bufs: Seq<PackedBuffer>) -> Seq<Seq<u8>> {
    Seq::new(bufs.len(), |k: int| bufs[k]@)
}

/// That bytes are what a plan stores for its first `n` elements.
pub open spec fn is_run<F: Fn(FloatOp, u64, u64) -> u64>(
    f: F,
    plan: KernelPlan,
    bufs: Seq<PackedBuffer>,
    n: nat,
    out: Seq<u8>,
) -> bool {
    forall|i: nat|
        i < n ==> #[trigger] holds_stores(
            out,
            i,
            stored_values(f, plan.insts@, plan.stores@, buffer_bytes(bufs), i),
        )
}

/// That a function runs kernels as they are planned.
pub open spec fn runs_plans<
    F: Fn(FloatOp, u64, u64) -> u64,
    R: Fn(&ArenaGraph, &KernelPlan, &Vec<PackedBuffer>, u32, usize) -> Vec<u8>,
>(f: F, run: R) -> bool {
    forall|
        g: &ArenaGraph,
        p: &KernelPlan,
        b: &Vec<PackedBuffer>,
        w: u32,
        n: usize,
        out: Vec<u8>,
    | #[trigger]
        run.ensures((g, p, b, w, n), out) ==> is_run(f, *p, b@, n as nat, out@)
}

/// Where kernels are run as planned, an expression of a float or a fixed-point type
/// that the pool has executed holds, for each element, what the expression yields
/// for the elements of its variables, as its type codes it.
pub proof fn law_execution_computes_expression<
    F: Fn(FloatOp, u64, u64) -> u64,
    R: Fn(&ArenaGraph, &KernelPlan, &Vec<PackedBuffer>, u32, usize) -> Vec<u8>,
>(f: F, run: R, e: ExprView, id: usize, r: Expr, i: nat, env: spec_fn(usize) -> u64)
    requires
        pool_execution(f, run, e, id, r),
        runs_plans(f, run),
        elementwise(e),
        short_vars(e),
        is_float_mode(expr_type(e)),
        codable(expr_type(e), false),
        i < expr_size(e) <= usize::MAX,
        is_element(f, e, i, env),
    ensures
        holds_coded(f, r@, i, expr_value(f, e, env), expr_type(e), expr_scale(e)),
        expr_type(r@) == expr_type(e),
{
    let d = expr_type(e);
    let v = expr_value(f, e, env);
    let (plan, out) = pool_output(f, run, e, id, r);
    law_packed_kernel_computes_expression(f, plan, e, d, dtype_width(d), i, env);
    assert(holds_stores(out, i, stored_values(f, plan.insts@, plan.stores@, input_bytes(e), i)));
    lemma_settled_element(f, out, expr_size(e), d, expr_scale(e), expr_steal(e), v, i);
}

/// The bytes that a run of the kernel of an expression gave, and that the result is
/// made of.
proof fn pool_output<
    F: Fn(FloatOp, u64, u64) -> u64,
    R: Fn(&ArenaGraph, &KernelPlan, &Vec<PackedBuffer>, u32, usize) -> Vec<u8>,
>(f: F, run: R, e: ExprView, id: usize, r: Expr) -> (res: (KernelPlan, Seq<u8>))
    requires
        pool_execution(f, run, e, id, r),
        runs_plans(f, run),
        expr_size(e) <= usize::MAX,
    ensures
        r@ == pool_result(f, e, id, res.1),
        is_packed_plan(
            f,
            res.0,
            e,
            execution_type(expr_type(e)),
            dtype_width(execution_type(expr_type(e))),
        ),
        distinct_vars(e, Seq::empty()).len() <= usize::MAX,
        forall|i: nat|
            i < expr_size(e) ==> #[trigger] holds_stores(
                res.1,
                i,
                stored_values(f, res.0.insts@, res.0.stores@, input_bytes(e), i),
            ),
{
    let (graph, plan, bufs, out) = choose|
        graph: ArenaGraph,
        plan: KernelPlan,
        bufs: Vec<PackedBuffer>,
        out: Vec<u8>,
    |
        {
            &&& #[trigger] ran_graph(f, run, e, graph, plan, bufs, out)
            &&& r is Variable
            &&& r@ == pool_result(f, e, id, out@)
        };
    assert(is_run(f, plan, bufs@, expr_size(e), out@));
    assert(buffer_bytes(bufs@) =~= input_bytes(e));
    assert(distinct_vars(e, Seq::empty()).len() == bufs.len());
    assert forall|i: nat| i < expr_size(e) implies #[trigger] holds_stores(
        out@,
        i,
        stored_values(f, plan.insts@, plan.stores@, input_bytes(e), i),
    ) by {
        assert(holds_stores(
            out@,
            i,
            stored_values(f, plan.insts@, plan.stores@, buffer_bytes(bufs@), i),
        ));
    }
    (plan, out@)
}

/// That `x` is `v` wrapped to `w` bits, and `v` itself where it fits.
pub open spec fn is_wrapped(x: int, v: int, w: nat) -> bool {
    &&& x == signed_value((v % pow2(w) as int) as nat, w)
    &&& int_fits(v, w) ==> x == v
}

/// Where kernels are run as planned, an expression over integers that the pool has
/// executed in at most 64 bits holds, for each element, what the expression yields
/// in words for the elements of its variables, where no divisor is zero, wrapped
/// to the width of the result; where it fits, it is that number. Without divisions
/// the same holds of the integer that the expression yields.
pub proof fn law_execution_computes_integers<
    F: Fn(FloatOp, u64, u64) -> u64,
    R: Fn(&ArenaGraph, &KernelPlan, &Vec<PackedBuffer>, u32, usize) -> Vec<u8>,
>(f: F, run: R, e: ExprView, id: usize, r: Expr, i: nat, env: spec_fn(usize) -> int)
    requires
        pool_execution(f, run, e, id, r),
        runs_plans(f, run),
        elementwise(e),
        divisible(f, e, env),
        narrow_ints(e),
        expr_type(e) is Int || expr_type(e) is ScalableInt,
        1 <= dtype_width(execution_type(expr_type(e))) <= 64,
        i < expr_size(e) <= usize::MAX,
        is_int_element(e, i, env),
    ensures
        ({
            let w = dtype_width(execution_type(expr_type(e))) as nat;
            let x = element_int(r@, i);
            &&& is_wrapped(x, word_value(f, e, env), w)
            &&& undivided(e) ==> is_wrapped(x, int_value(f, e, env), w)
        }),
{
    let d = execution_type(expr_type(e));
    let (plan, out) = pool_output(f, run, e, id, r);
    law_int_kernel_computes_expression(f, plan, e, d, dtype_width(d), i, env);
    assert(holds_stores(out, i, stored_values(f, plan.insts@, plan.stores@, input_bytes(e), i)));
    law_int_result_wraps(word_value(f, e, env), dtype_width(d), out, i);
    if undivided(e) {
        law_words_wrap_once(f, e, env);
        law_int_result_wraps(int_value(f, e, env), dtype_width(d), out, i);
    }
}

/// Where kernels are run as planned, an expression over integers of 65 to 128 bits
/// that the pool has executed holds, for each element, what the expression yields
/// in two words for the elements of its variables, wrapped to the width of the
/// result. Without divisions that is the integer that the expression yields,
/// wrapped to that width, and where it fits, it is that number.
pub proof fn law_execution_computes_wide_integers<
    F: Fn(FloatOp, u64, u64) -> u64,
    R: Fn(&ArenaGraph, &KernelPlan, &Vec<PackedBuffer>, u32, usize) -> Vec<u8>,
>(f: F, run: R, e: ExprView, id: usize, r: Expr, i: nat, env: spec_fn(usize) -> int)
    requires
        pool_execution(f, run, e, id, r),
        runs_plans(f, run),
        elementwise(e),
        short_ints(e),
        expr_type(e) is Int,
        64 < dtype_width(expr_type(e)) <= 128,
        i < expr_size(e) <= usize::MAX,
        is_number_element(e, i, env),
    ensures
        ({
            let w = dtype_width(expr_type(e)) as nat;
            let x = element_number(r@, i);
            &&& x == signed_value(wide_value(f, e, env) % pow2(w), w)
            &&& undivided(e) ==> is_wrapped(x, wide_int_value(f, e, env), w)
        }),
{
    let d = expr_type(e);
    let w = dtype_width(d) as nat;
    let n = wide_value(f, e, env);
    let (plan, out) = pool_output(f, run, e, id, r);
    law_wide_kernel_computes_expression(f, plan, e, d, dtype_width(d), i, env);
    assert(holds_stores(out, i, stored_values(f, plan.insts@, plan.stores@, input_bytes(e), i)));
    lemma_wide_value_bound(f, e, env);
    law_wide_result_wraps(n, dtype_width(d), out, i);
    lemma_pow2_pos(w);
    vstd::arithmetic::div_mod::lemma_mod_twice(n as int, pow2(w) as int);
    if undivided(e) {
        let v = wide_int_value(f, e, env);
        law_wide_wraps_once(f, e, env);
        lemma_pow2_128();
        crate::bits::lemma_mod_pow2_mod(v, w, 128);
        if int_fits(v, w) {
            crate::types::laws::law_twos_complement(v, w);
        }
    }
}

} // verus!
