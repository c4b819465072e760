//! What execution over doubles yields where kernels are run as planned.

use crate::elements::{decoded_values, is_float_type};
use crate::fuser::exec::{cpu_execution, packed_result, ran_on_cpu, var_doubles};
use crate::fuser::kernel::{distinct_vars, elementwise, expr_needs_limbs, expr_value, var_ids};
use crate::fuser::laws::{
    element_double, is_element, law_double_kernel_computes_expression, law_load_is_unpack,
};
use crate::fuser::plan::{double_elements, stored_values, KernelPlan, StoreVal};
use crate::hardware::{element_count, law_unpack_packed, packed, trimmed_word};
use crate::ir::{expr_scale, expr_size, expr_type, Expr, ExprView};
use crate::soft_float::FloatOp;
use crate::types::laws::{float_exact, law_float_array_round_trip, type_exponent_width};
use crate::types::{codable, dtype_width};
use vstd::prelude::*;

verus! {

/// Arrays of doubles as bytes.
pub open spec fn double_bytes(bufs: Seq<Vec<u64>>) -> Seq<Seq<u8>> {
    Seq::new(bufs.len(), |k: int| packed(bufs[k]@, 64))
}

/// That doubles are what a plan stores for its first `n` elements.
pub open spec fn is_double_run<F: Fn(FloatOp, u64, u64) -> u64>(
    f: F,
    plan: KernelPlan,
    bufs: Seq<Vec<u64>>,
    n: nat,
    out: Seq<u64>,
) -> bool {
    forall|i: nat|
        i < n ==> #[trigger] stored_values(f, plan.insts@, plan.stores@, double_bytes(bufs), i)
            == seq![StoreVal { width: 64, limb: 0, val: out[i as int] }]
}

/// That a function runs kernels over doubles as they are planned.
pub open spec fn runs_double_plans<
    F: Fn(FloatOp, u64, u64) -> u64,
    C: Fn(&KernelPlan, &Vec<Vec<u64>>, usize) -> Vec<u64>,
>(f: F, run: C) -> bool {
    forall|p: &KernelPlan, b: &Vec<Vec<u64>>, n: usize, out: Vec<u64>| #[trigger]
        run.ensures((p, b, n), out) ==> out@.len() == n && is_double_run(
            f,
            *p,
            b@,
            n as nat,
            out@,
        )
}

/// A double among bytes is the double of the array.
proof fn lemma_double_loaded(buf: Seq<u64>, i: nat)
    requires
        i < buf.len(),
    ensures
        crate::fuser::helpers::loaded(packed(buf, 64), i, 64, 0) == buf[i as int],
{
    let k = crate::bits::limb_count(64);
    assert(k == 1);
    assert(element_count(buf.len(), 64) == buf.len());
    vstd::arithmetic::mul::lemma_mul_basics(buf.len() as int);
    law_unpack_packed(buf, 64, i);
    law_load_is_unpack(packed(buf, 64), i, 64, 0);
    assert(i * k + 0 == i);
    assert(trimmed_word(buf[i as int], 64, i) == buf[i as int]) by {
        vstd::arithmetic::div_mod::lemma_mod_self_0(1);
        crate::bits::lemma_pow2_64();
        assert(i % k == 0);
        vstd::arithmetic::div_mod::lemma_small_mod(
            buf[i as int] as nat,
            vstd::arithmetic::power2::pow2(64),
        );
    }
}

/// A run of the kernel of an expression gives what the expression yields.
proof fn lemma_run_yields<
    F: Fn(FloatOp, u64, u64) -> u64,
    C: Fn(&KernelPlan, &Vec<Vec<u64>>, usize) -> Vec<u64>,
>(
    f: F,
    run: C,
    e: ExprView,
    plan: KernelPlan,
    bufs: Vec<Vec<u64>>,
    out: Vec<u64>,
    i: nat,
    env: spec_fn(usize) -> u64,
)
    requires
        ran_on_cpu(f, run, e, plan, bufs, out),
        runs_double_plans(f, run),
        elementwise(e),
        i < expr_size(e) <= usize::MAX,
        forall|k: int|
            0 <= k < distinct_vars(e, Seq::empty()).len() ==> expr_size(
                #[trigger] distinct_vars(e, Seq::empty())[k],
            ) >= expr_size(e),
        is_element(f, e, i, env),
    ensures
        out@.len() == expr_size(e),
        out@[i as int] == expr_value(f, e, env),
{
    let vars = distinct_vars(e, Seq::empty());
    let ids = var_ids(vars);
    let bytes = double_bytes(bufs@);
    assert(is_double_run(f, plan, bufs@, expr_size(e), out@));
    assert(ids.len() == bufs.len());
    crate::fuser::kernel::lemma_distinct_vars(e, Seq::empty());
    assert forall|k: int| 0 <= k < ids.len() implies #[trigger] env(ids[k]) == double_elements(
        bytes,
        ids.len(),
        i,
    )[k] by {
        let v = vars[k];
        assert(bufs@[k]@ == var_doubles(f, v));
        assert(var_doubles(f, v).len() >= expr_size(e));
        lemma_double_loaded(bufs@[k]@, i);
        assert(env(var_ids(vars)[k]) == element_double(f, vars[k], i));
    }
    law_double_kernel_computes_expression(f, plan, e, bytes, i, env);
    let s = stored_values(f, plan.insts@, plan.stores@, bytes, i);
    assert(s[0].val == out@[i as int]);
    assert(s[0].val == expr_value(f, e, env));
}

/// Where kernels are run as planned, an expression that was executed over doubles
/// holds, for each element, what the expression yields for the elements of its
/// variables, where the float type of the result holds that and all other
/// results exactly.
pub proof fn law_cpu_execution_computes_expression<
    F: Fn(FloatOp, u64, u64) -> u64,
    C: Fn(&KernelPlan, &Vec<Vec<u64>>, usize) -> Vec<u64>,
>(f: F, run: C, e: ExprView, r: Expr, vals: Seq<u64>, envs: spec_fn(nat) -> spec_fn(usize) -> u64)
    requires
        cpu_execution(f, run, e, r),
        runs_double_plans(f, run),
        !expr_needs_limbs(e),
        elementwise(e),
        is_float_type(expr_type(e)),
        codable(expr_type(e), r@->steal_sign),
        vals.len() == expr_size(e) <= usize::MAX,
        forall|k: int|
            0 <= k < distinct_vars(e, Seq::empty()).len() ==> expr_size(
                #[trigger] distinct_vars(e, Seq::empty())[k],
            ) >= expr_size(e),
        forall|i: nat|
            i < vals.len() ==> is_element(f, e, i, #[trigger] envs(i)) && vals[i as int]
                == expr_value(f, e, envs(i)),
        forall|i: int|
            0 <= i < vals.len() ==> float_exact(
                #[trigger] vals[i],
                dtype_width(expr_type(e)) as nat,
                type_exponent_width(expr_type(e)) as nat,
                r@->steal_sign,
            ),
    ensures
        var_doubles(f, r@) == vals,
{
    let d = expr_type(e);
    let scale = expr_scale(e);
    let (plan, bufs, out) = choose|plan: KernelPlan, bufs: Vec<Vec<u64>>, out: Vec<u64>|
        #[trigger] ran_on_cpu(f, run, e, plan, bufs, out) && r@ == packed_result(
            f,
            e,
            "fused_result"@,
            out@,
        );
    assert forall|i: int| 0 <= i < vals.len() implies out@[i] == #[trigger] vals[i] by {
        assert(is_element(f, e, i as nat, envs(i as nat)));
        lemma_run_yields(f, run, e, plan, bufs, out, i as nat, envs(i as nat));
    }
    assert(out@ =~= vals);
    let s = r@->steal_sign;
    law_float_array_round_trip(f, vals, d, scale, s, false);
    assert(var_doubles(f, r@) == decoded_values(
        f,
        crate::elements::packed_values(f, vals, d, scale, s, false),
        vals.len(),
        d,
        scale,
        s,
    ));
}

} // verus!
