//! Execution of expressions: what a kernel is given, and what is made of its
//! output. The kernel itself is run by a function that the caller hands in.

use crate::bits::limb_count;
use crate::elements::{
    addressable, all_non_negative, are_non_negative, choose_scalable_float, decodable,
    decoded_values, is_float_type, pack_values, packed_values, scalable_float_type, unpack_values,
    widest_int, widest_int_bits,
};
use crate::fuser::interp::{
    eval_ready, execute_expr_limb_interpreter, interpreted, lemma_narrow_addressable,
};
use crate::fuser::kernel::{
    collect_original_widths, constants_measurable, distinct_inputs, distinct_vars, elementwise,
    expr_needs_limbs, expr_views, fused, needs_limb_interpreter, var_ids, widths_with, FusedOp,
    MicroKernel,
};
use crate::fuser::plan::{
    compile_kernel, compile_packed_kernel, double_elements, input_ready, output_stores,
    packed_value, stored_values, KernelPlan, StoreVal,
};
use crate::fuser::kernel::op_value;
use crate::fuser::wgsl::{generate_wgsl, shader_text};
use crate::hardware::{packed_len, HardwareEngine};
use crate::ir::{
    expr_countable, expr_scale, expr_size, expr_steal, expr_type, flat_var, flat_view, Expr,
    ExprView, PackedBuffer,
};
use crate::soft_float::{
    f32_from_f64, f32_of_f64, f64_from_f32, f64_of_f32, is_float_unit, F32Bits, F64Bits, FloatOp,
};
use crate::text::{is_printer, same_text};
use crate::types::{codable, dtype_width, DataType};
use std::collections::HashMap;
use vstd::prelude::*;

verus! {

// ─── Inputs ──────────────────────────────────────────────────────────────────

/// That the elements of a variable can be taken as doubles.
pub open spec fn var_decodable(v: ExprView) -> bool {
    match v {
        ExprView::Variable { dtype, size, steal_sign, .. } => decodable(dtype, steal_sign)
            && addressable(size as nat, dtype_width(dtype) as nat),
        _ => false,
    }
}

/// The elements of a variable as doubles.
pub open spec fn var_doubles<F: Fn(FloatOp, u64, u64) -> u64>(f: F, v: ExprView) -> Seq<u64> {
    match v {
        ExprView::Variable { dtype, size, data, scale, steal_sign, .. } => decoded_values(
            f,
            data,
            size as nat,
            dtype,
            scale,
            steal_sign,
        ),
        _ => Seq::empty(),
    }
}

/// That every variable of a list can be taken as doubles.
pub open spec fn vars_decodable(vars: Seq<ExprView>) -> bool {
    forall|k: int| 0 <= k < vars.len() ==> var_decodable(#[trigger] vars[k])
}

/// The elements of a variable as doubles.
pub fn unpack_var<F: Fn(FloatOp, u64, u64) -> u64>(engine: &HardwareEngine, var: &Expr, f: &F) -> (r:
    Vec<F64Bits>)
    requires
        is_float_unit(*f),
        var_decodable(var@),
    ensures
        r@ == var_doubles(*f, var@),
{
    match var {
        Expr::Variable { dtype, size, packed_data, scale, steal_sign, .. } => unpack_values(
            engine,
            packed_data.as_slice(),
            *size,
            *dtype,
            *scale,
            *steal_sign,
            f,
        ),
        _ => Vec::new(),
    }
}

/// The inputs of a kernel as arrays of doubles.
pub fn unpack_inputs<F: Fn(FloatOp, u64, u64) -> u64>(
    engine: &HardwareEngine,
    inputs: &Vec<Expr>,
    f: &F,
) -> (r: Vec<Vec<F64Bits>>)
    requires
        is_float_unit(*f),
        vars_decodable(expr_views(inputs@)),
    ensures
        r@.len() == inputs@.len(),
        forall|k: int|
            0 <= k < inputs@.len() ==> (#[trigger] r@[k])@ == var_doubles(*f, inputs@[k]@),
{
    let mut r: Vec<Vec<u64>> = Vec::new();
    let mut k: usize = 0;
    while k < inputs.len()
        invariant
            is_float_unit(*f),
            vars_decodable(expr_views(inputs@)),
            k <= inputs@.len(),
            r@.len() == k,
            forall|j: int| 0 <= j < k ==> (#[trigger] r@[j])@ == var_doubles(*f, inputs@[j]@),
        decreases inputs@.len() - k,
    {
        assert(var_decodable(expr_views(inputs@)[k as int]));
        r.push(unpack_var(engine, &inputs[k], f));
        k = k + 1;
    }
    r
}

/// The bytes of a kernel's inputs.
pub fn input_buffers(inputs: &Vec<Expr>) -> (r: Vec<PackedBuffer>)
    requires
        distinct_inputs(expr_views(inputs@)),
    ensures
        r@.len() == inputs@.len(),
        forall|k: int| 0 <= k < inputs@.len() ==> (#[trigger] r@[k])@ == var_bytes(inputs@[k]@),
{
    let mut r: Vec<PackedBuffer> = Vec::new();
    let mut k: usize = 0;
    while k < inputs.len()
        invariant
            distinct_inputs(expr_views(inputs@)),
            k <= inputs@.len(),
            r@.len() == k,
            forall|j: int| 0 <= j < k ==> (#[trigger] r@[j])@ == var_bytes(inputs@[j]@),
        decreases inputs@.len() - k,
    {
        assert(expr_views(inputs@)[k as int] is Variable);
        if let Expr::Variable { packed_data, .. } = &inputs[k] {
            r.push(packed_data.clone());
        }
        k = k + 1;
    }
    r
}

/// The bytes of a variable.
pub open spec fn var_bytes(v: ExprView) -> Seq<u8> {
    match v {
        ExprView::Variable { data, .. } => data,
        _ => Seq::empty(),
    }
}

// ─── Runners ─────────────────────────────────────────────────────────────────

/// That a function runs kernels over arrays of doubles: it takes every plan, and
/// gives as many doubles as it is asked for.
pub open spec fn is_double_runner<R: Fn(&KernelPlan, &Vec<Vec<u64>>, usize) -> Vec<u64>>(
    run: R,
) -> bool {
    &&& forall|p: &KernelPlan, b: &Vec<Vec<u64>>, n: usize| #[trigger] run.requires((p, b, n))
    &&& forall|p: &KernelPlan, b: &Vec<Vec<u64>>, n: usize, out: Vec<u64>| #[trigger]
        run.ensures((p, b, n), out) ==> out@.len() == n
}

/// That a function runs kernels over packed inputs: it takes every plan, the
/// width of an output element and a count; if it can run the plan, it gives the
/// bytes that so many elements take.
pub open spec fn is_packed_runner<
    R: Fn(&KernelPlan, &Vec<PackedBuffer>, u32, usize) -> Option<Vec<u8>>,
>(run: R) -> bool {
    &&& forall|p: &KernelPlan, b: &Vec<PackedBuffer>, w: u32, n: usize| #[trigger]
        run.requires((p, b, w, n))
    &&& forall|p: &KernelPlan, b: &Vec<PackedBuffer>, w: u32, n: usize, out: Vec<u8>| #[trigger]
        run.ensures((p, b, w, n), Some(out)) ==> out@.len() == packed_len(n as nat, w as nat)
}

/// That a function runs shaders: it takes every shader, and if it can run it,
/// gives as many singles as it is asked for.
pub open spec fn is_shader_runner<
    R: Fn(&String, &Vec<Vec<u32>>, usize) -> Option<Vec<u32>>,
>(run: R) -> bool {
    &&& forall|s: &String, b: &Vec<Vec<u32>>, n: usize| #[trigger] run.requires((s, b, n))
    &&& forall|s: &String, b: &Vec<Vec<u32>>, n: usize, out: Vec<u32>| #[trigger]
        run.ensures((s, b, n), Some(out)) ==> out@.len() == n
}

// ─── Execution over doubles ──────────────────────────────────────────────────

/// That an expression can be executed over doubles.
pub open spec fn cpu_ready(e: ExprView) -> bool {
    &&& expr_countable(e)
    &&& codable(expr_type(e), false)
    &&& addressable(expr_size(e), dtype_width(expr_type(e)) as nat)
    &&& addressable(expr_size(e), 64)
    &&& expr_needs_limbs(e) ==> eval_ready(e, expr_size(e))
    &&& !expr_needs_limbs(e) ==> {
        &&& elementwise(e)
        &&& constants_measurable(e)
        &&& vars_decodable(distinct_vars(e, Seq::empty()))
    }
}

/// The array made of the doubles that a kernel yields: packed under the type of
/// the expression, without a sign bit where the expression has none and no
/// result is negative.
pub open spec fn packed_result<F: Fn(FloatOp, u64, u64) -> u64>(
    f: F,
    e: ExprView,
    name: Seq<char>,
    out: Seq<u64>,
) -> ExprView {
    let s = expr_steal(e) && all_non_negative(out);
    flat_view(
        999,
        name,
        expr_type(e),
        expr_size(e) as usize,
        packed_values(f, out, expr_type(e), expr_scale(e), s, false),
        expr_scale(e),
        s,
    )
}

/// Packs the doubles that a kernel yields.
pub fn finish_result<F: Fn(FloatOp, u64, u64) -> u64>(
    engine: &HardwareEngine,
    expr: &Expr,
    name: &str,
    out: &Vec<F64Bits>,
    f: &F,
) -> (r: Expr)
    requires
        is_float_unit(*f),
        expr_countable(expr@),
        codable(expr_type(expr@), false),
        out@.len() == expr_size(expr@),
        addressable(expr_size(expr@), dtype_width(expr_type(expr@)) as nat),
    ensures
        r is Variable,
        r@ == packed_result(*f, expr@, name@, out@),
{
    let d: DataType = expr.data_type();
    let scale: Option<u32> = expr.get_scale();
    let s: bool = expr.steal_sign() && are_non_negative(out.as_slice());
    let data: Vec<u8> = pack_values(engine, out.as_slice(), d, scale, s, false, f);
    flat_var(999, name, d, expr.size(), data, scale, s)
}

/// That a plan is the one of a kernel over doubles.
pub open spec fn is_double_plan<F: Fn(FloatOp, u64, u64) -> u64>(
    f: F,
    plan: KernelPlan,
    op: FusedOp,
    n: nat,
) -> bool {
    &&& plan.wf(n)
    &&& forall|bufs: Seq<Seq<u8>>, i: nat|
        #[trigger] stored_values(f, plan.insts@, plan.stores@, bufs, i) == seq![
            StoreVal { width: 64, limb: 0, val: op_value(f, op, double_elements(bufs, n, i)) },
        ]
}

/// What execution over doubles yields: a run of the kernel of the expression,
/// over the doubles of its variables, gave `out`, and the result is made of it.
pub open spec fn ran_on_cpu<
    F: Fn(FloatOp, u64, u64) -> u64,
    R: Fn(&KernelPlan, &Vec<Vec<u64>>, usize) -> Vec<u64>,
>(
    f: F,
    run: R,
    e: ExprView,
    plan: KernelPlan,
    bufs: Vec<Vec<u64>>,
    out: Vec<u64>,
) -> bool {
    let vars = distinct_vars(e, Seq::empty());
    &&& is_double_plan(f, plan, fused(f, e, var_ids(vars)), vars.len())
    &&& bufs@.len() == vars.len()
    &&& forall|k: int| 0 <= k < vars.len() ==> (#[trigger] bufs@[k])@ == var_doubles(f, vars[k])
    &&& run.ensures((&plan, &bufs, expr_size(e) as usize), out)
}

/// What execution over doubles yields.
pub open spec fn cpu_execution<
    F: Fn(FloatOp, u64, u64) -> u64,
    C: Fn(&KernelPlan, &Vec<Vec<u64>>, usize) -> Vec<u64>,
>(f: F, run: C, e: ExprView, r: Expr) -> bool {
    &&& r is Variable
    &&& expr_needs_limbs(e) ==> r@ == interpreted(f, e)
    &&& !expr_needs_limbs(e) ==> exists|plan: KernelPlan, bufs: Vec<Vec<u64>>, out: Vec<u64>|
        #[trigger] ran_on_cpu(f, run, e, plan, bufs, out) && r@ == packed_result(
            f,
            e,
            "fused_result"@,
            out@,
        )
}

/// Executes an expression: limb by limb where its types need that, else as one
/// kernel over doubles.
pub fn execute_expr_cpu<
    F: Fn(FloatOp, u64, u64) -> u64,
    R: Fn(&KernelPlan, &Vec<Vec<u64>>, usize) -> Vec<u64>,
>(engine: &HardwareEngine, expr: &Expr, run: &R, f: &F) -> (r: Expr)
    requires
        is_float_unit(*f),
        is_double_runner(*run),
        cpu_ready(expr@),
    ensures
        cpu_execution(*f, *run, expr@, r),
{
    if needs_limb_interpreter(expr) {
        return execute_expr_limb_interpreter(engine, expr, f);
    }
    let kernel: MicroKernel = MicroKernel::generate(expr, f);
    let bufs: Vec<Vec<u64>> = unpack_inputs(engine, &kernel.inputs, f);
    let plan: KernelPlan = compile_kernel(&kernel, f);
    let out: Vec<u64> = run(&plan, &bufs, kernel.size);
    let r: Expr = finish_result(engine, expr, "fused_result", &out, f);
    proof {
        let vars = distinct_vars(expr@, Seq::empty());
        assert(expr_views(kernel.inputs@) == vars);
        assert forall|k: int| 0 <= k < vars.len() implies (#[trigger] bufs@[k])@ == var_doubles(
            *f,
            vars[k],
        ) by {
            assert(vars[k] == kernel.inputs@[k]@);
        }
        assert(ran_on_cpu(*f, *run, expr@, plan, bufs, out));
    }
    r
}

// ─── Execution over packed inputs ────────────────────────────────────────────

/// That a type is computed with floats. Fixed-point numbers are: their codes are
/// not the numbers.
pub open spec fn is_float_mode(d: DataType) -> bool {
    !(d is Int || d is ScalableInt)
}

fn float_mode_of(d: DataType) -> (r: bool)
    ensures
        r == is_float_mode(d),
{
    match d {
        DataType::Int(_) => false,
        DataType::ScalableInt(_) => false,
        _ => true,
    }
}

/// That every input of a list can be read.
pub open spec fn inputs_ready(
    vars: Seq<ExprView>,
    widths: Map<usize, u32>,
    float_mode: bool,
) -> bool {
    forall|k: int| 0 <= k < vars.len() ==> input_ready(#[trigger] vars[k], widths, float_mode)
}

/// That an expression can be compiled over packed inputs, with an output of type
/// `d`.
pub open spec fn kernel_ready(e: ExprView, d: DataType) -> bool {
    &&& expr_countable(e)
    &&& elementwise(e)
    &&& constants_measurable(e)
    &&& dtype_width(d) <= u32::MAX - 63
    &&& inputs_ready(
        distinct_vars(e, Seq::empty()),
        widths_with(e, Map::empty()),
        is_float_mode(d),
    )
}

/// That an expression can be executed over packed inputs.
pub open spec fn packed_ready(e: ExprView) -> bool {
    &&& kernel_ready(e, expr_type(e))
    &&& decodable(expr_type(e), false)
    &&& addressable(expr_size(e), dtype_width(expr_type(e)) as nat)
    &&& addressable(expr_size(e), 64)
}

/// That a plan is the one of an expression over packed inputs, with an output of
/// type `d`, computed in `compute_bits` bits where it is computed with integers.
pub open spec fn is_packed_plan<F: Fn(FloatOp, u64, u64) -> u64>(
    f: F,
    plan: KernelPlan,
    e: ExprView,
    d: DataType,
    compute_bits: u32,
) -> bool {
    let vars = distinct_vars(e, Seq::empty());
    &&& plan.wf(vars.len())
    &&& forall|bufs: Seq<Seq<u8>>, i: nat|
        #[trigger] stored_values(f, plan.insts@, plan.stores@, bufs, i) == output_stores(
            f,
            packed_value(
                f,
                fused(f, e, var_ids(vars)),
                vars,
                widths_with(e, Map::empty()),
                is_float_mode(d),
                compute_bits,
                bufs,
                i,
            ),
            d,
            expr_scale(e),
        )
}

/// What a run over packed inputs gave.
pub open spec fn ran_packed<
    F: Fn(FloatOp, u64, u64) -> u64,
    R: Fn(&KernelPlan, &Vec<PackedBuffer>, u32, usize) -> Option<Vec<u8>>,
>(
    f: F,
    run: R,
    e: ExprView,
    compute_bits: u32,
    size: usize,
    plan: KernelPlan,
    bufs: Vec<PackedBuffer>,
    out: Option<Vec<u8>>,
) -> bool {
    let vars = distinct_vars(e, Seq::empty());
    &&& is_packed_plan(f, plan, e, expr_type(e), compute_bits)
    &&& bufs@.len() == vars.len()
    &&& forall|k: int| 0 <= k < vars.len() ==> (#[trigger] bufs@[k])@ == var_bytes(vars[k])
    &&& run.ensures((&plan, &bufs, dtype_width(expr_type(e)), size), out)
}

/// The plan of an expression over packed inputs with an output of type `d`, the
/// inputs, and the number of elements.
pub fn packed_kernel<F: Fn(FloatOp, u64, u64) -> u64>(
    expr: &Expr,
    d: DataType,
    compute_bits: u32,
    f: &F,
) -> (r: (KernelPlan, Vec<PackedBuffer>, usize))
    requires
        is_float_unit(*f),
        kernel_ready(expr@, d),
    ensures
        is_packed_plan(*f, r.0, expr@, d, compute_bits),
        r.1@.len() == distinct_vars(expr@, Seq::empty()).len(),
        forall|k: int|
            0 <= k < r.1@.len() ==> (#[trigger] r.1@[k])@ == var_bytes(
                distinct_vars(expr@, Seq::empty())[k],
            ),
        r.2 as nat == expr_size(expr@),
{
    broadcast use vstd::std_specs::hash::group_hash_axioms;

    let kernel: MicroKernel = MicroKernel::generate(expr, f);
    let mut widths: HashMap<usize, u32> = HashMap::new();
    collect_original_widths(expr, &mut widths);
    let float_mode: bool = float_mode_of(d);
    let ghost vars = distinct_vars(expr@, Seq::empty());
    proof {
        assert(expr_views(kernel.inputs@) == vars);
        assert forall|k: int| 0 <= k < kernel.inputs@.len() implies input_ready(
            (#[trigger] kernel.inputs@[k])@,
            widths@,
            float_mode,
        ) by {
            assert(vars[k] == kernel.inputs@[k]@);
        }
    }
    let plan: KernelPlan = compile_packed_kernel(
        &kernel,
        float_mode,
        compute_bits,
        d,
        expr.get_scale(),
        &widths,
        f,
    );
    let bufs: Vec<PackedBuffer> = input_buffers(&kernel.inputs);
    proof {
        assert forall|k: int| 0 <= k < bufs@.len() implies (#[trigger] bufs@[k])@ == var_bytes(
            vars[k],
        ) by {
            assert(vars[k] == kernel.inputs@[k]@);
        }
    }
    (plan, bufs, kernel.size)
}

/// The width in which integers are computed.
pub open spec fn compute_width(e: ExprView, override_bits: Option<u32>) -> u32 {
    match override_bits {
        Some(b) => b,
        None => dtype_width(expr_type(e)),
    }
}

/// The bytes of a result whose elements a kernel has coded with a sign bit: packed
/// anew where a float type gives that bit to the mantissa.
pub open spec fn signless_bytes<F: Fn(FloatOp, u64, u64) -> u64>(
    f: F,
    out: Seq<u8>,
    vals: Seq<u64>,
    d: DataType,
    scale: Option<u32>,
    s: bool,
) -> Seq<u8> {
    if s && is_float_type(d) {
        packed_values(f, vals, d, scale, true, false)
    } else {
        out
    }
}

/// Decides whether a result whose elements a kernel has coded with a sign bit keeps
/// it: it does not where the expression has none and no element is negative.
pub fn settle_sign<F: Fn(FloatOp, u64, u64) -> u64>(
    engine: &HardwareEngine,
    out: Vec<u8>,
    size: usize,
    d: DataType,
    scale: Option<u32>,
    steal: bool,
    f: &F,
) -> (r: (Vec<u8>, bool))
    requires
        is_float_unit(*f),
        steal ==> decodable(d, false) && addressable(size as nat, dtype_width(d) as nat),
    ensures
        ({
            let vals = decoded_values(*f, out@, size as nat, d, scale, false);
            &&& r.1 == (steal && all_non_negative(vals))
            &&& r.0@ == signless_bytes(*f, out@, vals, d, scale, r.1)
        }),
{
    if !steal {
        return (out, false);
    }
    let vals: Vec<u64> = unpack_values(engine, out.as_slice(), size, d, scale, false, f);
    let s: bool = are_non_negative(vals.as_slice());
    let float: bool = match d {
        DataType::Float(_) => true,
        DataType::DynamicFloat => true,
        DataType::ScalableFloat(_, _) => true,
        _ => false,
    };
    if s && float {
        (pack_values(engine, vals.as_slice(), d, scale, true, false, f), s)
    } else {
        (out, s)
    }
}

/// The type of a result with the given values: scalable types follow them.
pub open spec fn fitted_type(d: DataType, vals: Seq<u64>, s: bool) -> DataType {
    match d {
        DataType::ScalableInt(_) => DataType::ScalableInt(widest_int(vals) as u32),
        DataType::ScalableFloat(_, _) => scalable_float_type(vals, s),
        _ => d,
    }
}

/// The array made of the bytes that a kernel yields: scalable types follow the
/// values, and are packed anew where they change; no sign bit is kept where the
/// expression has none and no result is negative.
pub open spec fn repacked_result<F: Fn(FloatOp, u64, u64) -> u64>(
    f: F,
    e: ExprView,
    out: Seq<u8>,
) -> ExprView {
    let d = expr_type(e);
    let scale = expr_scale(e);
    let size = expr_size(e);
    let vals = decoded_values(f, out, size, d, scale, false);
    let s = expr_steal(e) && all_non_negative(vals);
    let n = fitted_type(d, vals, s);
    let data = if n != d {
        packed_values(f, vals, n, scale, s, false)
    } else {
        signless_bytes(f, out, vals, d, scale, s)
    };
    flat_view(999, "fused_secondary_result"@, n, size as usize, data, scale, s)
}

/// Makes an array of the bytes that a kernel yields.
pub fn finish_packed<F: Fn(FloatOp, u64, u64) -> u64>(
    engine: &HardwareEngine,
    expr: &Expr,
    out: Vec<u8>,
    f: &F,
) -> (r: Expr)
    requires
        is_float_unit(*f),
        expr_countable(expr@),
        decodable(expr_type(expr@), false),
        addressable(expr_size(expr@), dtype_width(expr_type(expr@)) as nat),
        addressable(expr_size(expr@), 64),
    ensures
        r is Variable,
        r@ == repacked_result(*f, expr@, out@),
{
    let d: DataType = expr.data_type();
    let scale: Option<u32> = expr.get_scale();
    let steal: bool = expr.steal_sign();
    let size: usize = expr.size();
    match d {
        DataType::ScalableInt(_) => {
            let vals: Vec<u64> = unpack_values(engine, out.as_slice(), size, d, scale, false, f);
            let s: bool = steal && are_non_negative(vals.as_slice());
            let n: DataType = DataType::ScalableInt(widest_int_bits(vals.as_slice()));
            let data: Vec<u8> = if n != d {
                proof {
                    lemma_narrow_addressable(size as nat, dtype_width(n) as nat);
                }
                pack_values(engine, vals.as_slice(), n, scale, s, false, f)
            } else {
                out
            };
            flat_var(999, "fused_secondary_result", n, size, data, scale, s)
        },
        DataType::ScalableFloat(_, _) => {
            let vals: Vec<u64> = unpack_values(engine, out.as_slice(), size, d, scale, false, f);
            let s: bool = steal && are_non_negative(vals.as_slice());
            let n: DataType = choose_scalable_float(vals.as_slice(), s);
            let data: Vec<u8> = if n != d || s {
                proof {
                    crate::elements::lemma_codable_width(n, s);
                    lemma_narrow_addressable(size as nat, dtype_width(n) as nat);
                }
                pack_values(engine, vals.as_slice(), n, scale, s, false, f)
            } else {
                out
            };
            flat_var(999, "fused_secondary_result", n, size, data, scale, s)
        },
        _ => {
            let (data, s) = settle_sign(engine, out, size, d, scale, steal, f);
            flat_var(999, "fused_secondary_result", d, size, data, scale, s)
        },
    }
}

/// What execution over packed inputs yields: a run gave `out`, and the result
/// is made of it, or there is none because the kernel could not be run.
pub open spec fn packed_execution<
    F: Fn(FloatOp, u64, u64) -> u64,
    R: Fn(&KernelPlan, &Vec<PackedBuffer>, u32, usize) -> Option<Vec<u8>>,
>(f: F, run: R, e: ExprView, compute_bits: u32, r: Option<Expr>) -> bool {
    exists|plan: KernelPlan, bufs: Vec<PackedBuffer>, out: Option<Vec<u8>>|
        {
            &&& #[trigger] ran_packed(
                f,
                run,
                e,
                compute_bits,
                expr_size(e) as usize,
                plan,
                bufs,
                out,
            )
            &&& match (r, out) {
                (Some(x), Some(bytes)) => x is Variable && x@ == repacked_result(f, e, bytes@),
                (None, None) => true,
                _ => false,
            }
        }
}

/// Executes an expression over packed inputs, integers in a given width.
fn execute_expr_secondary_internal<
    F: Fn(FloatOp, u64, u64) -> u64,
    R: Fn(&KernelPlan, &Vec<PackedBuffer>, u32, usize) -> Option<Vec<u8>>,
>(engine: &HardwareEngine, expr: &Expr, override_compute_bits: Option<u32>, run: &R, f: &F) -> (r:
    Option<Expr>)
    requires
        is_float_unit(*f),
        is_packed_runner(*run),
        packed_ready(expr@),
    ensures
        packed_execution(
            *f,
            *run,
            expr@,
            compute_width(expr@, override_compute_bits),
            r,
        ),
{
    let d: DataType = expr.data_type();
    let w: u32 = d.bit_width();
    let compute_bits: u32 = match override_compute_bits {
        Some(b) => b,
        None => w,
    };
    let (plan, bufs, size) = packed_kernel(expr, d, compute_bits, f);
    let out: Option<Vec<u8>> = run(&plan, &bufs, w, size);
    let ghost e = expr@;
    let ghost cb = compute_width(e, override_compute_bits);
    assert(ran_packed(*f, *run, e, cb, expr_size(e) as usize, plan, bufs, out));
    match out {
        Some(bytes) => Some(finish_packed(engine, expr, bytes, f)),
        None => None,
    }
}

/// Executes an expression as one kernel over packed inputs. There is no result
/// where the kernel could not be run.
pub fn execute_expr_secondary<
    F: Fn(FloatOp, u64, u64) -> u64,
    R: Fn(&KernelPlan, &Vec<PackedBuffer>, u32, usize) -> Option<Vec<u8>>,
>(engine: &HardwareEngine, expr: &Expr, run: &R, f: &F) -> (r: Option<Expr>)
    requires
        is_float_unit(*f),
        is_packed_runner(*run),
        packed_ready(expr@),
    ensures
        packed_execution(*f, *run, expr@, dtype_width(expr_type(expr@)), r),
{
    execute_expr_secondary_internal(engine, expr, None, run, f)
}

// ─── Execution after a sample ────────────────────────────────────────────────

/// The width that a sample of results asks for: that of its widest value, and
/// no more than that of the output.
pub open spec fn sample_bits(d: DataType, steal_sign: bool, vals: Seq<u64>) -> u32 {
    let w = dtype_width(d);
    let s = steal_sign && all_non_negative(vals);
    let need = match d {
        DataType::Int(_) => widest_int(vals) as u32,
        DataType::ScalableInt(_) => widest_int(vals) as u32,
        DataType::Float(_) => dtype_width(scalable_float_type(vals, s)),
        DataType::ScalableFloat(_, _) => dtype_width(scalable_float_type(vals, s)),
        _ => w,
    };
    if need > w {
        w
    } else {
        need
    }
}

/// The width to compute in after a sample: narrower where the sample allows it
/// or has lost its stolen sign, else as the output.
pub open spec fn sample_choice(d: DataType, steal_sign: bool, vals: Seq<u64>) -> Option<u32> {
    let b = sample_bits(d, steal_sign, vals);
    let s = steal_sign && all_non_negative(vals);
    if b < dtype_width(d) || s != steal_sign {
        Some(b)
    } else {
        None
    }
}

/// Chooses the width to compute in after a sample.
pub fn choose_compute_bits(d: DataType, target_steal: bool, sample: &[F64Bits]) -> (r: Option<u32>)
    ensures
        r == sample_choice(d, target_steal, sample@),
{
    let out_bits: u32 = d.bit_width();
    let sample_steal: bool = target_steal && are_non_negative(sample);
    let mut min_bits: u32 = match d {
        DataType::Int(_) => widest_int_bits(sample),
        DataType::ScalableInt(_) => widest_int_bits(sample),
        DataType::Float(_) => choose_scalable_float(sample, sample_steal).bit_width(),
        DataType::ScalableFloat(_, _) => choose_scalable_float(sample, sample_steal).bit_width(),
        _ => out_bits,
    };
    if min_bits > out_bits {
        min_bits = out_bits;
    }
    if min_bits < out_bits || sample_steal != target_steal {
        Some(min_bits)
    } else {
        None
    }
}

/// How many elements a sample has.
pub open spec fn sample_size(n: nat) -> nat {
    if n < 100 {
        n
    } else {
        100
    }
}

/// What execution after a sample yields: a run over the first elements gave
/// `sample`, which chose the width of the run over all of them; where it could
/// not be run, the result is that over doubles.
pub open spec fn sampled_execution<
    F: Fn(FloatOp, u64, u64) -> u64,
    R: Fn(&KernelPlan, &Vec<PackedBuffer>, u32, usize) -> Option<Vec<u8>>,
    C: Fn(&KernelPlan, &Vec<Vec<u64>>, usize) -> Vec<u64>,
>(f: F, run: R, run_cpu: C, e: ExprView, r: Option<Expr>) -> bool {
    let d = expr_type(e);
    let n = sample_size(expr_size(e));
    exists|plan: KernelPlan, bufs: Vec<PackedBuffer>, sample: Option<Vec<u8>>|
        {
            &&& #[trigger] ran_packed(f, run, e, dtype_width(d), n as usize, plan, bufs, sample)
            &&& match sample {
                Some(bytes) => packed_execution(
                    f,
                    run,
                    e,
                    compute_width(
                        e,
                        sample_choice(
                            d,
                            expr_steal(e),
                            decoded_values(f, bytes@, n, d, expr_scale(e), false),
                        ),
                    ),
                    r,
                ),
                None => r is Some && cpu_execution(f, run_cpu, e, r->0),
            }
        }
}

/// Executes an expression over packed inputs in the width that a sample of at
/// most a hundred elements asks for, or over doubles where the sample could not
/// be run.
pub fn execute_expr_tertiary<
    F: Fn(FloatOp, u64, u64) -> u64,
    R: Fn(&KernelPlan, &Vec<PackedBuffer>, u32, usize) -> Option<Vec<u8>>,
    C: Fn(&KernelPlan, &Vec<Vec<u64>>, usize) -> Vec<u64>,
>(engine: &HardwareEngine, expr: &Expr, run: &R, run_cpu: &C, f: &F) -> (r: Option<Expr>)
    requires
        is_float_unit(*f),
        is_packed_runner(*run),
        is_double_runner(*run_cpu),
        packed_ready(expr@),
        cpu_ready(expr@),
    ensures
        sampled_execution(*f, *run, *run_cpu, expr@, r),
{
    let d: DataType = expr.data_type();
    let steal: bool = expr.steal_sign();
    let w: u32 = d.bit_width();
    let (plan, bufs, size) = packed_kernel(expr, d, w, f);
    let count: usize = if size < 100 {
        size
    } else {
        100
    };
    let sample: Option<Vec<u8>> = run(&plan, &bufs, w, count);
    assert(ran_packed(
        *f,
        *run,
        expr@,
        dtype_width(expr_type(expr@)),
        sample_size(expr_size(expr@)) as usize,
        plan,
        bufs,
        sample,
    ));
    match sample {
        None => {
            let r: Expr = execute_expr_cpu(engine, expr, run_cpu, f);
            assert(cpu_execution(*f, *run_cpu, expr@, r));
            Some(r)
        },
        Some(bytes) => {
            proof {
                lemma_fewer_addressable(count as nat, size as nat, w as nat);
            }
            let vals: Vec<u64> = unpack_values(
                engine,
                bytes.as_slice(),
                count,
                d,
                expr.get_scale(),
                false,
                f,
            );
            let choice: Option<u32> = choose_compute_bits(d, steal, vals.as_slice());
            execute_expr_secondary_internal(engine, expr, choice, run, f)
        },
    }
}

proof fn lemma_fewer_addressable(few: nat, many: nat, w: nat)
    requires
        few <= many,
        addressable(many, w),
    ensures
        addressable(few, w),
{
    let k = limb_count(w);
    vstd::arithmetic::mul::lemma_mul_inequality(few as int, many as int, k as int);
    vstd::arithmetic::mul::lemma_mul_inequality((few * k) as int, (many * k) as int, w as int);
}

// ─── Execution on a graphics processor ───────────────────────────────────────

/// A list of doubles as singles.
pub open spec fn singles(vals: Seq<u64>) -> Seq<u32> {
    Seq::new(vals.len(), |i: int| f32_of_f64(vals[i]))
}

/// A list of singles as doubles.
pub open spec fn doubles(vals: Seq<u32>) -> Seq<u64> {
    Seq::new(vals.len(), |i: int| f64_of_f32(vals[i]))
}

/// A list of doubles as singles.
pub fn to_singles(vals: &[F64Bits]) -> (r: Vec<F32Bits>)
    ensures
        r@ == singles(vals@),
{
    let mut r: Vec<u32> = Vec::with_capacity(vals.len());
    let mut i: usize = 0;
    while i < vals.len()
        invariant
            i <= vals@.len(),
            r@.len() == i,
            forall|j: int| 0 <= j < i ==> #[trigger] r@[j] == f32_of_f64(vals@[j]),
        decreases vals@.len() - i,
    {
        r.push(f32_from_f64(vals[i]));
        i = i + 1;
    }
    assert(r@ =~= singles(vals@));
    r
}

/// A list of singles as doubles.
pub fn to_doubles(vals: &[F32Bits]) -> (r: Vec<F64Bits>)
    ensures
        r@ == doubles(vals@),
{
    let mut r: Vec<u64> = Vec::with_capacity(vals.len());
    let mut i: usize = 0;
    while i < vals.len()
        invariant
            i <= vals@.len(),
            r@.len() == i,
            forall|j: int| 0 <= j < i ==> #[trigger] r@[j] == f64_of_f32(vals@[j]),
        decreases vals@.len() - i,
    {
        r.push(f64_from_f32(vals[i]));
        i = i + 1;
    }
    assert(r@ =~= doubles(vals@));
    r
}

/// What a run of the shader of an expression gave.
pub open spec fn ran_shader<
    F: Fn(FloatOp, u64, u64) -> u64,
    S: Fn(u64) -> String,
    R: Fn(&String, &Vec<Vec<u32>>, usize) -> Option<Vec<u32>>,
>(
    f: F,
    show: S,
    run: R,
    e: ExprView,
    text: String,
    bufs: Vec<Vec<u32>>,
    out: Option<Vec<u32>>,
) -> bool {
    let vars = distinct_vars(e, Seq::empty());
    &&& text@ == shader_text(show, fused(f, e, var_ids(vars)), vars.len())
    &&& bufs@.len() == vars.len()
    &&& forall|k: int|
        0 <= k < vars.len() ==> (#[trigger] bufs@[k])@ == singles(var_doubles(f, vars[k]))
    &&& run.ensures((&text, &bufs, expr_size(e) as usize), out)
}

/// What execution as a shader yields: the results of a run, packed, or nothing
/// where the shader could not be run.
pub open spec fn gpu_execution<
    F: Fn(FloatOp, u64, u64) -> u64,
    S: Fn(u64) -> String,
    R: Fn(&String, &Vec<Vec<u32>>, usize) -> Option<Vec<u32>>,
>(f: F, show: S, run: R, e: ExprView, r: Option<Expr>) -> bool {
    exists|text: String, bufs: Vec<Vec<u32>>, out: Option<Vec<u32>>|
        {
            &&& #[trigger] ran_shader(f, show, run, e, text, bufs, out)
            &&& match (r, out) {
                (Some(x), Some(vals)) => x is Variable && x@ == packed_result(
                    f,
                    e,
                    "fused_gpu_result"@,
                    doubles(vals@),
                ),
                (None, None) => true,
                _ => false,
            }
        }
}

/// Executes an expression as a shader over singles: limb by limb where its
/// types need that. There is no result where the shader could not be run.
pub fn execute_expr_gpu<
    F: Fn(FloatOp, u64, u64) -> u64,
    S: Fn(u64) -> String,
    R: Fn(&String, &Vec<Vec<u32>>, usize) -> Option<Vec<u32>>,
>(engine: &HardwareEngine, expr: &Expr, show: &S, run: &R, f: &F) -> (r: Option<Expr>)
    requires
        is_float_unit(*f),
        is_printer(*show),
        is_shader_runner(*run),
        cpu_ready(expr@),
    ensures
        expr_needs_limbs(expr@) ==> r is Some && r->0 is Variable && r->0@ == interpreted(
            *f,
            expr@,
        ),
        !expr_needs_limbs(expr@) ==> gpu_execution(*f, *show, *run, expr@, r),
{
    if needs_limb_interpreter(expr) {
        return Some(execute_expr_limb_interpreter(engine, expr, f));
    }
    let kernel: MicroKernel = MicroKernel::generate(expr, f);
    let wide: Vec<Vec<u64>> = unpack_inputs(engine, &kernel.inputs, f);
    let ghost vars = distinct_vars(expr@, Seq::empty());
    assert(expr_views(kernel.inputs@) == vars);
    let mut bufs: Vec<Vec<u32>> = Vec::new();
    let mut k: usize = 0;
    while k < wide.len()
        invariant
            k <= wide@.len(),
            wide@.len() == vars.len(),
            expr_views(kernel.inputs@) == vars,
            forall|j: int|
                0 <= j < wide@.len() ==> (#[trigger] wide@[j])@ == var_doubles(
                    *f,
                    kernel.inputs@[j]@,
                ),
            bufs@.len() == k,
            forall|j: int|
                0 <= j < k ==> (#[trigger] bufs@[j])@ == singles(var_doubles(*f, vars[j])),
        decreases wide@.len() - k,
    {
        assert(vars[k as int] == kernel.inputs@[k as int]@);
        bufs.push(to_singles(wide[k].as_slice()));
        k = k + 1;
    }
    let text: String = generate_wgsl(&kernel, show);
    let out: Option<Vec<u32>> = run(&text, &bufs, kernel.size);
    assert(ran_shader(*f, *show, *run, expr@, text, bufs, out));
    match out {
        Some(vals) => {
            let back: Vec<u64> = to_doubles(vals.as_slice());
            Some(finish_result(engine, expr, "fused_gpu_result", &back, f))
        },
        None => None,
    }
}

/// How many groups of 64 invocations cover a number of elements.
pub fn workgroups(size: u32) -> (r: u32)
    requires
        size <= u32::MAX - 63,
    ensures
        64 * r >= size,
        64 * r < size + 64,
{
    (size + 63) / 64
}

// ─── Dispatch ────────────────────────────────────────────────────────────────

/// Where an expression is executed.
#[derive(Debug, Clone, Copy, PartialEq, Eq, Structural)]
pub enum Device {
    /// As a kernel over doubles.
    Cpu,
    /// As a shader.
    Gpu,
    /// As a kernel over packed inputs.
    Secondary,
    /// As a kernel over packed inputs, after a sample.
    Tertiary,
}

/// The device of a name; unknown names stand for the first one.
pub open spec fn device_named(name: Seq<char>) -> Device {
    if name == "gpu"@ {
        Device::Gpu
    } else if name == "secondary"@ {
        Device::Secondary
    } else if name == "tertiary"@ {
        Device::Tertiary
    } else {
        Device::Cpu
    }
}

/// The device of a name.
pub fn parse_device(name: &str) -> (r: Device)
    ensures
        r == device_named(name@),
{
    if same_text(name, "gpu") {
        Device::Gpu
    } else if same_text(name, "secondary") {
        Device::Secondary
    } else if same_text(name, "tertiary") {
        Device::Tertiary
    } else {
        Device::Cpu
    }
}

/// What execution as a shader yields, or over doubles where the shader could
/// not be run or the types need limbs.
pub open spec fn gpu_or_cpu_execution<
    F: Fn(FloatOp, u64, u64) -> u64,
    S: Fn(u64) -> String,
    G: Fn(&String, &Vec<Vec<u32>>, usize) -> Option<Vec<u32>>,
    C: Fn(&KernelPlan, &Vec<Vec<u64>>, usize) -> Vec<u64>,
>(f: F, show: S, run_gpu: G, run_cpu: C, e: ExprView, r: Expr) -> bool {
    if expr_needs_limbs(e) {
        r is Variable && r@ == interpreted(f, e)
    } else {
        gpu_execution(f, show, run_gpu, e, Some(r)) || (gpu_execution(f, show, run_gpu, e, None)
            && cpu_execution(f, run_cpu, e, r))
    }
}

fn execute_gpu_or_cpu<
    F: Fn(FloatOp, u64, u64) -> u64,
    S: Fn(u64) -> String,
    G: Fn(&String, &Vec<Vec<u32>>, usize) -> Option<Vec<u32>>,
    C: Fn(&KernelPlan, &Vec<Vec<u64>>, usize) -> Vec<u64>,
>(engine: &HardwareEngine, expr: &Expr, show: &S, run_gpu: &G, run_cpu: &C, f: &F) -> (r: Expr)
    requires
        is_float_unit(*f),
        is_printer(*show),
        is_shader_runner(*run_gpu),
        is_double_runner(*run_cpu),
        cpu_ready(expr@),
    ensures
        gpu_or_cpu_execution(*f, *show, *run_gpu, *run_cpu, expr@, r),
{
    match execute_expr_gpu(engine, expr, show, run_gpu, f) {
        Some(r) => r,
        None => execute_expr_cpu(engine, expr, run_cpu, f),
    }
}

/// What execution on a device yields.
pub open spec fn device_execution<
    F: Fn(FloatOp, u64, u64) -> u64,
    S: Fn(u64) -> String,
    C: Fn(&KernelPlan, &Vec<Vec<u64>>, usize) -> Vec<u64>,
    R: Fn(&KernelPlan, &Vec<PackedBuffer>, u32, usize) -> Option<Vec<u8>>,
    G: Fn(&String, &Vec<Vec<u32>>, usize) -> Option<Vec<u32>>,
>(
    f: F,
    show: S,
    run_cpu: C,
    run_packed: R,
    run_gpu: G,
    e: ExprView,
    device: Device,
    r: Option<Expr>,
) -> bool {
    match device {
        Device::Cpu => r is Some && cpu_execution(f, run_cpu, e, r->0),
        Device::Gpu => r is Some && gpu_or_cpu_execution(f, show, run_gpu, run_cpu, e, r->0),
        Device::Secondary => packed_execution(f, run_packed, e, dtype_width(expr_type(e)), r),
        Device::Tertiary => sampled_execution(f, run_packed, run_cpu, e, r),
    }
}

/// Executes an expression on the named device: on `"gpu"` as a shader, or over
/// doubles where that could not be run; on `"secondary"` over packed inputs; on
/// `"tertiary"` after a sample; else over doubles.
pub fn execute_expr_on_device<
    F: Fn(FloatOp, u64, u64) -> u64,
    S: Fn(u64) -> String,
    C: Fn(&KernelPlan, &Vec<Vec<u64>>, usize) -> Vec<u64>,
    R: Fn(&KernelPlan, &Vec<PackedBuffer>, u32, usize) -> Option<Vec<u8>>,
    G: Fn(&String, &Vec<Vec<u32>>, usize) -> Option<Vec<u32>>,
>(
    engine: &HardwareEngine,
    expr: &Expr,
    device: &str,
    show: &S,
    run_cpu: &C,
    run_packed: &R,
    run_gpu: &G,
    f: &F,
) -> (r: Option<Expr>)
    requires
        is_float_unit(*f),
        is_printer(*show),
        is_double_runner(*run_cpu),
        is_packed_runner(*run_packed),
        is_shader_runner(*run_gpu),
        cpu_ready(expr@),
        device_named(device@) is Secondary || device_named(device@) is Tertiary ==> packed_ready(
            expr@,
        ),
    ensures
        device_execution(
            *f,
            *show,
            *run_cpu,
            *run_packed,
            *run_gpu,
            expr@,
            device_named(device@),
            r,
        ),
{
    match parse_device(device) {
        Device::Gpu => Some(execute_gpu_or_cpu(engine, expr, show, run_gpu, run_cpu, f)),
        Device::Secondary => execute_expr_secondary(engine, expr, run_packed, f),
        Device::Tertiary => execute_expr_tertiary(engine, expr, run_packed, run_cpu, f),
        Device::Cpu => Some(execute_expr_cpu(engine, expr, run_cpu, f)),
    }
}

/// Executes an expression over doubles.
pub fn execute_expr<
    F: Fn(FloatOp, u64, u64) -> u64,
    C: Fn(&KernelPlan, &Vec<Vec<u64>>, usize) -> Vec<u64>,
>(engine: &HardwareEngine, expr: &Expr, run_cpu: &C, f: &F) -> (r: Expr)
    requires
        is_float_unit(*f),
        is_double_runner(*run_cpu),
        cpu_ready(expr@),
    ensures
        cpu_execution(*f, *run_cpu, expr@, r),
{
    execute_expr_cpu(engine, expr, run_cpu, f)
}

} // verus!
