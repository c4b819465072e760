//! Execution of graphs on a graphics processor.

pub mod shader_laws;

use crate::elements::{
    addressable, all_non_negative, are_non_negative, decodable, decoded_values, pack_values,
    packed_values, unpack_values,
};
use crate::fuser::exec::{doubles, is_shader_runner, singles, to_doubles, to_singles};
use crate::fuser::kernel::{constants_measurable, expr_views};
use crate::graph::{acyclic, node_tree, operands_before, ArenaGraph, Node, NodeId};
use crate::hardware::HardwareEngine;
use crate::ir::{
    expr_countable, expr_scale, expr_size, expr_steal, expr_type, flat_var, flat_view, Expr,
    ExprView,
};
use crate::soft_float::{f32_from_f64, f32_of_f64, is_float_unit, F32Bits, FloatOp};
use crate::text::{append_decimal, decimal, is_printer, print_word, printed};
use crate::types::{codable, dtype_width, scalar_double, DataType};
use vstd::prelude::*;
use vstd::string::*;

verus! {

// ─── The shader ──────────────────────────────────────────────────────────────

/// How many variables an expression reads, each use counted.
pub open spec fn use_count(e: ExprView) -> nat
    decreases e,
{
    match e {
        ExprView::Variable { .. } => 1,
        ExprView::Constant { .. } => 0,
        ExprView::Add { left, right } => use_count(*left) + use_count(*right),
        ExprView::Sub { left, right } => use_count(*left) + use_count(*right),
        ExprView::Mul { left, right } => use_count(*left) + use_count(*right),
        ExprView::Div { left, right } => use_count(*left) + use_count(*right),
        ExprView::DequantizeMatmul { .. } => 0,
    }
}

/// The variables that an expression reads, each use by itself, from the left.
pub open spec fn used_vars(e: ExprView) -> Seq<ExprView>
    decreases e,
{
    match e {
        ExprView::Variable { .. } => seq![e],
        ExprView::Constant { .. } => Seq::empty(),
        ExprView::Add { left, right } => used_vars(*left) + used_vars(*right),
        ExprView::Sub { left, right } => used_vars(*left) + used_vars(*right),
        ExprView::Mul { left, right } => used_vars(*left) + used_vars(*right),
        ExprView::Div { left, right } => used_vars(*left) + used_vars(*right),
        ExprView::DequantizeMatmul { .. } => Seq::empty(),
    }
}

/// As many variables are listed as are counted.
pub proof fn lemma_use_count(e: ExprView)
    ensures
        used_vars(e).len() == use_count(e),
    decreases e,
{
    match e {
        ExprView::Add { left, right } => {
            lemma_use_count(*left);
            lemma_use_count(*right);
        },
        ExprView::Sub { left, right } => {
            lemma_use_count(*left);
            lemma_use_count(*right);
        },
        ExprView::Mul { left, right } => {
            lemma_use_count(*left);
            lemma_use_count(*right);
        },
        ExprView::Div { left, right } => {
            lemma_use_count(*left);
            lemma_use_count(*right);
        },
        _ => {},
    }
}

/// An expression as a shader expression whose first input has number `n`;
/// constants are printed as singles.
pub open spec fn tree_text<F: Fn(FloatOp, u64, u64) -> u64, S: Fn(u64) -> String>(
    f: F,
    show: S,
    e: ExprView,
    n: nat,
) -> Seq<char>
    decreases e,
{
    match e {
        ExprView::Variable { .. } => "input_"@ + decimal(n) + "[global_id.x]"@,
        ExprView::Constant { val } => printed(show, f32_of_f64(scalar_double(f, val)) as u64),
        ExprView::Add { left, right } => "("@ + tree_text(f, show, *left, n) + " + "@ + tree_text(
            f,
            show,
            *right,
            n + use_count(*left),
        ) + ")"@,
        ExprView::Sub { left, right } => "("@ + tree_text(f, show, *left, n) + " - "@ + tree_text(
            f,
            show,
            *right,
            n + use_count(*left),
        ) + ")"@,
        ExprView::Mul { left, right } => "("@ + tree_text(f, show, *left, n) + " * "@ + tree_text(
            f,
            show,
            *right,
            n + use_count(*left),
        ) + ")"@,
        ExprView::Div { left, right } => "("@ + tree_text(f, show, *left, n) + " / "@ + tree_text(
            f,
            show,
            *right,
            n + use_count(*left),
        ) + ")"@,
        ExprView::DequantizeMatmul { .. } => "0.0"@,
    }
}

/// The declaration of input `i`.
pub open spec fn input_declaration(i: nat) -> Seq<char> {
    "\n@group(0) @binding("@ + decimal(i + 1) + ")\nvar<storage, read> input_"@ + decimal(i)
        + ": array<f32>;\n"@
}

/// The declarations of the first `n` inputs.
pub open spec fn input_declarations(n: nat) -> Seq<char>
    decreases n,
{
    if n == 0 {
        Seq::empty()
    } else {
        input_declarations((n - 1) as nat) + input_declaration((n - 1) as nat)
    }
}

/// The shader of an expression for `size` elements.
pub open spec fn compute_shader<F: Fn(FloatOp, u64, u64) -> u64, S: Fn(u64) -> String>(
    f: F,
    show: S,
    e: ExprView,
    inputs: nat,
    size: nat,
) -> Seq<char> {
    "\n@group(0) @binding(0)\nvar<storage, read_write> output: array<f32>;\n"@
        + input_declarations(inputs)
        + "\n@compute\n@workgroup_size(64)\nfn main(@builtin(global_invocation_id) global_id: vec3<u32>) {\n    if (global_id.x >= "@
        + decimal(size) + "u) { return; }\n    output[global_id.x] = "@ + tree_text(f, show, e, 0)
        + ";\n}\n"@
}

/// Adds a node to a shader expression, and gives the number of the next input.
fn build_expr<F: Fn(FloatOp, u64, u64) -> u64, S: Fn(u64) -> String>(
    out: &mut String,
    id: NodeId,
    graph: &ArenaGraph,
    input_count: usize,
    show: &S,
    f: &F,
) -> (next: usize)
    requires
        is_float_unit(*f),
        is_printer(*show),
        acyclic(graph.views()),
        id < graph.nodes@.len(),
        constants_measurable(node_tree(graph.views(), id as nat)),
        input_count + use_count(node_tree(graph.views(), id as nat)) <= usize::MAX,
    ensures
        final(out)@ == old(out)@ + tree_text(
            *f,
            *show,
            node_tree(graph.views(), id as nat),
            input_count as nat,
        ),
        next == input_count + use_count(node_tree(graph.views(), id as nat)),
    decreases id,
{
    let ghost before = out@;
    let ghost e = node_tree(graph.views(), id as nat);
    let ghost n = input_count as nat;
    assert(operands_before(graph.views()[id as int], id as nat));
    match &graph.nodes[id] {
        Node::Variable { .. } => {
            out.append("input_");
            append_decimal(out, input_count);
            out.append("[global_id.x]");
            assert(out@ =~= before + tree_text(*f, *show, e, n));
            input_count + 1
        },
        Node::Constant { val } => {
            let v: u32 = f32_from_f64(val.to_double(f));
            let s: String = print_word(show, v as u64);
            out.append(s.as_str());
            input_count
        },
        Node::Add(l, r) => {
            out.append("(");
            let mid: usize = build_expr(out, *l, graph, input_count, show, f);
            out.append(" + ");
            let next: usize = build_expr(out, *r, graph, mid, show, f);
            out.append(")");
            assert(out@ =~= before + tree_text(*f, *show, e, n));
            next
        },
        Node::Sub(l, r) => {
            out.append("(");
            let mid: usize = build_expr(out, *l, graph, input_count, show, f);
            out.append(" - ");
            let next: usize = build_expr(out, *r, graph, mid, show, f);
            out.append(")");
            assert(out@ =~= before + tree_text(*f, *show, e, n));
            next
        },
        Node::Mul(l, r) => {
            out.append("(");
            let mid: usize = build_expr(out, *l, graph, input_count, show, f);
            out.append(" * ");
            let next: usize = build_expr(out, *r, graph, mid, show, f);
            out.append(")");
            assert(out@ =~= before + tree_text(*f, *show, e, n));
            next
        },
        Node::Div(l, r) => {
            out.append("(");
            let mid: usize = build_expr(out, *l, graph, input_count, show, f);
            out.append(" / ");
            let next: usize = build_expr(out, *r, graph, mid, show, f);
            out.append(")");
            assert(out@ =~= before + tree_text(*f, *show, e, n));
            next
        },
        Node::DequantizeMatmul(..) => {
            out.append("0.0");
            input_count
        },
    }
}

/// The shader of a graph with the given number of inputs.
pub fn build_shader<F: Fn(FloatOp, u64, u64) -> u64, S: Fn(u64) -> String>(
    graph: &ArenaGraph,
    inputs: usize,
    size: usize,
    show: &S,
    f: &F,
) -> (r: String)
    requires
        is_float_unit(*f),
        is_printer(*show),
        graph.wf(),
        constants_measurable(graph.tree()),
        use_count(graph.tree()) <= usize::MAX,
        inputs < usize::MAX,
    ensures
        r@ == compute_shader(*f, *show, graph.tree(), inputs as nat, size as nat),
{
    let mut out: String = String::new();
    out.append("\n@group(0) @binding(0)\nvar<storage, read_write> output: array<f32>;\n");
    let ghost head = "\n@group(0) @binding(0)\nvar<storage, read_write> output: array<f32>;\n"@;
    assert(out@ =~= head + input_declarations(0));
    let mut i: usize = 0;
    while i < inputs
        invariant
            i <= inputs < usize::MAX,
            out@ == head + input_declarations(i as nat),
        decreases inputs - i,
    {
        out.append("\n@group(0) @binding(");
        append_decimal(&mut out, i + 1);
        out.append(")\nvar<storage, read> input_");
        append_decimal(&mut out, i);
        out.append(": array<f32>;\n");
        assert(out@ =~= head + input_declarations((i + 1) as nat));
        i = i + 1;
    }
    out.append("\n@compute\n@workgroup_size(64)\nfn main(@builtin(global_invocation_id) global_id: vec3<u32>) {\n    if (global_id.x >= ");
    append_decimal(&mut out, size);
    out.append("u) { return; }\n    output[global_id.x] = ");
    build_expr(&mut out, graph.root, graph, 0, show, f);
    out.append(";\n}\n");
    assert(out@ =~= compute_shader(*f, *show, graph.tree(), inputs as nat, size as nat));
    out
}

// ─── Inputs and output ───────────────────────────────────────────────────────

/// Collects the variables that an expression reads.
fn collect_vars(expr: &Expr, vars: &mut Vec<Expr>)
    ensures
        expr_views(final(vars)@) == expr_views(old(vars)@) + used_vars(expr@),
    decreases *expr,
{
    let ghost before = expr_views(vars@);
    match expr {
        Expr::Variable { .. } => {
            vars.push(expr.clone());
            assert(expr_views(vars@) =~= before + used_vars(expr@));
        },
        Expr::Add { left, right } => {
            collect_vars(left, vars);
            collect_vars(right, vars);
            assert(expr_views(vars@) =~= before + used_vars(expr@));
        },
        Expr::Sub { left, right } => {
            collect_vars(left, vars);
            collect_vars(right, vars);
            assert(expr_views(vars@) =~= before + used_vars(expr@));
        },
        Expr::Mul { left, right } => {
            collect_vars(left, vars);
            collect_vars(right, vars);
            assert(expr_views(vars@) =~= before + used_vars(expr@));
        },
        Expr::Div { left, right } => {
            collect_vars(left, vars);
            collect_vars(right, vars);
            assert(expr_views(vars@) =~= before + used_vars(expr@));
        },
        _ => {
            assert(expr_views(vars@) =~= before + used_vars(expr@));
        },
    }
}

/// That `size` elements of a variable can be taken as doubles.
pub open spec fn gpu_input_ready(v: ExprView, size: nat) -> bool {
    match v {
        ExprView::Variable { dtype, steal_sign, .. } => decodable(dtype, steal_sign)
            && addressable(size, dtype_width(dtype) as nat),
        _ => false,
    }
}

/// The first `size` elements of a variable as singles.
pub open spec fn gpu_input<F: Fn(FloatOp, u64, u64) -> u64>(
    f: F,
    v: ExprView,
    size: nat,
) -> Seq<u32> {
    match v {
        ExprView::Variable { dtype, data, scale, steal_sign, .. } => singles(
            decoded_values(f, data, size, dtype, scale, steal_sign),
        ),
        _ => Seq::empty(),
    }
}

/// The variables that an expression reads, each as `size` singles.
pub fn gpu_inputs<F: Fn(FloatOp, u64, u64) -> u64>(
    engine: &HardwareEngine,
    expr: &Expr,
    size: usize,
    f: &F,
) -> (r: Vec<Vec<F32Bits>>)
    requires
        is_float_unit(*f),
        forall|k: int|
            0 <= k < used_vars(expr@).len() ==> gpu_input_ready(
                #[trigger] used_vars(expr@)[k],
                size as nat,
            ),
    ensures
        r@.len() == used_vars(expr@).len(),
        forall|k: int|
            0 <= k < r@.len() ==> (#[trigger] r@[k])@ == gpu_input(
                *f,
                used_vars(expr@)[k],
                size as nat,
            ),
{
    let mut vars: Vec<Expr> = Vec::new();
    collect_vars(expr, &mut vars);
    let ghost used = used_vars(expr@);
    assert(expr_views(vars@) =~= used);
    let mut r: Vec<Vec<u32>> = Vec::new();
    let mut k: usize = 0;
    while k < vars.len()
        invariant
            is_float_unit(*f),
            k <= vars@.len(),
            expr_views(vars@) == used,
            forall|j: int|
                0 <= j < used.len() ==> gpu_input_ready(#[trigger] used[j], size as nat),
            r@.len() == k,
            forall|j: int|
                0 <= j < k ==> (#[trigger] r@[j])@ == gpu_input(*f, used[j], size as nat),
        decreases vars@.len() - k,
    {
        assert(used[k as int] == vars@[k as int]@);
        if let Expr::Variable { dtype, packed_data, scale, steal_sign, .. } = &vars[k] {
            let vals: Vec<u64> = unpack_values(
                engine,
                packed_data.as_slice(),
                size,
                *dtype,
                *scale,
                *steal_sign,
                f,
            );
            r.push(to_singles(vals.as_slice()));
        }
        k = k + 1;
    }
    r
}

/// The array made of the singles that a shader yields: packed under the type of the
/// expression, without a sign bit where the expression has none and no result is
/// negative.
pub open spec fn gpu_result<F: Fn(FloatOp, u64, u64) -> u64>(
    f: F,
    e: ExprView,
    out: Seq<u32>,
) -> ExprView {
    let s = expr_steal(e) && all_non_negative(doubles(out));
    flat_view(
        0,
        "gpu_res"@,
        expr_type(e),
        expr_size(e) as usize,
        packed_values(f, doubles(out), expr_type(e), expr_scale(e), s, false),
        expr_scale(e),
        s,
    )
}

/// Packs the singles that a shader yields.
pub fn finish_gpu<F: Fn(FloatOp, u64, u64) -> u64>(
    engine: &HardwareEngine,
    expr: &Expr,
    out: &Vec<F32Bits>,
    f: &F,
) -> (r: Expr)
    requires
        is_float_unit(*f),
        expr_countable(expr@),
        codable(expr_type(expr@), false),
        out@.len() == expr_size(expr@),
        addressable(expr_size(expr@), dtype_width(expr_type(expr@)) as nat),
    ensures
        r is Variable,
        r@ == gpu_result(*f, expr@, out@),
{
    let d: DataType = expr.data_type();
    let scale: Option<u32> = expr.get_scale();
    let vals: Vec<u64> = to_doubles(out.as_slice());
    let s: bool = expr.steal_sign() && are_non_negative(vals.as_slice());
    let data: Vec<u8> = pack_values(engine, vals.as_slice(), d, scale, s, false, f);
    flat_var(0, "gpu_res", d, expr.size(), data, scale, s)
}

/// That an expression can be executed as a shader.
pub open spec fn gpu_ready(e: ExprView) -> bool {
    &&& expr_countable(e)
    &&& constants_measurable(e)
    &&& use_count(e) < usize::MAX
    &&& codable(expr_type(e), false)
    &&& addressable(expr_size(e), dtype_width(expr_type(e)) as nat)
    &&& forall|k: int|
        0 <= k < used_vars(e).len() ==> gpu_input_ready(#[trigger] used_vars(e)[k], expr_size(e))
}

/// What a run of the shader of an expression gave.
pub open spec fn ran_compute<
    F: Fn(FloatOp, u64, u64) -> u64,
    S: Fn(u64) -> String,
    R: Fn(&String, &Vec<Vec<u32>>, usize) -> Option<Vec<u32>>,
>(
    f: F,
    show: S,
    run: R,
    e: ExprView,
    text: String,
    bufs: Vec<Vec<u32>>,
    out: Option<Vec<u32>>,
) -> bool {
    &&& text@ == compute_shader(f, show, e, use_count(e), expr_size(e))
    &&& bufs@.len() == used_vars(e).len()
    &&& forall|k: int|
        0 <= k < bufs@.len() ==> (#[trigger] bufs@[k])@ == gpu_input(
            f,
            used_vars(e)[k],
            expr_size(e),
        )
    &&& run.ensures((&text, &bufs, expr_size(e) as usize), out)
}

/// Executes an expression as a shader, which the caller's function runs. An
/// expression without elements is its own result. There is no result where the
/// shader could not be run.
pub fn execute_gpu<
    F: Fn(FloatOp, u64, u64) -> u64,
    S: Fn(u64) -> String,
    R: Fn(&String, &Vec<Vec<u32>>, usize) -> Option<Vec<u32>>,
>(
    engine: &HardwareEngine,
    expr: &Expr,
    graph: &ArenaGraph,
    show: &S,
    run: &R,
    f: &F,
) -> (r: Option<Expr>)
    requires
        is_float_unit(*f),
        is_printer(*show),
        is_shader_runner(*run),
        graph.wf(),
        graph.tree() == expr@,
        gpu_ready(expr@),
    ensures
        expr_size(expr@) == 0 ==> (r matches Some(x) && x@ == expr@),
        expr_size(expr@) > 0 ==> exists|
            text: String,
            bufs: Vec<Vec<u32>>,
            out: Option<Vec<u32>>,
        |
            {
                &&& #[trigger] ran_compute(*f, *show, *run, expr@, text, bufs, out)
                &&& match (r, out) {
                    (Some(x), Some(vals)) => x is Variable && x@ == gpu_result(
                        *f,
                        expr@,
                        vals@,
                    ),
                    (None, None) => true,
                    _ => false,
                }
            },
{
    let size: usize = expr.size();
    if size == 0 {
        return Some(expr.clone());
    }
    let bufs: Vec<Vec<u32>> = gpu_inputs(engine, expr, size, f);
    proof {
        lemma_use_count(expr@);
    }
    let text: String = build_shader(graph, bufs.len(), size, show, f);
    let out: Option<Vec<u32>> = run(&text, &bufs, size);
    assert(ran_compute(*f, *show, *run, expr@, text, bufs, out));
    match out {
        Some(vals) => Some(finish_gpu(engine, expr, &vals, f)),
        None => None,
    }
}

} // verus!
