//! Micro-kernels as compute shaders.

use crate::fuser::kernel::{FusedOp, MicroKernel};
use crate::text::{append_decimal, decimal, is_printer, print_word, printed};
use vstd::prelude::*;
use vstd::string::*;

verus! {

/// A fused operation as a shader expression, with constants as `show` prints
/// them.
pub open spec fn op_text<S: Fn(u64) -> String>(show: S, op: FusedOp) -> Seq<char>
    decreases op,
{
    match op {
        FusedOp::Input(i) => "inputs"@ + decimal(i as nat) + "[idx]"@,
        FusedOp::ConstVal(v) => printed(show, v),
        FusedOp::Add(l, r) => "("@ + op_text(show, *l) + " + "@ + op_text(show, *r) + ")"@,
        FusedOp::Sub(l, r) => "("@ + op_text(show, *l) + " - "@ + op_text(show, *r) + ")"@,
        FusedOp::Mul(l, r) => "("@ + op_text(show, *l) + " * "@ + op_text(show, *r) + ")"@,
        FusedOp::Div(l, r) => "("@ + op_text(show, *l) + " / "@ + op_text(show, *r) + ")"@,
    }
}

/// The declaration of input buffer `i`.
pub open spec fn input_binding(i: nat) -> Seq<char> {
    "@group(0) @binding("@ + decimal(i) + ") var<storage, read> inputs"@ + decimal(i)
        + ": array<f32>;\n"@
}

/// The declarations of the first `n` input buffers.
pub open spec fn input_bindings(n: nat) -> Seq<char>
    decreases n,
{
    if n == 0 {
        Seq::empty()
    } else {
        input_bindings((n - 1) as nat) + input_binding((n - 1) as nat)
    }
}

/// The declaration of the output buffer after `n` inputs.
pub open spec fn output_binding(n: nat) -> Seq<char> {
    "@group(0) @binding("@ + decimal(n) + ") var<storage, read_write> output: array<f32>;\n"@
}

/// The shader of a fused operation over `n` inputs.
pub open spec fn shader_text<S: Fn(u64) -> String>(show: S, op: FusedOp, n: nat) -> Seq<char> {
    "\n"@ + (input_bindings(n) + output_binding(n))
        + "\n@compute @workgroup_size(64)\nfn main(@builtin(global_invocation_id) gid: vec3<u32>) {\n    let idx = gid.x;\n    if (idx >= arrayLength(&output)) { return; }\n    output[idx] = "@
        + op_text(show, op) + ";\n}\n"@
}

/// Adds a fused operation to a text.
fn append_op<S: Fn(u64) -> String>(out: &mut String, op: &FusedOp, show: &S)
    requires
        is_printer(*show),
    ensures
        final(out)@ == old(out)@ + op_text(*show, *op),
    decreases *op,
{
    let ghost before = out@;
    match op {
        FusedOp::Input(i) => {
            out.append("inputs");
            append_decimal(out, *i);
            out.append("[idx]");
            assert(out@ =~= before + op_text(*show, *op));
        },
        FusedOp::ConstVal(v) => {
            let s: String = print_word(show, *v);
            out.append(s.as_str());
        },
        FusedOp::Add(l, r) => {
            out.append("(");
            append_op(out, l, show);
            out.append(" + ");
            append_op(out, r, show);
            out.append(")");
            assert(out@ =~= before + op_text(*show, *op));
        },
        FusedOp::Sub(l, r) => {
            out.append("(");
            append_op(out, l, show);
            out.append(" - ");
            append_op(out, r, show);
            out.append(")");
            assert(out@ =~= before + op_text(*show, *op));
        },
        FusedOp::Mul(l, r) => {
            out.append("(");
            append_op(out, l, show);
            out.append(" * ");
            append_op(out, r, show);
            out.append(")");
            assert(out@ =~= before + op_text(*show, *op));
        },
        FusedOp::Div(l, r) => {
            out.append("(");
            append_op(out, l, show);
            out.append(" / ");
            append_op(out, r, show);
            out.append(")");
            assert(out@ =~= before + op_text(*show, *op));
        },
    }
}

/// A fused operation as a shader expression.
pub fn wgsl_expr<S: Fn(u64) -> String>(op: &FusedOp, show: &S) -> (r: String)
    requires
        is_printer(*show),
    ensures
        r@ == op_text(*show, *op),
{
    let mut out: String = String::new();
    append_op(&mut out, op, show);
    assert(out@ =~= op_text(*show, *op));
    out
}

/// The compute shader of a micro-kernel: each input bound in order, then the
/// output, and one element for each invocation.
pub fn generate_wgsl<S: Fn(u64) -> String>(kernel: &MicroKernel, show: &S) -> (r: String)
    requires
        is_printer(*show),
    ensures
        r@ == shader_text(*show, kernel.op, kernel.inputs@.len()),
{
    let n: usize = kernel.inputs.len();
    let mut out: String = String::new();
    out.append("\n");
    let mut i: usize = 0;
    while i < n
        invariant
            i <= n,
            out@ == "\n"@ + input_bindings(i as nat),
        decreases n - i,
    {
        out.append("@group(0) @binding(");
        append_decimal(&mut out, i);
        out.append(") var<storage, read> inputs");
        append_decimal(&mut out, i);
        out.append(": array<f32>;\n");
        assert(out@ =~= "\n"@ + input_bindings((i + 1) as nat));
        i = i + 1;
    }
    out.append("@group(0) @binding(");
    append_decimal(&mut out, n);
    out.append(") var<storage, read_write> output: array<f32>;\n");
    out.append("\n@compute @workgroup_size(64)\nfn main(@builtin(global_invocation_id) gid: vec3<u32>) {\n    let idx = gid.x;\n    if (idx >= arrayLength(&output)) { return; }\n    output[idx] = ");
    append_op(&mut out, &kernel.op, show);
    out.append(";\n}\n");
    assert(out@ =~= shader_text(*show, kernel.op, kernel.inputs@.len()));
    out
}

} // verus!
