//! What the shaders of micro-kernels compute: their text, read as a program, binds the
//! inputs in order and the output behind them, and stores for each element what the
//! fused operation yields.

use crate::fuser::exec::{ran_shader, singles, var_doubles};
use crate::fuser::kernel::{
    distinct_vars, elementwise, expr_value, fused, law_fusion_keeps_value, lemma_distinct_vars,
    lemma_fused_reads, op_reads_below, op_value, var_ids, FusedOp,
};
use crate::fuser::laws::element_double;
use crate::fuser::wgsl::{input_binding, input_bindings, op_text, output_binding, shader_text};
use crate::ir::{expr_size, ExprView};
use crate::shader::{
    binding_of, bound_from, contents, expect, is_break, is_read_with, lemma_binding,
    lemma_constant_read, lemma_expect, lemma_input_read, lemma_number_read, lemma_operation,
    numbered_from, read_number, read_term, reads_as, starts, stored_element, Shader,
};
use crate::soft_float::{f32_of_f64, f64_of_f32, FloatOp};
use crate::text::{decimal, printed};
use vstd::prelude::*;

verus! {

// ─── Operations ──────────────────────────────────────────────────────────────

/// That the constants of an operation are printed so that `number` reads them back.
pub open spec fn op_constants_read<S: Fn(u64) -> String>(
    show: S,
    number: spec_fn(Seq<char>) -> u64,
    op: FusedOp,
) -> bool
    decreases op,
{
    match op {
        FusedOp::Input(_) => true,
        FusedOp::ConstVal(v) => reads_as(number, "inputs"@, printed(show, v), v),
        FusedOp::Add(l, r) => op_constants_read(show, number, *l) && op_constants_read(
            show,
            number,
            *r,
        ),
        FusedOp::Sub(l, r) => op_constants_read(show, number, *l) && op_constants_read(
            show,
            number,
            *r,
        ),
        FusedOp::Mul(l, r) => op_constants_read(show, number, *l) && op_constants_read(
            show,
            number,
            *r,
        ),
        FusedOp::Div(l, r) => op_constants_read(show, number, *l) && op_constants_read(
            show,
            number,
            *r,
        ),
    }
}

/// The text of an operation is read as an expression that yields what the operation
/// yields.
proof fn lemma_op_read<F: Fn(FloatOp, u64, u64) -> u64, S: Fn(u64) -> String>(
    f: F,
    show: S,
    number: spec_fn(Seq<char>) -> u64,
    op: FusedOp,
    n: nat,
    xs: spec_fn(nat) -> u64,
    ys: Seq<u64>,
    rest: Seq<char>,
)
    requires
        op_reads_below(op, n),
        op_constants_read(show, number, op),
        forall|k: int| 0 <= k < n ==> xs(k as nat) == #[trigger] ys[k],
        rest.len() > 0,
        is_break(rest[0]),
    ensures
        is_read_with(
            f,
            number,
            xs,
            "inputs"@,
            "[idx]"@,
            op_text(show, op),
            rest,
            op_value(f, op, ys),
        ),
    decreases op,
{
    let pre = "inputs"@;
    let post = "[idx]"@;
    reveal_strlit("inputs");
    reveal_strlit("[idx]");
    match op {
        FusedOp::Input(i) => {
            lemma_input_read(pre, i as nat, post, rest);
            assert(xs(i as nat) == ys[i as int]);
        },
        FusedOp::ConstVal(v) => {
            lemma_constant_read(number, pre, post, printed(show, v), v, rest);
        },
        FusedOp::Add(l, r) => {
            reveal_strlit(" + ");
            let b = op_text(show, *r);
            lemma_op_read(f, show, number, *l, n, xs, ys, " + "@ + b + seq![')'] + rest);
            lemma_op_read(f, show, number, *r, n, xs, ys, seq![')'] + rest);
            lemma_operation(
                f,
                number,
                xs,
                pre,
                post,
                FloatOp::Add,
                " + "@,
                op_text(show, *l),
                op_value(f, *l, ys),
                b,
                op_value(f, *r, ys),
                rest,
            );
        },
        FusedOp::Sub(l, r) => {
            reveal_strlit(" - ");
            let b = op_text(show, *r);
            lemma_op_read(f, show, number, *l, n, xs, ys, " - "@ + b + seq![')'] + rest);
            lemma_op_read(f, show, number, *r, n, xs, ys, seq![')'] + rest);
            lemma_operation(
                f,
                number,
                xs,
                pre,
                post,
                FloatOp::Sub,
                " - "@,
                op_text(show, *l),
                op_value(f, *l, ys),
                b,
                op_value(f, *r, ys),
                rest,
            );
        },
        FusedOp::Mul(l, r) => {
            reveal_strlit(" * ");
            let b = op_text(show, *r);
            lemma_op_read(f, show, number, *l, n, xs, ys, " * "@ + b + seq![')'] + rest);
            lemma_op_read(f, show, number, *r, n, xs, ys, seq![')'] + rest);
            lemma_operation(
                f,
                number,
                xs,
                pre,
                post,
                FloatOp::Mul,
                " * "@,
                op_text(show, *l),
                op_value(f, *l, ys),
                b,
                op_value(f, *r, ys),
                rest,
            );
        },
        FusedOp::Div(l, r) => {
            reveal_strlit(" / ");
            let b = op_text(show, *r);
            lemma_op_read(f, show, number, *l, n, xs, ys, " / "@ + b + seq![')'] + rest);
            lemma_op_read(f, show, number, *r, n, xs, ys, seq![')'] + rest);
            lemma_operation(
                f,
                number,
                xs,
                pre,
                post,
                FloatOp::Div,
                " / "@,
                op_text(show, *l),
                op_value(f, *l, ys),
                b,
                op_value(f, *r, ys),
                rest,
            );
        },
    }
}

// ─── Shaders ─────────────────────────────────────────────────────────────────

/// The declaration of an input at the start of a text: its binding and its number, and
/// the text behind it.
pub open spec fn read_bound_input(s: Seq<char>) -> Option<((nat, nat), Seq<char>)> {
    match expect(s, "@group(0) @binding("@) {
        None => None,
        Some(r1) => match read_number(r1) {
            None => None,
            Some((b, r2)) => match expect(r2, ") var<storage, read> inputs"@) {
                None => None,
                Some(r3) => match read_number(r3) {
                    None => None,
                    Some((k, r4)) => match expect(r4, ": array<f32>;\n"@) {
                        None => None,
                        Some(r5) => Some(((b, k), r5)),
                    },
                },
            },
        },
    }
}

/// The declarations of inputs at the start of a text, and the text behind them.
pub open spec fn read_bound_inputs(s: Seq<char>) -> (Seq<(nat, nat)>, Seq<char>)
    decreases s.len(),
{
    match read_bound_input(s) {
        None => (Seq::empty(), s),
        Some((x, r)) => if r.len() < s.len() {
            (seq![x] + read_bound_inputs(r).0, read_bound_inputs(r).1)
        } else {
            (Seq::empty(), s)
        },
    }
}

/// The declaration of the output at the start of a text: its binding, and the text
/// behind it.
pub open spec fn read_bound_output(s: Seq<char>) -> Option<(nat, Seq<char>)> {
    match expect(s, "@group(0) @binding("@) {
        None => None,
        Some(r1) => match read_number(r1) {
            None => None,
            Some((b, r2)) => match expect(
                r2,
                ") var<storage, read_write> output: array<f32>;\n"@,
            ) {
                None => None,
                Some(r3) => Some((b, r3)),
            },
        },
    }
}

/// The shader that a text is: the inputs, the output, and an expression that is stored
/// for each element of the output.
pub open spec fn read_kernel_shader(s: Seq<char>) -> Option<Shader> {
    match expect(s, "\n"@) {
        None => None,
        Some(r1) => {
            let (inputs, r2) = read_bound_inputs(r1);
            match read_bound_output(r2) {
                None => None,
                Some((output, r3)) => read_kernel(inputs, output, r3),
            }
        },
    }
}

/// The rest of a shader behind its declarations.
pub open spec fn read_kernel(inputs: Seq<(nat, nat)>, output: nat, s: Seq<char>) -> Option<Shader> {
    match expect(
        s,
        "\n@compute @workgroup_size(64)\nfn main(@builtin(global_invocation_id) gid: vec3<u32>) {\n    let idx = gid.x;\n    if (idx >= arrayLength(&output)) { return; }\n    output[idx] = "@,
    ) {
        None => None,
        Some(r) => match read_term(r, "inputs"@, "[idx]"@) {
            Some((term, q)) => if q == ";\n}\n"@ {
                Some(Shader { output, inputs, bound: None, term })
            } else {
                None
            },
            None => None,
        },
    }
}

/// The declarations of the inputs from number `i` on.
spec fn bindings_from(i: nat, n: nat) -> Seq<char>
    decreases n - i,
{
    if i < n {
        input_binding(i) + bindings_from(i + 1, n)
    } else {
        Seq::empty()
    }
}

proof fn lemma_bindings(i: nat, n: nat)
    requires
        i <= n,
    ensures
        input_bindings(i) + bindings_from(i, n) == input_bindings(n),
    decreases n - i,
{
    if i < n {
        lemma_bindings(i + 1, n);
        assert(input_bindings(i) + bindings_from(i, n) =~= input_bindings(i + 1) + bindings_from(
            i + 1,
            n,
        ));
    } else {
        assert(input_bindings(i) + bindings_from(i, n) =~= input_bindings(n));
    }
}

proof fn lemma_input_bound(i: nat, rest: Seq<char>)
    ensures
        read_bound_input(input_binding(i) + rest) == Some(((i, i), rest)),
        input_binding(i).len() > 0,
{
    reveal_strlit("@group(0) @binding(");
    reveal_strlit(") var<storage, read> inputs");
    reveal_strlit(": array<f32>;\n");
    let a = "@group(0) @binding("@;
    let b = ") var<storage, read> inputs"@;
    let c = ": array<f32>;\n"@;
    let r4 = c + rest;
    let r3 = decimal(i) + r4;
    let r2 = b + r3;
    let r1 = decimal(i) + r2;
    assert(input_binding(i) + rest =~= a + r1);
    lemma_expect(a, r1);
    lemma_number_read(i, r2);
    lemma_expect(b, r3);
    lemma_number_read(i, r4);
    lemma_expect(c, rest);
}

proof fn lemma_inputs_bound(i: nat, n: nat, rest: Seq<char>)
    requires
        i <= n,
        read_bound_input(rest) is None,
    ensures
        read_bound_inputs(bindings_from(i, n) + rest).0 == numbered_from(0, n).subrange(
            i as int,
            n as int,
        ),
        read_bound_inputs(bindings_from(i, n) + rest).1 == rest,
    decreases n - i,
{
    let s = bindings_from(i, n) + rest;
    if i < n {
        let q = bindings_from(i + 1, n) + rest;
        assert(s =~= input_binding(i) + q);
        lemma_input_bound(i, q);
        lemma_inputs_bound(i + 1, n, rest);
        let all = numbered_from(0, n);
        assert(seq![all[i as int]] + all.subrange(i as int + 1, n as int) =~= all.subrange(
            i as int,
            n as int,
        ));
    } else {
        assert(s =~= rest);
        assert(numbered_from(0, n).subrange(i as int, n as int) =~= Seq::empty());
    }
}

/// The output is declared behind the inputs, and is none of them.
proof fn lemma_output_bound(n: nat, rest: Seq<char>)
    ensures
        read_bound_input(output_binding(n) + rest) is None,
        read_bound_output(output_binding(n) + rest) == Some((n, rest)),
{
    let a = "@group(0) @binding("@;
    let b = ") var<storage, read> inputs"@;
    let c = ") var<storage, read_write> output: array<f32>;\n"@;
    reveal_strlit(") var<storage, read> inputs");
    reveal_strlit(") var<storage, read_write> output: array<f32>;\n");
    let r2 = c + rest;
    let r1 = decimal(n) + r2;
    assert(output_binding(n) + rest =~= a + r1);
    lemma_expect(a, r1);
    lemma_number_read(n, r2);
    lemma_expect(c, rest);
    assert(b[19] == '>' && r2[19] == '_');
    if starts(r2, b) {
        assert(r2.subrange(0, b.len() as int)[19] == b[19]);
    }
}

/// What the shader of an operation is read as.
proof fn lemma_kernel_shader_read<S: Fn(u64) -> String>(show: S, op: FusedOp, n: nat)
    ensures
        read_kernel_shader(shader_text(show, op, n)) == read_kernel(
            numbered_from(0, n),
            n,
            "\n@compute @workgroup_size(64)\nfn main(@builtin(global_invocation_id) gid: vec3<u32>) {\n    let idx = gid.x;\n    if (idx >= arrayLength(&output)) { return; }\n    output[idx] = "@
                + (op_text(show, op) + ";\n}\n"@),
        ),
{
    let a = "\n"@;
    let c = "\n@compute @workgroup_size(64)\nfn main(@builtin(global_invocation_id) gid: vec3<u32>) {\n    let idx = gid.x;\n    if (idx >= arrayLength(&output)) { return; }\n    output[idx] = "@;
    let r3 = c + (op_text(show, op) + ";\n}\n"@);
    let r2 = output_binding(n) + r3;
    let r1 = bindings_from(0, n) + r2;
    lemma_bindings(0, n);
    assert(input_bindings(0) + bindings_from(0, n) =~= bindings_from(0, n));
    assert(shader_text(show, op, n) =~= a + r1);
    lemma_expect(a, r1);
    lemma_output_bound(n, r3);
    lemma_inputs_bound(0, n, r2);
    assert(numbered_from(0, n).subrange(0, n as int) =~= numbered_from(0, n));
}

/// The shader of a micro-kernel computes its operation. Its text is read as a program
/// that, with the inputs bound in order and the output behind them, stores for each
/// element of the output what the operation yields for that element of the inputs.
pub proof fn law_kernel_shader_computes_operation<
    F: Fn(FloatOp, u64, u64) -> u64,
    S: Fn(u64) -> String,
>(
    f: F,
    show: S,
    number: spec_fn(Seq<char>) -> u64,
    op: FusedOp,
    bufs: Seq<Seq<u32>>,
    len: nat,
)
    requires
        op_reads_below(op, bufs.len()),
        op_constants_read(show, number, op),
    ensures
        read_kernel_shader(shader_text(show, op, bufs.len())) matches Some(sh) && {
            &&& sh.output == bufs.len()
            &&& forall|i: nat| #[trigger]
                stored_element(f, number, bound_from(0, bufs), sh, len, i) == if i < len {
                    Some(
                        f32_of_f64(
                            op_value(
                                f,
                                op,
                                Seq::new(bufs.len(), |k: int| f64_of_f32(bufs[k][i as int])),
                            ),
                        ),
                    )
                } else {
                    None
                }
        },
{
    let n = bufs.len();
    let text = op_text(show, op);
    let end = ";\n}\n"@;
    let c = "\n@compute @workgroup_size(64)\nfn main(@builtin(global_invocation_id) gid: vec3<u32>) {\n    let idx = gid.x;\n    if (idx >= arrayLength(&output)) { return; }\n    output[idx] = "@;
    reveal_strlit(";\n}\n");
    lemma_kernel_shader_read(show, op, n);
    lemma_expect(c, text + end);
    let inputs = numbered_from(0, n);
    lemma_op_read(f, show, number, op, n, |k: nat| 0u64, Seq::new(n, |k: int| 0u64), end);
    let term = read_term(text + end, "inputs"@, "[idx]"@)->0;
    let sh = Shader { output: n, inputs, bound: None, term: term.0 };
    assert(read_kernel_shader(shader_text(show, op, n)) == Some(sh));
    assert forall|i: nat| #[trigger]
        stored_element(f, number, bound_from(0, bufs), sh, len, i) == if i < len {
            Some(
                f32_of_f64(
                    op_value(
                        f,
                        op,
                        Seq::new(n, |k: int| f64_of_f32(bufs[k][i as int])),
                    ),
                ),
            )
        } else {
            None
        } by {
        if i < len {
            let xs = |k: nat| f64_of_f32(bound_from(0, bufs)(binding_of(inputs, k))[i as int]);
            let ys = Seq::new(n, |k: int| f64_of_f32(bufs[k][i as int]));
            assert forall|k: int| 0 <= k < n implies xs(k as nat) == #[trigger] ys[k] by {
                lemma_binding(0, n, k as nat);
            }
            lemma_op_read(f, show, number, op, n, xs, ys, end);
        }
    }
}

// ─── Execution ───────────────────────────────────────────────────────────────

/// That a function runs shaders as their text is read, with the inputs bound in order.
pub open spec fn runs_kernel_shaders<
    F: Fn(FloatOp, u64, u64) -> u64,
    R: Fn(&String, &Vec<Vec<u32>>, usize) -> Option<Vec<u32>>,
>(f: F, number: spec_fn(Seq<char>) -> u64, run: R) -> bool {
    forall|s: &String, b: &Vec<Vec<u32>>, n: usize, out: Vec<u32>| #[trigger]
        run.ensures((s, b, n), Some(out)) ==> (read_kernel_shader(s@) matches Some(sh)
            ==> forall|i: nat|
            i < n ==> #[trigger] stored_element(
                f,
                number,
                bound_from(0, contents(b@)),
                sh,
                n as nat,
                i,
            ) == Some(out@[i as int]))
}

/// Where shaders are run as they are read, the run of the shader of an expression gives,
/// for each element, what the expression yields for that element of its variables, where
/// these and the result are taken as singles.
pub proof fn law_kernel_shader_run_computes_expression<
    F: Fn(FloatOp, u64, u64) -> u64,
    S: Fn(u64) -> String,
    R: Fn(&String, &Vec<Vec<u32>>, usize) -> Option<Vec<u32>>,
>(
    f: F,
    show: S,
    number: spec_fn(Seq<char>) -> u64,
    run: R,
    e: ExprView,
    text: String,
    bufs: Vec<Vec<u32>>,
    out: Vec<u32>,
    env: spec_fn(usize) -> u64,
    i: nat,
)
    requires
        ran_shader(f, show, run, e, text, bufs, Some(out)),
        runs_kernel_shaders(f, number, run),
        elementwise(e),
        op_constants_read(
            show,
            number,
            fused(f, e, var_ids(distinct_vars(e, Seq::empty()))),
        ),
        i < expr_size(e) <= usize::MAX,
        forall|k: int|
            0 <= k < distinct_vars(e, Seq::empty()).len() ==> ({
                let v = #[trigger] distinct_vars(e, Seq::empty())[k];
                &&& expr_size(v) >= expr_size(e)
                &&& env(var_ids(distinct_vars(e, Seq::empty()))[k]) == f64_of_f32(
                    f32_of_f64(element_double(f, v, i)),
                )
            }),
    ensures
        out@[i as int] == f32_of_f64(expr_value(f, e, env)),
{
    let vars = distinct_vars(e, Seq::empty());
    let ids = var_ids(vars);
    let all = contents(bufs@);
    let op = fused(f, e, ids);
    assert(ids.len() == bufs.len());
    lemma_distinct_vars(e, Seq::empty());
    lemma_fused_reads(f, e, ids);
    law_kernel_shader_computes_operation(f, show, number, op, all, expr_size(e));
    let sh = read_kernel_shader(text@)->0;
    assert(stored_element(f, number, bound_from(0, all), sh, expr_size(e), i) == Some(
        out@[i as int],
    ));
    let xs = Seq::new(all.len(), |k: int| f64_of_f32(all[k][i as int]));
    let ys = Seq::new(ids.len(), |k: int| env(ids[k]));
    assert forall|k: int| 0 <= k < ids.len() implies xs[k] == ys[k] by {
        let v = vars[k];
        assert(bufs@[k]@ == singles(var_doubles(f, v)));
        assert(var_doubles(f, v)[i as int] == element_double(f, v, i));
    }
    assert(xs =~= ys);
    law_fusion_keeps_value(f, e, ids, env);
}

} // verus!
