//! What the shaders of expressions compute: their text, read as a program, binds the
//! inputs in order, and stores for each element what the expression yields.

use crate::elements::all_non_negative;
use crate::fuser::exec::doubles;
use crate::fuser::kernel::{elementwise, expr_value};
use crate::fuser::laws::element_double;
use crate::gpu::{
    compute_shader, gpu_input, gpu_result, input_declaration, input_declarations, lemma_use_count,
    ran_compute, tree_text, use_count, used_vars,
};
use crate::ir::{expr_scale, expr_size, expr_steal, expr_type, ExprView};
use crate::jit::laws::native_value;
use crate::shader::{
    binding_of, bound_from, contents, expect, is_break, is_read_with, lemma_binding,
    lemma_constant_read, lemma_expect, lemma_input_read, lemma_number_read, lemma_operation,
    numbered_from, read_number, read_term, reads_as, starts, stored_element, Shader,
};
use crate::soft_float::{f32_of_f64, f64_is_non_negative, f64_of_f32, FloatOp};
use crate::text::{decimal, printed};
use crate::types::laws::{coded_value, law_array_holds_codes};
use crate::types::{codable, scalar_double};
use vstd::prelude::*;

verus! {

// ─── Expressions ─────────────────────────────────────────────────────────────

/// That the constants of an expression are printed so that `number` reads them back, as
/// the singles next to them.
pub open spec fn constants_read<F: Fn(FloatOp, u64, u64) -> u64, S: Fn(u64) -> String>(
    f: F,
    show: S,
    number: spec_fn(Seq<char>) -> u64,
    e: ExprView,
) -> bool
    decreases e,
{
    match e {
        ExprView::Constant { val } => {
            let v = f32_of_f64(scalar_double(f, val));
            reads_as(number, "input_"@, printed(show, v as u64), f64_of_f32(v))
        },
        ExprView::Add { left, right } => constants_read(f, show, number, *left) && constants_read(
            f,
            show,
            number,
            *right,
        ),
        ExprView::Sub { left, right } => constants_read(f, show, number, *left) && constants_read(
            f,
            show,
            number,
            *right,
        ),
        ExprView::Mul { left, right } => constants_read(f, show, number, *left) && constants_read(
            f,
            show,
            number,
            *right,
        ),
        ExprView::Div { left, right } => constants_read(f, show, number, *left) && constants_read(
            f,
            show,
            number,
            *right,
        ),
        _ => true,
    }
}

/// That the inputs from number `n` on are the variables that an expression reads, each
/// use by itself, where `env(i)` is the variable with id `i`.
pub open spec fn are_used(
    e: ExprView,
    n: nat,
    xs: spec_fn(nat) -> u64,
    env: spec_fn(usize) -> u64,
) -> bool {
    forall|k: int|
        0 <= k < used_vars(e).len() ==> (#[trigger] used_vars(e)[k] matches ExprView::Variable {
            id,
            ..
        } && xs((n + k) as nat) == env(id))
}

proof fn lemma_used_parts(
    e: ExprView,
    left: ExprView,
    right: ExprView,
    n: nat,
    xs: spec_fn(nat) -> u64,
    env: spec_fn(usize) -> u64,
)
    requires
        used_vars(e) == used_vars(left) + used_vars(right),
        are_used(e, n, xs, env),
    ensures
        are_used(left, n, xs, env),
        are_used(right, n + use_count(left), xs, env),
{
    lemma_use_count(left);
    let a = used_vars(left);
    let b = used_vars(right);
    assert forall|k: int| 0 <= k < a.len() implies (#[trigger] a[k] matches ExprView::Variable {
        id,
        ..
    } && xs((n + k) as nat) == env(id)) by {
        assert(used_vars(e)[k] == a[k]);
    }
    assert forall|k: int| 0 <= k < b.len() implies (#[trigger] b[k] matches ExprView::Variable {
        id,
        ..
    } && xs((n + use_count(left) + k) as nat) == env(id)) by {
        assert(used_vars(e)[a.len() + k] == b[k]);
    }
}

/// The text of an expression is read as an expression that yields what the expression
/// yields, with constants as singles.
proof fn lemma_tree_read<F: Fn(FloatOp, u64, u64) -> u64, S: Fn(u64) -> String>(
    f: F,
    show: S,
    number: spec_fn(Seq<char>) -> u64,
    e: ExprView,
    n: nat,
    xs: spec_fn(nat) -> u64,
    env: spec_fn(usize) -> u64,
    rest: Seq<char>,
)
    requires
        elementwise(e),
        constants_read(f, show, number, e),
        are_used(e, n, xs, env),
        rest.len() > 0,
        is_break(rest[0]),
    ensures
        is_read_with(
            f,
            number,
            xs,
            "input_"@,
            "[global_id.x]"@,
            tree_text(f, show, e, n),
            rest,
            native_value(f, e, 32, env),
        ),
    decreases e,
{
    let pre = "input_"@;
    let post = "[global_id.x]"@;
    reveal_strlit("input_");
    reveal_strlit("[global_id.x]");
    match e {
        ExprView::Variable { .. } => {
            lemma_input_read(pre, n, post, rest);
            assert(used_vars(e)[0] == e);
        },
        ExprView::Constant { val } => {
            let v = f32_of_f64(scalar_double(f, val));
            lemma_constant_read(
                number,
                pre,
                post,
                printed(show, v as u64),
                f64_of_f32(v),
                rest,
            );
        },
        ExprView::Add { left, right } => {
            reveal_strlit(" + ");
            let b = tree_text(f, show, *right, n + use_count(*left));
            lemma_used_parts(e, *left, *right, n, xs, env);
            lemma_tree_read(
                f,
                show,
                number,
                *left,
                n,
                xs,
                env,
                " + "@ + b + seq![')'] + rest,
            );
            lemma_tree_read(
                f,
                show,
                number,
                *right,
                n + use_count(*left),
                xs,
                env,
                seq![')'] + rest,
            );
            lemma_operation(
                f,
                number,
                xs,
                pre,
                post,
                FloatOp::Add,
                " + "@,
                tree_text(f, show, *left, n),
                native_value(f, *left, 32, env),
                b,
                native_value(f, *right, 32, env),
                rest,
            );
        },
        ExprView::Sub { left, right } => {
            reveal_strlit(" - ");
            let b = tree_text(f, show, *right, n + use_count(*left));
            lemma_used_parts(e, *left, *right, n, xs, env);
            lemma_tree_read(
                f,
                show,
                number,
                *left,
                n,
                xs,
                env,
                " - "@ + b + seq![')'] + rest,
            );
            lemma_tree_read(
                f,
                show,
                number,
                *right,
                n + use_count(*left),
                xs,
                env,
                seq![')'] + rest,
            );
            lemma_operation(
                f,
                number,
                xs,
                pre,
                post,
                FloatOp::Sub,
                " - "@,
                tree_text(f, show, *left, n),
                native_value(f, *left, 32, env),
                b,
                native_value(f, *right, 32, env),
                rest,
            );
        },
        ExprView::Mul { left, right } => {
            reveal_strlit(" * ");
            let b = tree_text(f, show, *right, n + use_count(*left));
            lemma_used_parts(e, *left, *right, n, xs, env);
            lemma_tree_read(
                f,
                show,
                number,
                *left,
                n,
                xs,
                env,
                " * "@ + b + seq![')'] + rest,
            );
            lemma_tree_read(
                f,
                show,
                number,
                *right,
                n + use_count(*left),
                xs,
                env,
                seq![')'] + rest,
            );
            lemma_operation(
                f,
                number,
                xs,
                pre,
                post,
                FloatOp::Mul,
                " * "@,
                tree_text(f, show, *left, n),
                native_value(f, *left, 32, env),
                b,
                native_value(f, *right, 32, env),
                rest,
            );
        },
        ExprView::Div { left, right } => {
            reveal_strlit(" / ");
            let b = tree_text(f, show, *right, n + use_count(*left));
            lemma_used_parts(e, *left, *right, n, xs, env);
            lemma_tree_read(
                f,
                show,
                number,
                *left,
                n,
                xs,
                env,
                " / "@ + b + seq![')'] + rest,
            );
            lemma_tree_read(
                f,
                show,
                number,
                *right,
                n + use_count(*left),
                xs,
                env,
                seq![')'] + rest,
            );
            lemma_operation(
                f,
                number,
                xs,
                pre,
                post,
                FloatOp::Div,
                " / "@,
                tree_text(f, show, *left, n),
                native_value(f, *left, 32, env),
                b,
                native_value(f, *right, 32, env),
                rest,
            );
        },
        ExprView::DequantizeMatmul { .. } => {},
    }
}

/// The text of an expression is read whole, whatever its inputs are.
proof fn lemma_text_read<F: Fn(FloatOp, u64, u64) -> u64, S: Fn(u64) -> String>(
    f: F,
    show: S,
    number: spec_fn(Seq<char>) -> u64,
    e: ExprView,
    rest: Seq<char>,
)
    requires
        elementwise(e),
        constants_read(f, show, number, e),
        rest.len() > 0,
        is_break(rest[0]),
    ensures
        read_term(tree_text(f, show, e, 0) + rest, "input_"@, "[global_id.x]"@) matches Some((t, r))
            && r == rest,
{
    lemma_vars_used(e);
    lemma_tree_read(f, show, number, e, 0, |k: nat| 0u64, |v: usize| 0u64, rest);
}

proof fn lemma_vars_used(e: ExprView)
    ensures
        forall|k: int| 0 <= k < used_vars(e).len() ==> #[trigger] used_vars(e)[k] is Variable,
    decreases e,
{
    match e {
        ExprView::Add { left, right } => {
            lemma_vars_used(*left);
            lemma_vars_used(*right);
        },
        ExprView::Sub { left, right } => {
            lemma_vars_used(*left);
            lemma_vars_used(*right);
        },
        ExprView::Mul { left, right } => {
            lemma_vars_used(*left);
            lemma_vars_used(*right);
        },
        ExprView::Div { left, right } => {
            lemma_vars_used(*left);
            lemma_vars_used(*right);
        },
        _ => {},
    }
}

// ─── Shaders ─────────────────────────────────────────────────────────────────

/// The declaration of an input at the start of a text: its binding and its number, and
/// the text behind it.
pub open spec fn read_input(s: Seq<char>) -> Option<((nat, nat), Seq<char>)> {
    match expect(s, "\n@group(0) @binding("@) {
        None => None,
        Some(r1) => match read_number(r1) {
            None => None,
            Some((b, r2)) => match expect(r2, ")\nvar<storage, read> input_"@) {
                None => None,
                Some(r3) => match read_number(r3) {
                    None => None,
                    Some((k, r4)) => match expect(r4, ": array<f32>;\n"@) {
                        None => None,
                        Some(r5) => Some(((b, k), r5)),
                    },
                },
            },
        },
    }
}

/// The declarations of inputs at the start of a text, and the text behind them.
pub open spec fn read_inputs(s: Seq<char>) -> (Seq<(nat, nat)>, Seq<char>)
    decreases s.len(),
{
    match read_input(s) {
        None => (Seq::empty(), s),
        Some((x, r)) => if r.len() < s.len() {
            (seq![x] + read_inputs(r).0, read_inputs(r).1)
        } else {
            (Seq::empty(), s)
        },
    }
}

/// The shader that a text is: the output bound first, the inputs, and an expression that
/// is stored for each element below a number of elements.
pub open spec fn read_shader(s: Seq<char>) -> Option<Shader> {
    match expect(s, "\n@group(0) @binding(0)\nvar<storage, read_write> output: array<f32>;\n"@) {
        None => None,
        Some(r1) => {
            let (inputs, r2) = read_inputs(r1);
            match expect(
                r2,
                "\n@compute\n@workgroup_size(64)\nfn main(@builtin(global_invocation_id) global_id: vec3<u32>) {\n    if (global_id.x >= "@,
            ) {
                None => None,
                Some(r3) => match read_number(r3) {
                    None => None,
                    Some((n, r4)) => read_stored(inputs, n, r4),
                },
            }
        },
    }
}

/// The rest of a shader behind the number of its elements.
pub open spec fn read_stored(inputs: Seq<(nat, nat)>, n: nat, s: Seq<char>) -> Option<Shader> {
    match expect(s, "u) { return; }\n    output[global_id.x] = "@) {
        None => None,
        Some(r) => match read_term(r, "input_"@, "[global_id.x]"@) {
            Some((term, q)) => if q == ";\n}\n"@ {
                Some(Shader { output: 0, inputs, bound: Some(n), term })
            } else {
                None
            },
            None => None,
        },
    }
}

/// The declarations of the inputs from number `i` on.
spec fn declarations_from(i: nat, n: nat) -> Seq<char>
    decreases n - i,
{
    if i < n {
        input_declaration(i) + declarations_from(i + 1, n)
    } else {
        Seq::empty()
    }
}

proof fn lemma_declarations(i: nat, n: nat)
    requires
        i <= n,
    ensures
        input_declarations(i) + declarations_from(i, n) == input_declarations(n),
    decreases n - i,
{
    if i < n {
        lemma_declarations(i + 1, n);
        assert(input_declarations(i) + declarations_from(i, n) =~= input_declarations(i + 1)
            + declarations_from(i + 1, n));
    } else {
        assert(input_declarations(i) + declarations_from(i, n) =~= input_declarations(n));
    }
}

proof fn lemma_input_declared(i: nat, rest: Seq<char>)
    ensures
        read_input(input_declaration(i) + rest) == Some((((i + 1) as nat, i), rest)),
        input_declaration(i).len() > 0,
{
    reveal_strlit("\n@group(0) @binding(");
    reveal_strlit(")\nvar<storage, read> input_");
    reveal_strlit(": array<f32>;\n");
    let a = "\n@group(0) @binding("@;
    let b = ")\nvar<storage, read> input_"@;
    let c = ": array<f32>;\n"@;
    let r4 = c + rest;
    let r3 = decimal(i) + r4;
    let r2 = b + r3;
    let r1 = decimal(i + 1) + r2;
    assert(input_declaration(i) + rest =~= a + r1);
    lemma_expect(a, r1);
    lemma_number_read(i + 1, r2);
    lemma_expect(b, r3);
    lemma_number_read(i, r4);
    lemma_expect(c, rest);
}

proof fn lemma_inputs_declared(i: nat, n: nat, rest: Seq<char>)
    requires
        i <= n,
        read_input(rest) is None,
    ensures
        read_inputs(declarations_from(i, n) + rest).0 == numbered_from(1, n).subrange(
            i as int,
            n as int,
        ),
        read_inputs(declarations_from(i, n) + rest).1 == rest,
    decreases n - i,
{
    let s = declarations_from(i, n) + rest;
    if i < n {
        let q = declarations_from(i + 1, n) + rest;
        assert(s =~= input_declaration(i) + q);
        lemma_input_declared(i, q);
        lemma_inputs_declared(i + 1, n, rest);
        let all = numbered_from(1, n);
        assert(seq![all[i as int]] + all.subrange(i as int + 1, n as int) =~= all.subrange(
            i as int,
            n as int,
        ));
    } else {
        assert(s =~= rest);
        assert(numbered_from(1, n).subrange(i as int, n as int) =~= Seq::empty());
    }
}

/// No input is declared where the program starts.
proof fn lemma_program_starts(rest: Seq<char>)
    ensures
        read_input(
            "\n@compute\n@workgroup_size(64)\nfn main(@builtin(global_invocation_id) global_id: vec3<u32>) {\n    if (global_id.x >= "@
                + rest,
        ) is None,
{
    let a = "\n@compute\n@workgroup_size(64)\nfn main(@builtin(global_invocation_id) global_id: vec3<u32>) {\n    if (global_id.x >= "@;
    let b = "\n@group(0) @binding("@;
    reveal_strlit("\n@compute\n@workgroup_size(64)\nfn main(@builtin(global_invocation_id) global_id: vec3<u32>) {\n    if (global_id.x >= ");
    reveal_strlit("\n@group(0) @binding(");
    assert(b[2] == 'g' && (a + rest)[2] == 'c');
    if starts(a + rest, b) {
        assert((a + rest).subrange(0, b.len() as int)[2] == b[2]);
    }
}

/// What a shader with the text of an expression is read as.
proof fn lemma_shader_read<F: Fn(FloatOp, u64, u64) -> u64, S: Fn(u64) -> String>(
    f: F,
    show: S,
    e: ExprView,
    inputs: nat,
    size: nat,
)
    ensures
        read_shader(compute_shader(f, show, e, inputs, size)) == read_stored(
            numbered_from(1, inputs),
            size,
            "u) { return; }\n    output[global_id.x] = "@ + (tree_text(f, show, e, 0) + ";\n}\n"@),
        ),
{
    let a = "\n@group(0) @binding(0)\nvar<storage, read_write> output: array<f32>;\n"@;
    let b = "\n@compute\n@workgroup_size(64)\nfn main(@builtin(global_invocation_id) global_id: vec3<u32>) {\n    if (global_id.x >= "@;
    let c = "u) { return; }\n    output[global_id.x] = "@;
    reveal_strlit("u) { return; }\n    output[global_id.x] = ");
    let r4 = c + (tree_text(f, show, e, 0) + ";\n}\n"@);
    let r3 = decimal(size) + r4;
    let r2 = b + r3;
    let r1 = declarations_from(0, inputs) + r2;
    lemma_declarations(0, inputs);
    assert(input_declarations(0) + declarations_from(0, inputs) =~= declarations_from(0, inputs));
    assert(compute_shader(f, show, e, inputs, size) =~= a + r1);
    lemma_expect(a, r1);
    lemma_program_starts(r3);
    lemma_inputs_declared(0, inputs, r2);
    assert(numbered_from(1, inputs).subrange(0, inputs as int) =~= numbered_from(1, inputs));
    lemma_expect(b, r3);
    lemma_number_read(size, r4);
}

/// The shader of an expression computes the expression. Its text is read as a program
/// that, with the output bound first and the inputs behind it in order, stores for each
/// of the first `size` elements what the expression yields for that element of its
/// variables, and nothing for elements beyond. Constants are singles, and so is what is
/// stored.
pub proof fn law_shader_computes_expression<
    F: Fn(FloatOp, u64, u64) -> u64,
    S: Fn(u64) -> String,
>(
    f: F,
    show: S,
    number: spec_fn(Seq<char>) -> u64,
    e: ExprView,
    bufs: Seq<Seq<u32>>,
    size: nat,
    len: nat,
    env: spec_fn(nat, usize) -> u64,
)
    requires
        elementwise(e),
        constants_read(f, show, number, e),
        used_vars(e).len() <= bufs.len(),
        size <= len,
        forall|k: int, i: nat|
            0 <= k < used_vars(e).len() && i < size ==> (used_vars(e)[k]
                matches ExprView::Variable { id, .. } && f64_of_f32(
                #[trigger] bufs[k][i as int],
            ) == env(i, id)),
    ensures
        read_shader(compute_shader(f, show, e, bufs.len(), size)) matches Some(sh) && {
            &&& sh.output == 0
            &&& forall|i: nat| #[trigger]
                stored_element(f, number, bound_from(1, bufs), sh, len, i) == if i < size {
                    Some(f32_of_f64(native_value(f, e, 32, |v: usize| env(i, v))))
                } else {
                    None
                }
        },
{
    let text = tree_text(f, show, e, 0);
    let end = ";\n}\n"@;
    let c = "u) { return; }\n    output[global_id.x] = "@;
    reveal_strlit(";\n}\n");
    lemma_shader_read(f, show, e, bufs.len(), size);
    lemma_expect(c, text + end);
    let inputs = numbered_from(1, bufs.len());
    lemma_text_read(f, show, number, e, end);
    let term = read_term(text + end, "input_"@, "[global_id.x]"@)->0;
    let sh = Shader { output: 0, inputs, bound: Some(size), term: term.0 };
    assert(read_shader(compute_shader(f, show, e, bufs.len(), size)) == Some(sh));
    assert forall|i: nat| #[trigger]
        stored_element(f, number, bound_from(1, bufs), sh, len, i) == if i < size {
            Some(f32_of_f64(native_value(f, e, 32, |v: usize| env(i, v))))
        } else {
            None
        } by {
        if i < size {
            let xs = |k: nat| f64_of_f32(bound_from(1, bufs)(binding_of(inputs, k))[i as int]);
            let at = |v: usize| env(i, v);
            assert forall|k: int| 0 <= k < used_vars(e).len() implies (#[trigger] used_vars(
                e,
            )[k] matches ExprView::Variable { id, .. } && xs((0 + k) as nat) == at(id)) by {
                lemma_binding(1, bufs.len(), k as nat);
                assert(f64_of_f32(bufs[k][i as int]) == xs(k as nat));
            }
            lemma_tree_read(f, show, number, e, 0, xs, at, end);
        }
    }
}

/// That the constants of an expression are singles.
pub open spec fn constants_single<F: Fn(FloatOp, u64, u64) -> u64>(f: F, e: ExprView) -> bool
    decreases e,
{
    match e {
        ExprView::Constant { val } => f64_of_f32(f32_of_f64(scalar_double(f, val)))
            == scalar_double(f, val),
        ExprView::Add { left, right } => constants_single(f, *left) && constants_single(f, *right),
        ExprView::Sub { left, right } => constants_single(f, *left) && constants_single(f, *right),
        ExprView::Mul { left, right } => constants_single(f, *left) && constants_single(f, *right),
        ExprView::Div { left, right } => constants_single(f, *left) && constants_single(f, *right),
        _ => true,
    }
}

/// Where its constants are singles, an expression with constants as singles yields what
/// the expression yields.
pub proof fn law_single_constants_are_exact<F: Fn(FloatOp, u64, u64) -> u64>(
    f: F,
    e: ExprView,
    env: spec_fn(usize) -> u64,
)
    requires
        constants_single(f, e),
    ensures
        native_value(f, e, 32, env) == expr_value(f, e, env),
    decreases e,
{
    match e {
        ExprView::Add { left, right } => {
            law_single_constants_are_exact(f, *left, env);
            law_single_constants_are_exact(f, *right, env);
        },
        ExprView::Sub { left, right } => {
            law_single_constants_are_exact(f, *left, env);
            law_single_constants_are_exact(f, *right, env);
        },
        ExprView::Mul { left, right } => {
            law_single_constants_are_exact(f, *left, env);
            law_single_constants_are_exact(f, *right, env);
        },
        ExprView::Div { left, right } => {
            law_single_constants_are_exact(f, *left, env);
            law_single_constants_are_exact(f, *right, env);
        },
        _ => {},
    }
}

// ─── Execution ───────────────────────────────────────────────────────────────

/// That a function runs shaders as their text is read, with the inputs bound in order
/// behind the output.
pub open spec fn runs_shaders<
    F: Fn(FloatOp, u64, u64) -> u64,
    R: Fn(&String, &Vec<Vec<u32>>, usize) -> Option<Vec<u32>>,
>(f: F, number: spec_fn(Seq<char>) -> u64, run: R) -> bool {
    forall|s: &String, b: &Vec<Vec<u32>>, n: usize, out: Vec<u32>| #[trigger]
        run.ensures((s, b, n), Some(out)) ==> (read_shader(s@) matches Some(sh) ==> forall|i: nat|
            i < n ==> #[trigger] stored_element(
                f,
                number,
                bound_from(1, contents(b@)),
                sh,
                n as nat,
                i,
            ) == Some(out@[i as int]))
}

/// That `env(i)` is element `i` of the variables of an expression, as singles.
pub open spec fn are_singles<F: Fn(FloatOp, u64, u64) -> u64>(
    f: F,
    e: ExprView,
    env: spec_fn(nat, usize) -> u64,
) -> bool {
    forall|k: int, i: nat|
        0 <= k < used_vars(e).len() && i < expr_size(e) ==> (used_vars(e)[k]
            matches ExprView::Variable { id, .. } && env(i, id) == f64_of_f32(
            f32_of_f64(#[trigger] element_double(f, used_vars(e)[k], i)),
        ))
}

/// Where shaders are run as they are read, the run of the shader of an expression gives,
/// for each element, what the expression yields for that element of its variables, all
/// taken as singles.
pub proof fn law_shader_run_computes_expression<
    F: Fn(FloatOp, u64, u64) -> u64,
    S: Fn(u64) -> String,
    R: Fn(&String, &Vec<Vec<u32>>, usize) -> Option<Vec<u32>>,
>(
    f: F,
    show: S,
    number: spec_fn(Seq<char>) -> u64,
    run: R,
    e: ExprView,
    text: String,
    bufs: Vec<Vec<u32>>,
    out: Vec<u32>,
    env: spec_fn(nat, usize) -> u64,
    i: nat,
)
    requires
        ran_compute(f, show, run, e, text, bufs, Some(out)),
        runs_shaders(f, number, run),
        elementwise(e),
        constants_read(f, show, number, e),
        are_singles(f, e, env),
        i < expr_size(e) <= usize::MAX,
    ensures
        out@[i as int] == f32_of_f64(native_value(f, e, 32, |v: usize| env(i, v))),
{
    let size = expr_size(e);
    let all = contents(bufs@);
    lemma_use_count(e);
    lemma_vars_used(e);
    assert forall|k: int, j: nat| 0 <= k < used_vars(e).len() && j < size implies (used_vars(
        e,
    )[k] matches ExprView::Variable { id, .. } && f64_of_f32(#[trigger] all[k][j as int]) == env(
        j,
        id,
    )) by {
        assert(bufs@[k]@ == gpu_input(f, used_vars(e)[k], size));
        assert(all[k][j as int] == f32_of_f64(element_double(f, used_vars(e)[k], j)));
    }
    law_shader_computes_expression(f, show, number, e, all, size, size, env);
    let sh = read_shader(text@)->0;
    assert(stored_element(f, number, bound_from(1, all), sh, size, i) == Some(out@[i as int]));
}

/// The array made of what a shader yields holds it, as the type of the expression codes
/// it: without a sign bit where the expression has none and nothing is negative.
pub proof fn law_shader_result_is_held<F: Fn(FloatOp, u64, u64) -> u64>(
    f: F,
    e: ExprView,
    out: Seq<u32>,
    i: nat,
)
    requires
        i < out.len() == expr_size(e) <= usize::MAX,
        codable(expr_type(e), false),
        codable(expr_type(e), true),
    ensures
        expr_type(gpu_result(f, e, out)) == expr_type(e),
        expr_size(gpu_result(f, e, out)) == expr_size(e),
        expr_steal(gpu_result(f, e, out)) ==> expr_steal(e) && forall|k: int|
            0 <= k < out.len() ==> f64_is_non_negative(f64_of_f32(#[trigger] out[k])),
        element_double(f, gpu_result(f, e, out), i) == coded_value(
            f,
            f64_of_f32(out[i as int]),
            expr_type(e),
            expr_scale(e),
            expr_steal(gpu_result(f, e, out)),
            false,
        ),
{
    let vals = doubles(out);
    let s = expr_steal(e) && all_non_negative(vals);
    law_array_holds_codes(f, vals, expr_type(e), expr_scale(e), s, false, i);
    if s {
        assert forall|k: int| 0 <= k < out.len() implies f64_is_non_negative(
            f64_of_f32(#[trigger] out[k]),
        ) by {
            assert(vals[k] == f64_of_f32(out[k]));
        }
    }
}

} // verus!
