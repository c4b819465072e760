//! Native code for element-wise kernels: graphs of standard floats lowered to
//! instructions on registers, checked, and assembled.

pub mod aarch64_laws;
pub mod backend;
pub mod bounds;
pub mod decode_aarch64;
pub mod decode_x86;
pub mod emit;
pub mod emit_aarch64;
pub mod ir;
pub mod kernel_laws;
pub mod laws;
pub mod machine;
pub mod regalloc;
pub mod x86_laws;

use crate::fuser::kernel::constants_measurable;
use crate::graph::ArenaGraph;
use crate::ir::expr_countable;
use crate::jit::aarch64_laws::{
    enters_aarch64, law_aarch64_code_computes_expression, leaves_aarch64,
};
use crate::jit::backend::{native_backend, KernelBackend, NativeBackend};
use crate::jit::decode_aarch64::aarch64;
use crate::jit::decode_x86::x86;
use crate::jit::emit::{kernel_code, Target};
use crate::jit::emit_aarch64::{kernel_words, words};
use crate::jit::ir::{has_program, is_program, try_lower, NtProgram};
use crate::jit::kernel_laws::{is_sound, Call};
use crate::jit::laws::law_program_is_emittable;
use crate::jit::machine::{code_of, leads, Machine, Op, State};
use crate::jit::x86_laws::{
    enters_x86, holds_values, law_x86_code_computes_expression, leaves_x86, passes_variables,
};
use crate::soft_float::{is_float_unit, FloatOp};
use vstd::prelude::*;

verus! {

/// That bytes are the code of a program for a machine.
pub open spec fn is_code(p: NtProgram, target: Target, code: Seq<u8>) -> bool {
    match target {
        Target::X86_64 { windows } => code == kernel_code(p, windows),
        Target::AArch64 => code == words(kernel_words(p)),
        Target::Other => false,
    }
}

/// The native code of a graph: a loop over the elements that runs the graph's
/// program. There is none where the graph has no program.
pub fn try_compile<F: Fn(FloatOp, u64, u64) -> u64>(
    graph: &ArenaGraph,
    target: Target,
    f: &F,
) -> (r: Option<Vec<u8>>)
    requires
        is_float_unit(*f),
        graph.wf(),
        expr_countable(graph.tree()),
        constants_measurable(graph.tree()),
        !(target is Other),
    ensures
        match r {
            Some(code) => {
                &&& has_program(*f, *graph)
                &&& exists|p: NtProgram| #[trigger]
                    is_program(*f, *graph, p) && is_code(p, target, code@)
            },
            None => !has_program(*f, *graph),
        },
{
    let prog: NtProgram = match try_lower(graph, f) {
        Some(p) => p,
        None => return None,
    };
    proof {
        law_program_is_emittable(*f, *graph, prog);
    }
    let backend: NativeBackend = native_backend(target);
    let code: Option<Vec<u8>> = backend.emit(&prog, target);
    assert(is_program(*f, *graph, prog));
    code
}

/// How a machine reads its code.
pub open spec fn reader(target: Target) -> spec_fn(Seq<u8>) -> Option<(Op, nat)> {
    match target {
        Target::X86_64 { .. } => x86(),
        _ => aarch64(),
    }
}

/// That a machine enters a kernel for a call.
pub open spec fn enters(target: Target, c: Call, m: Machine) -> bool {
    match target {
        Target::X86_64 { windows } => enters_x86(windows, c, m),
        _ => enters_aarch64(c, m),
    }
}

/// That a machine has left a kernel and given back what it was lent.
pub open spec fn leaves(target: Target, c: Call, m: Machine, t: Machine) -> bool {
    match target {
        Target::X86_64 { .. } => leaves_x86(c, m, t),
        _ => leaves_aarch64(c, m, t),
    }
}

/// That code leads a machine that entered it for a call to its end, where the output
/// holds what an expression yields for each element.
pub open spec fn computes<F: Fn(FloatOp, u64, u64) -> u64>(
    f: F,
    graph: ArenaGraph,
    p: NtProgram,
    target: Target,
    code: Seq<u8>,
    c: Call,
    env: spec_fn(nat, usize) -> u64,
    m: Machine,
    t: Machine,
) -> bool {
    &&& leads(
        f,
        code_of(reader(target), code),
        State { m, at: Some(0) },
        State { m: t, at: None },
    )
    &&& holds_values(f, graph, p, c, env, t.mem)
    &&& leaves(target, c, m, t)
}

/// The code of a graph computes the graph's expression. Entered for a call whose inputs
/// are the variables of the graph, the code runs to its end; the output then holds, for
/// each element, what the expression yields for that element of the variables.
pub proof fn law_code_computes_expression<F: Fn(FloatOp, u64, u64) -> u64>(
    f: F,
    graph: ArenaGraph,
    p: NtProgram,
    target: Target,
    code: Seq<u8>,
    c: Call,
    env: spec_fn(nat, usize) -> u64,
    m: Machine,
)
    requires
        graph.wf(),
        has_program(f, graph),
        is_program(f, graph, p),
        is_code(p, target, code),
        is_sound(c),
        passes_variables(graph, p, c, env),
        enters(target, c, m),
    ensures
        exists|t: Machine| #[trigger] computes(f, graph, p, target, code, c, env, m, t),
{
    match target {
        Target::X86_64 { windows } => {
            law_x86_code_computes_expression(f, graph, p, windows, c, env, m);
            let s = State { m, at: Some(0int) };
            let t = choose|t: Machine|
                {
                    &&& #[trigger] leads(
                        f,
                        code_of(x86(), kernel_code(p, windows)),
                        s,
                        State { m: t, at: None },
                    )
                    &&& holds_values(f, graph, p, c, env, t.mem)
                    &&& leaves_x86(c, m, t)
                };
            assert(computes(f, graph, p, target, code, c, env, m, t));
        },
        Target::AArch64 => {
            law_aarch64_code_computes_expression(f, graph, p, c, env, m);
            let s = State { m, at: Some(0int) };
            let t = choose|t: Machine|
                {
                    &&& #[trigger] leads(
                        f,
                        code_of(aarch64(), words(kernel_words(p))),
                        s,
                        State { m: t, at: None },
                    )
                    &&& holds_values(f, graph, p, c, env, t.mem)
                    &&& leaves_aarch64(c, m, t)
                };
            assert(computes(f, graph, p, target, code, c, env, m, t));
        },
        Target::Other => {},
    }
}

} // verus!
