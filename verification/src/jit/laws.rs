//! What programs compute: on virtual registers, on physical ones, and as the
//! expression that they stand for.

use crate::fuser::kernel::expr_value;
use crate::graph::{acyclic, node_tree, operands_before, ArenaGraph, NodeView};
use crate::ir::ExprView;
use crate::jit::bounds::{MAX_INPUTS, MAX_INSTS};
use crate::jit::emit::emittable;
use crate::jit::ir::{
    all_supported, has_program, inst_for, insts_for, is_order, is_program, lemma_place, lemma_visit,
    load_ids, lowering_order, operands, place, supported, visit, BinOp, Inst, LiveInterval,
    NtProgram, PReg, VReg, NUM_PHYS_REGS,
};
use crate::jit::regalloc::{
    allocation, defined, defined_before, inst_in_range, intervals_of, intervals_upto, last_naming,
    law_live_registers_differ, law_registers_exist, lemma_intervals, lemma_last_naming, names,
    reads, register_of, scan, vregs_in_range,
};
use crate::soft_float::{f32_of_f64, f64_of_f32, float_answer, FloatOp};
use crate::types::scalar_double;
use vstd::prelude::*;

verus! {

// ─── The shape of programs ───────────────────────────────────────────────────

/// The `k`th instruction of nodes is that of the `k`th node.
pub proof fn lemma_insts_shape<F: Fn(FloatOp, u64, u64) -> u64>(
    f: F,
    g: Seq<NodeView>,
    order: Seq<nat>,
    bits: u32,
)
    ensures
        insts_for(f, g, order, bits).len() == order.len(),
        forall|k: int|
            0 <= k < order.len() ==> #[trigger] insts_for(f, g, order, bits)[k] == inst_for(
                f,
                g,
                order.take(k),
                order[k],
                bits,
            ),
    decreases order.len(),
{
    if order.len() > 0 {
        let prev = order.drop_last();
        lemma_insts_shape(f, g, prev, bits);
        assert forall|k: int| 0 <= k < order.len() implies #[trigger] insts_for(
            f,
            g,
            order,
            bits,
        )[k] == inst_for(f, g, order.take(k), order[k], bits) by {
            if k < prev.len() {
                assert(prev.take(k) =~= order.take(k));
                assert(insts_for(f, g, prev, bits)[k] == inst_for(
                    f,
                    g,
                    prev.take(k),
                    prev[k],
                    bits,
                ));
            } else {
                assert(order.take(k) =~= prev);
            }
        }
    }
}

/// That the operands of nodes come before them.
pub open spec fn closed(g: Seq<NodeView>, order: Seq<nat>) -> bool {
    forall|k: int|
        0 <= k < order.len() ==> {
            match operands(#[trigger] g[order[k] as int]) {
                Some((l, r)) => order.take(k).contains(l) && order.take(k).contains(r),
                None => true,
            }
        }
}

/// Visiting a node keeps operands before their users.
pub proof fn lemma_visit_closed(g: Seq<NodeView>, id: nat, seen: Seq<nat>)
    requires
        acyclic(g),
        id < g.len(),
        is_order(g, seen),
        closed(g, seen),
    ensures
        closed(g, visit(g, id, seen)),
    decreases id,
{
    if !seen.contains(id) {
        assert(operands_before(g[id as int], id));
        lemma_visit(g, id, seen);
        let out = visit(g, id, seen);
        let before = match operands(g[id as int]) {
            Some((l, r)) => {
                lemma_visit(g, l, seen);
                lemma_visit_closed(g, l, seen);
                let mid = visit(g, l, seen);
                lemma_visit(g, r, mid);
                lemma_visit_closed(g, r, mid);
                let last = visit(g, r, mid);
                let j = choose|j: int| 0 <= j < mid.len() && mid[j] == l;
                assert(last[j] == l);
                assert(last.contains(l));
                last
            },
            None => seen,
        };
        assert(out == before.push(id));
        assert forall|k: int| 0 <= k < out.len() implies match operands(
            #[trigger] g[out[k] as int],
        ) {
            Some((l, r)) => out.take(k).contains(l) && out.take(k).contains(r),
            None => true,
        } by {
            if k < before.len() {
                assert(out[k] == before[k]);
                assert(out.take(k) =~= before.take(k));
                assert(g[before[k] as int] == g[out[k] as int]);
            } else {
                assert(out.take(k) =~= before);
            }
        }
    }
}

/// The instructions of an order define one register each, in order, and name
/// only registers that are defined.
pub open spec fn in_ssa_form(insts: Seq<Inst>) -> bool {
    &&& forall|k: int|
        0 <= k < insts.len() - 1 ==> #[trigger] defined(insts[k]) == Some(k as usize)
    &&& forall|k: int, v: VReg|
        0 <= k < insts.len() && #[trigger] reads(insts[k], v) ==> v < k
    &&& insts.len() > 0
    &&& insts.last() is Store
}

proof fn lemma_load_ids_bound(g: Seq<NodeView>, order: Seq<nat>)
    ensures
        load_ids(g, order).len() <= order.len(),
    decreases order.len(),
{
    if order.len() > 0 {
        lemma_load_ids_bound(g, order.drop_last());
    }
}

/// The program of nodes with operands before them is in the form where each
/// instruction defines the register of its place.
pub proof fn lemma_ssa<F: Fn(FloatOp, u64, u64) -> u64>(
    f: F,
    g: Seq<NodeView>,
    order: Seq<nat>,
    bits: u32,
)
    requires
        all_supported(g, order, bits),
        closed(g, order),
        0 < order.len() < usize::MAX,
    ensures
        in_ssa_form(
            insts_for(f, g, order, bits).push(
                Inst::Store { src: (order.len() - 1) as usize, bits },
            ),
        ),
{
    let body = insts_for(f, g, order, bits);
    let insts = body.push(Inst::Store { src: (order.len() - 1) as usize, bits });
    lemma_insts_shape(f, g, order, bits);
    assert forall|k: int| 0 <= k < insts.len() - 1 implies #[trigger] defined(insts[k]) == Some(
        k as usize,
    ) by {
        assert(insts[k] == body[k]);
        assert(supported(g[order[k] as int], bits));
        assert(order.take(k).len() == k);
    }
    assert forall|k: int, v: VReg|
        0 <= k < insts.len() && #[trigger] reads(insts[k], v) implies v < k by {
        if k < body.len() {
            assert(insts[k] == body[k]);
            assert(supported(g[order[k] as int], bits));
            match operands(g[order[k] as int]) {
                Some((l, r)) => {
                    lemma_place(order.take(k), l);
                    lemma_place(order.take(k), r);
                },
                None => {},
            }
        }
    }
}

pub proof fn lemma_program_in_range<F: Fn(FloatOp, u64, u64) -> u64>(
    f: F,
    g: Seq<NodeView>,
    order: Seq<nat>,
    bits: u32,
)
    requires
        all_supported(g, order, bits),
        closed(g, order),
        0 < order.len() < usize::MAX,
    ensures
        vregs_in_range(
            insts_for(f, g, order, bits).push(
                Inst::Store { src: (order.len() - 1) as usize, bits },
            ),
            order.len(),
        ),
{
    let body = insts_for(f, g, order, bits);
    let insts = body.push(Inst::Store { src: (order.len() - 1) as usize, bits });
    lemma_ssa(f, g, order, bits);
    lemma_insts_shape(f, g, order, bits);
    assert forall|k: int| 0 <= k < insts.len() implies inst_in_range(
        #[trigger] insts[k],
        order.len(),
    ) by {
        match insts[k] {
            Inst::BinOp { lhs, rhs, .. } => {
                assert(defined(insts[k]) == Some(k as usize));
                assert(reads(insts[k], lhs));
                assert(reads(insts[k], rhs));
            },
            Inst::Store { src, .. } => {
                assert(reads(insts[k], src));
                if k < body.len() {
                    assert(defined(insts[k]) == Some(k as usize));
                }
            },
            _ => {
                assert(defined(insts[k]) == Some(k as usize));
            },
        }
    }
}

/// The program of a graph can be assembled.
pub proof fn law_program_is_emittable<F: Fn(FloatOp, u64, u64) -> u64>(
    f: F,
    graph: ArenaGraph,
    p: NtProgram,
)
    requires
        graph.wf(),
        has_program(f, graph),
        is_program(f, graph, p),
    ensures
        emittable(p),
{
    let g = graph.views();
    let root = graph.root as nat;
    let order = lowering_order(g, root);
    let iv = p.intervals@;
    lemma_visit(g, root, Seq::empty());
    lemma_visit_closed(g, root, Seq::empty());
    lemma_insts_shape(f, g, order, p.bits);
    lemma_ssa(f, g, order, p.bits);
    lemma_program_in_range(f, g, order, p.bits);
    lemma_ssa_intervals(p.insts@, p.insts@.len());
    assert forall|v: int| 0 <= v < p.alloc@.len() implies #[trigger] p.alloc@[v] < 16 by {
        lemma_register_of(iv, scan(iv, iv.len())->0, iv.len(), v as usize);
        law_registers_exist(iv, iv.len(), v);
    }
    assert forall|k: int| 0 <= k < p.insts@.len() implies (
    #[trigger] p.insts@[k] matches Inst::Load { input_idx, .. } ==> input_idx < MAX_INPUTS) by {
        if k < order.len() {
            match g[order[k] as int] {
                NodeView::Variable { id, .. } => {
                    lemma_slot(g, order, k as nat, id);
                },
                _ => {},
            }
        }
    }
}

// ─── Programs on virtual registers ───────────────────────────────────────────

/// The result of an operation.
pub open spec fn combine<F: Fn(FloatOp, u64, u64) -> u64>(f: F, op: BinOp, a: u64, b: u64) -> u64 {
    match op {
        BinOp::Add => float_answer(f, FloatOp::Add, a, b),
        BinOp::Sub => float_answer(f, FloatOp::Sub, a, b),
        BinOp::Mul => float_answer(f, FloatOp::Mul, a, b),
        BinOp::Div => float_answer(f, FloatOp::Div, a, b),
    }
}

/// A constant as it is set: in 32 bits it is first narrowed to a single.
pub open spec fn const_value(val: u64, bits: u32) -> u64 {
    if bits == 64 {
        val
    } else {
        f64_of_f32(f32_of_f64(val))
    }
}

/// The values of the virtual registers after `k` instructions, where the element
/// at hand of input `i` is `xs[i]`.
pub open spec fn values<F: Fn(FloatOp, u64, u64) -> u64>(
    f: F,
    insts: Seq<Inst>,
    xs: Seq<u64>,
    k: nat,
) -> Seq<u64>
    decreases k,
{
    if k == 0 {
        Seq::empty()
    } else {
        let prev = values(f, insts, xs, (k - 1) as nat);
        prev.push(
            match insts[k - 1] {
                Inst::Load { input_idx, .. } => xs[input_idx as int],
                Inst::Const { val, bits, .. } => const_value(val, bits),
                Inst::BinOp { op, lhs, rhs, .. } => combine(
                    f,
                    op,
                    prev[lhs as int],
                    prev[rhs as int],
                ),
                Inst::Store { .. } => 0,
            },
        )
    }
}

/// The value that a program stores.
pub open spec fn program_value<F: Fn(FloatOp, u64, u64) -> u64>(
    f: F,
    insts: Seq<Inst>,
    xs: Seq<u64>,
) -> u64 {
    values(f, insts, xs, (insts.len() - 1) as nat)[insts.last()->src as int]
}

/// The double that an expression yields where the variable with id `i` is
/// `env(i)` and constants are set in `bits` bits.
pub open spec fn native_value<F: Fn(FloatOp, u64, u64) -> u64>(
    f: F,
    e: ExprView,
    bits: u32,
    env: spec_fn(usize) -> u64,
) -> u64
    decreases e,
{
    match e {
        ExprView::Variable { id, .. } => env(id),
        ExprView::Constant { val } => const_value(scalar_double(f, val), bits),
        ExprView::Add { left, right } => float_answer(
            f,
            FloatOp::Add,
            native_value(f, *left, bits, env),
            native_value(f, *right, bits, env),
        ),
        ExprView::Sub { left, right } => float_answer(
            f,
            FloatOp::Sub,
            native_value(f, *left, bits, env),
            native_value(f, *right, bits, env),
        ),
        ExprView::Mul { left, right } => float_answer(
            f,
            FloatOp::Mul,
            native_value(f, *left, bits, env),
            native_value(f, *right, bits, env),
        ),
        ExprView::Div { left, right } => float_answer(
            f,
            FloatOp::Div,
            native_value(f, *left, bits, env),
            native_value(f, *right, bits, env),
        ),
        ExprView::DequantizeMatmul { .. } => 0,
    }
}

/// In 64 bits native code computes what the expression yields.
pub proof fn law_native_doubles_are_exact<F: Fn(FloatOp, u64, u64) -> u64>(
    f: F,
    e: ExprView,
    env: spec_fn(usize) -> u64,
)
    ensures
        native_value(f, e, 64, env) == expr_value(f, e, env),
    decreases e,
{
    match e {
        ExprView::Add { left, right } => {
            law_native_doubles_are_exact(f, *left, env);
            law_native_doubles_are_exact(f, *right, env);
        },
        ExprView::Sub { left, right } => {
            law_native_doubles_are_exact(f, *left, env);
            law_native_doubles_are_exact(f, *right, env);
        },
        ExprView::Mul { left, right } => {
            law_native_doubles_are_exact(f, *left, env);
            law_native_doubles_are_exact(f, *right, env);
        },
        ExprView::Div { left, right } => {
            law_native_doubles_are_exact(f, *left, env);
            law_native_doubles_are_exact(f, *right, env);
        },
        _ => {},
    }
}

proof fn lemma_values<F: Fn(FloatOp, u64, u64) -> u64>(
    f: F,
    insts: Seq<Inst>,
    xs: Seq<u64>,
    j: nat,
    k: nat,
)
    requires
        j <= k,
    ensures
        values(f, insts, xs, k).len() == k,
        values(f, insts, xs, j).len() == j,
        values(f, insts, xs, j).is_prefix_of(values(f, insts, xs, k)),
    decreases k,
{
    if k > 0 {
        if j < k {
            lemma_values(f, insts, xs, j, (k - 1) as nat);
            let a = values(f, insts, xs, j);
            let b = values(f, insts, xs, (k - 1) as nat);
            let c = values(f, insts, xs, k);
            assert(c.drop_last() =~= b);
            assert(a =~= c.subrange(0, j as int)) by {
                assert(a =~= b.subrange(0, j as int));
            }
        } else {
            lemma_values(f, insts, xs, (k - 1) as nat, (k - 1) as nat);
        }
    }
}

proof fn lemma_load_ids_prefix(g: Seq<NodeView>, order: Seq<nat>, k: nat)
    requires
        k <= order.len(),
    ensures
        load_ids(g, order.take(k as int)).is_prefix_of(load_ids(g, order)),
    decreases order.len(),
{
    if k < order.len() {
        let prev = order.drop_last();
        lemma_load_ids_prefix(g, prev, k);
        assert(prev.take(k as int) =~= order.take(k as int));
        let a = load_ids(g, order.take(k as int));
        let b = load_ids(g, prev);
        let c = load_ids(g, order);
        assert(a =~= c.subrange(0, a.len() as int)) by {
            assert(a =~= b.subrange(0, a.len() as int));
        }
    } else {
        assert(order.take(k as int) =~= order);
        let a = load_ids(g, order);
        assert(a =~= a.subrange(0, a.len() as int));
    }
}

/// The input of a variable is that of its id.
proof fn lemma_slot(g: Seq<NodeView>, order: Seq<nat>, k: nat, id: usize)
    requires
        k < order.len(),
        g[order[k as int] as int] matches NodeView::Variable { id: i, .. } && i == id,
    ensures
        place(load_ids(g, order.take(k as int)), id) < load_ids(g, order).len(),
        load_ids(g, order)[place(load_ids(g, order.take(k as int)), id) as int] == id,
{
    let t = order.take(k as int + 1);
    assert(t.drop_last() =~= order.take(k as int));
    assert(t.last() == order[k as int]);
    let prev = load_ids(g, order.take(k as int));
    let cur = load_ids(g, t);
    lemma_load_ids_prefix(g, order, k + 1);
    lemma_place(prev, id);
    let p = place(prev, id) as int;
    assert(p < cur.len() && cur[p] == id);
    assert(load_ids(g, order)[p] == cur[p]);
}

/// The values of nodes are those of the expressions that they stand for.
proof fn lemma_node_values<F: Fn(FloatOp, u64, u64) -> u64>(
    f: F,
    g: Seq<NodeView>,
    order: Seq<nat>,
    bits: u32,
    insts: Seq<Inst>,
    xs: Seq<u64>,
    env: spec_fn(usize) -> u64,
    k: nat,
)
    requires
        acyclic(g),
        is_order(g, order),
        all_supported(g, order, bits),
        closed(g, order),
        order.len() < usize::MAX,
        insts.len() >= order.len(),
        forall|i: int| 0 <= i < order.len() ==> insts[i] == insts_for(f, g, order, bits)[i],
        xs.len() == load_ids(g, order).len(),
        forall|i: int| 0 <= i < xs.len() ==> #[trigger] env(load_ids(g, order)[i]) == xs[i],
        k <= order.len(),
    ensures
        forall|i: int|
            0 <= i < k ==> #[trigger] values(f, insts, xs, k)[i] == native_value(
                f,
                node_tree(g, order[i]),
                bits,
                env,
            ),
    decreases k,
{
    if k > 0 {
        let m = (k - 1) as nat;
        lemma_node_values(f, g, order, bits, insts, xs, env, m);
        lemma_values(f, insts, xs, m, k);
        lemma_insts_shape(f, g, order, bits);
        lemma_load_ids_bound(g, order);
        let prev = values(f, insts, xs, m);
        let id = order[m as int];
        let n = g[id as int];
        let before = order.take(m as int);
        assert(supported(n, bits));
        assert(operands_before(n, id));
        assert(insts[m as int] == inst_for(f, g, before, id, bits));
        match n {
            NodeView::Variable { id: var, .. } => {
                lemma_slot(g, order, m, var);
                let p = place(load_ids(g, before), var) as int;
                assert(env(load_ids(g, order)[p]) == xs[p]);
            },
            NodeView::Constant { .. } => {},
            _ => {
                let (l, r) = operands(n)->0;
                lemma_place(before, l);
                lemma_place(before, r);
                let pl = place(before, l) as int;
                let pr = place(before, r) as int;
                assert(prev[pl] == native_value(f, node_tree(g, order[pl]), bits, env));
                assert(prev[pr] == native_value(f, node_tree(g, order[pr]), bits, env));
                assert(order[pl] == l && order[pr] == r);
            },
        }
        let cur = values(f, insts, xs, k);
        assert forall|i: int| 0 <= i < k implies #[trigger] cur[i] == native_value(
            f,
            node_tree(g, order[i]),
            bits,
            env,
        ) by {
            if i < m {
                assert(cur[i] == prev[i]);
            }
        }
    }
}

/// The program of a graph stores what the graph's expression yields, where each
/// input holds the variable with its id.
pub proof fn law_program_computes_expression<F: Fn(FloatOp, u64, u64) -> u64>(
    f: F,
    graph: ArenaGraph,
    p: NtProgram,
    xs: Seq<u64>,
    env: spec_fn(usize) -> u64,
)
    requires
        graph.wf(),
        has_program(f, graph),
        is_program(f, graph, p),
        xs.len() == p.num_inputs,
        forall|i: int|
            0 <= i < xs.len() ==> #[trigger] env(
                load_ids(graph.views(), lowering_order(graph.views(), graph.root as nat))[i],
            ) == xs[i],
    ensures
        program_value(f, p.insts@, xs) == native_value(f, graph.tree(), p.bits, env),
{
    let g = graph.views();
    let root = graph.root as nat;
    let order = lowering_order(g, root);
    lemma_visit(g, root, Seq::empty());
    lemma_visit_closed(g, root, Seq::empty());
    lemma_insts_shape(f, g, order, p.bits);
    lemma_node_values(f, g, order, p.bits, p.insts@, xs, env, order.len());
}

// ─── Programs on physical registers ──────────────────────────────────────────

/// The physical registers after `k` instructions: each writes the register of
/// its result, an operation first its left operand and then the result.
pub open spec fn machine<F: Fn(FloatOp, u64, u64) -> u64>(
    f: F,
    insts: Seq<Inst>,
    alloc: Seq<PReg>,
    xs: Seq<u64>,
    start: Seq<u64>,
    k: nat,
) -> Seq<u64>
    decreases k,
{
    if k == 0 {
        start
    } else {
        let regs = machine(f, insts, alloc, xs, start, (k - 1) as nat);
        match insts[k - 1] {
            Inst::Load { dst, input_idx, .. } => regs.update(
                alloc[dst as int] as int,
                xs[input_idx as int],
            ),
            Inst::Const { dst, val, bits } => regs.update(
                alloc[dst as int] as int,
                const_value(val, bits),
            ),
            Inst::BinOp { dst, op, lhs, rhs } => {
                let d = alloc[dst as int] as int;
                let moved = regs.update(d, regs[alloc[lhs as int] as int]);
                moved.update(d, combine(f, op, moved[d], moved[alloc[rhs as int] as int]))
            },
            Inst::Store { .. } => regs,
        }
    }
}

/// The intervals of a program in which each instruction defines the register of
/// its place.
proof fn lemma_ssa_intervals(insts: Seq<Inst>, k: nat)
    requires
        in_ssa_form(insts),
        insts.len() <= usize::MAX,
        k <= insts.len(),
    ensures
        intervals_upto(insts, k).len() == if k < insts.len() {
            k as int
        } else {
            k - 1
        },
        forall|i: int|
            0 <= i < intervals_upto(insts, k).len() ==> (#[trigger] intervals_upto(
                insts,
                k,
            )[i]).vreg == i && intervals_upto(insts, k)[i].start == i,
    decreases k,
{
    if k > 0 {
        let m = (k - 1) as nat;
        lemma_ssa_intervals(insts, m);
        if m < insts.len() - 1 {
            assert(defined(insts[m as int]) == Some(m as usize));
            assert(!defined_before(insts, m, m as usize)) by {
                if defined_before(insts, m, m as usize) {
                    let j = choose|j: int|
                        0 <= j < m && defined(#[trigger] insts[j]) == Some(m as usize);
                    assert(defined(insts[j]) == Some(j as usize));
                }
            }
        } else {
            assert(insts[m as int] == insts.last());
        }
    }
}

proof fn lemma_register_of(iv: Seq<LiveInterval>, regs: Seq<PReg>, n: nat, v: VReg)
    requires
        forall|i: int| 0 <= i < n ==> (#[trigger] iv[i]).vreg == i,
        v < n,
    ensures
        register_of(iv, regs, n, v) == regs[v as int],
    decreases n,
{
    assert(iv[n - 1].vreg == n - 1);
    if v < n - 1 {
        lemma_register_of(iv, regs, (n - 1) as nat, v);
    }
}

/// That the physical registers hold the values that later instructions name.
pub open spec fn holds_live<F: Fn(FloatOp, u64, u64) -> u64>(
    f: F,
    insts: Seq<Inst>,
    alloc: Seq<PReg>,
    xs: Seq<u64>,
    start: Seq<u64>,
    k: nat,
) -> bool {
    forall|v: usize|
        v < k && last_naming(insts, insts.len(), v) >= k ==> machine(
            f,
            insts,
            alloc,
            xs,
            start,
            k,
        )[#[trigger] alloc[v as int] as int] == values(f, insts, xs, k)[v as int]
}

proof fn lemma_machine<F: Fn(FloatOp, u64, u64) -> u64>(
    f: F,
    insts: Seq<Inst>,
    regs: Seq<PReg>,
    alloc: Seq<PReg>,
    xs: Seq<u64>,
    start: Seq<u64>,
    k: nat,
)
    requires
        in_ssa_form(insts),
        insts.len() <= usize::MAX,
        scan(intervals_of(insts), intervals_of(insts).len()) == Some(regs),
        alloc == allocation(intervals_of(insts), regs, (insts.len() - 1) as nat),
        start.len() >= NUM_PHYS_REGS,
        k <= insts.len() - 1,
    ensures
        machine(f, insts, alloc, xs, start, k).len() == start.len(),
        holds_live(f, insts, alloc, xs, start, k),
    decreases k,
{
    if k > 0 {
        let m = (k - 1) as nat;
        let iv = intervals_of(insts);
        lemma_machine(f, insts, regs, alloc, xs, start, m);
        lemma_ssa_intervals(insts, insts.len());
        lemma_intervals(insts, insts.len());
        lemma_values(f, insts, xs, m, k);
        let before = machine(f, insts, alloc, xs, start, m);
        let after = machine(f, insts, alloc, xs, start, k);
        let prev = values(f, insts, xs, m);
        let cur = values(f, insts, xs, k);
        let d = m as usize;
        assert(defined(insts[m as int]) == Some(d));
        assert forall|v: usize| v < insts.len() - 1 implies #[trigger] alloc[v as int]
            == regs[v as int] && regs[v as int] < NUM_PHYS_REGS by {
            lemma_register_of(iv, regs, iv.len(), v);
            law_registers_exist(iv, iv.len(), v as int);
        }
        assert forall|v: usize|
            v < m && last_naming(insts, insts.len(), v) >= m implies #[trigger] alloc[v as int]
            != alloc[d as int] && before[alloc[v as int] as int] == prev[v as int] by {
            assert(iv[v as int].vreg == v);
            assert(iv[m as int].start == m);
            law_live_registers_differ(iv, iv.len(), v as int, m as int);
            assert(alloc[d as int] == regs[d as int]);
        }
        match insts[m as int] {
            Inst::BinOp { dst, op, lhs, rhs } => {
                assert(reads(insts[m as int], lhs));
                assert(reads(insts[m as int], rhs));
                assert(names(insts[m as int], lhs));
                assert(names(insts[m as int], rhs));
                lemma_last_naming(insts, insts.len(), lhs);
                lemma_last_naming(insts, insts.len(), rhs);
                assert(alloc[lhs as int] != alloc[d as int]);
                assert(alloc[rhs as int] != alloc[d as int]);
            },
            _ => {},
        }
        assert(alloc[d as int] < NUM_PHYS_REGS);
        assert(after[alloc[d as int] as int] == cur[d as int]);
        assert forall|v: usize|
            v < k && last_naming(insts, insts.len(), v) >= k implies after[#[trigger] alloc[v as int] as int]
            == cur[v as int] by {
            if v < m {
                assert(alloc[v as int] != alloc[d as int]);
                assert(after[alloc[v as int] as int] == before[alloc[v as int] as int]);
                assert(cur[v as int] == prev[v as int]);
            }
        }
    }
}

/// What the program of a graph is like: it is in the form where each instruction
/// defines the register of its place, its registers exist, no operation writes the
/// register of its right operand, and its elements have one width.
pub proof fn lemma_program_form<F: Fn(FloatOp, u64, u64) -> u64>(
    f: F,
    graph: ArenaGraph,
    p: NtProgram,
)
    requires
        graph.wf(),
        has_program(f, graph),
        is_program(f, graph, p),
    ensures
        in_ssa_form(p.insts@),
        p.bits == 32 || p.bits == 64,
        p.output_vreg == p.insts@.last()->src,
        p.insts@.len() <= MAX_INSTS,
        forall|v: int| 0 <= v < p.insts@.len() - 1 ==> #[trigger] p.alloc@[v] < NUM_PHYS_REGS,
        forall|k: int|
            0 <= k < p.insts@.len() ==> match #[trigger] p.insts@[k] {
                Inst::Load { dst, input_idx, bits } => dst < p.insts@.len() - 1 && input_idx
                    < p.num_inputs && input_idx < MAX_INPUTS && bits == p.bits,
                Inst::Const { dst, bits, .. } => dst < p.insts@.len() - 1 && bits == p.bits,
                Inst::BinOp { dst, lhs, rhs, .. } => dst < p.insts@.len() - 1 && lhs
                    < p.insts@.len() - 1 && rhs < p.insts@.len() - 1 && p.alloc@[rhs as int]
                    != p.alloc@[dst as int],
                Inst::Store { src, bits } => src < p.insts@.len() - 1 && bits == p.bits,
            },
{
    let g = graph.views();
    let root = graph.root as nat;
    let order = lowering_order(g, root);
    lemma_visit(g, root, Seq::empty());
    lemma_visit_closed(g, root, Seq::empty());
    lemma_insts_shape(f, g, order, p.bits);
    lemma_ssa(f, g, order, p.bits);
    lemma_load_ids_bound(g, order);
    let insts = p.insts@;
    let iv = intervals_of(insts);
    let regs = scan(iv, iv.len())->0;
    lemma_ssa_intervals(insts, insts.len());
    lemma_intervals(insts, insts.len());
    assert forall|v: int| 0 <= v < insts.len() - 1 implies #[trigger] p.alloc@[v] == regs[v]
        && regs[v] < NUM_PHYS_REGS by {
        lemma_register_of(iv, regs, iv.len(), v as usize);
        law_registers_exist(iv, iv.len(), v);
    }
    assert forall|k: int| 0 <= k < insts.len() implies match #[trigger] insts[k] {
        Inst::Load { dst, input_idx, bits } => dst < insts.len() - 1 && input_idx < p.num_inputs
            && input_idx < MAX_INPUTS && bits == p.bits,
        Inst::Const { dst, bits, .. } => dst < insts.len() - 1 && bits == p.bits,
        Inst::BinOp { dst, lhs, rhs, .. } => dst < insts.len() - 1 && lhs < insts.len() - 1 && rhs
            < insts.len() - 1 && p.alloc@[rhs as int] != p.alloc@[dst as int],
        Inst::Store { src, bits } => src < insts.len() - 1 && bits == p.bits,
    } by {
        if k < order.len() {
            assert(insts[k] == inst_for(f, g, order.take(k), order[k], p.bits));
            assert(defined(insts[k]) == Some(k as usize));
            match g[order[k] as int] {
                NodeView::Variable { id, .. } => {
                    lemma_slot(g, order, k as nat, id);
                },
                _ => {},
            }
            match insts[k] {
                Inst::BinOp { dst, lhs, rhs, .. } => {
                    assert(reads(insts[k], lhs));
                    assert(reads(insts[k], rhs));
                    assert(names(insts[k], rhs));
                    lemma_last_naming(insts, insts.len(), rhs);
                    assert(iv[rhs as int].vreg == rhs);
                    assert(iv[k].start == k);
                    law_live_registers_differ(iv, iv.len(), rhs as int, k);
                    assert(p.alloc@[rhs as int] == regs[rhs as int]);
                    assert(p.alloc@[k] == regs[k]);
                },
                _ => {},
            }
        }
    }
}

/// On the physical registers that were assigned, whatever they hold at first, the
/// program of a graph stores the same value.
pub proof fn law_registers_keep_values<F: Fn(FloatOp, u64, u64) -> u64>(
    f: F,
    graph: ArenaGraph,
    p: NtProgram,
    xs: Seq<u64>,
    start: Seq<u64>,
)
    requires
        graph.wf(),
        has_program(f, graph),
        is_program(f, graph, p),
        start.len() >= NUM_PHYS_REGS,
    ensures
        machine(
            f,
            p.insts@,
            p.alloc@,
            xs,
            start,
            (p.insts@.len() - 1) as nat,
        )[p.alloc@[p.output_vreg as int] as int] == program_value(f, p.insts@, xs),
{
    let g = graph.views();
    let root = graph.root as nat;
    let order = lowering_order(g, root);
    lemma_visit(g, root, Seq::empty());
    lemma_visit_closed(g, root, Seq::empty());
    lemma_insts_shape(f, g, order, p.bits);
    lemma_ssa(f, g, order, p.bits);
    let insts = p.insts@;
    let regs = scan(intervals_of(insts), intervals_of(insts).len())->0;
    let n = (insts.len() - 1) as nat;
    lemma_machine(f, insts, regs, p.alloc@, xs, start, n);
    lemma_last_naming(insts, insts.len(), p.output_vreg);
    assert(names(insts[n as int], p.output_vreg));
    assert(holds_live(f, insts, p.alloc@, xs, start, n));
}

} // verus!
