//! What a kernel leaves in memory: a loop over the elements, whose body loads the
//! elements at hand, computes, and stores the result.

use crate::jit::ir::{Inst, PReg};
use crate::jit::laws::{combine, const_value, in_ssa_form, machine};
use crate::jit::machine::{
    all_go_on, effect, effects, leads, lemma_effects_add, lemma_leads_on,
    lemma_read_same, lemma_read_written, lemma_row, lemma_span_add, lemma_stands_parts, read, run,
    scaled, size_of, span, stands, step, wrapped, written, Machine, Op, State,
};
use crate::jit::regalloc::defined;
use crate::soft_float::{f32_of_f64, f64_of_f32, FloatOp};
use vstd::arithmetic::power2::*;
use vstd::prelude::*;

verus! {

// ─── Calls ───────────────────────────────────────────────────────────────────

/// A call of a kernel: the address of the pointers to the inputs, that of the output,
/// how many elements and inputs there are, the bytes of an element, the pointers, and
/// the elements of each input as they are stored.
pub struct Call {
    pub inputs: int,
    pub output: int,
    pub count: nat,
    pub slots: nat,
    pub width: nat,
    pub pointer: spec_fn(nat) -> int,
    pub raw: spec_fn(nat, nat) -> nat,
}

/// That a byte is one of the inputs of a call, or of the pointers to them.
pub open spec fn is_input_byte(c: Call, a: int) -> bool {
    ||| c.inputs <= a < c.inputs + 8 * c.slots
    ||| exists|k: nat|
        k < c.slots && #[trigger] (c.pointer)(k) <= a < (c.pointer)(k) + scaled(
            c.count as int,
            c.width,
        )
}

/// That a byte is one of the output of a call.
pub open spec fn is_output_byte(c: Call, a: int) -> bool {
    c.output <= a < c.output + scaled(c.count as int, c.width)
}

/// That a call is sound: elements are singles or doubles, all of it lies in memory, and
/// the output is apart from the inputs.
pub open spec fn is_sound(c: Call) -> bool {
    &&& c.width == 4 || c.width == 8
    &&& c.count < 0x8000_0000_0000_0000
    &&& 0 <= c.inputs
    &&& c.inputs + 8 * c.slots <= 0x1_0000_0000_0000_0000
    &&& 0 <= c.output
    &&& c.output + scaled(c.count as int, c.width) <= 0x1_0000_0000_0000_0000
    &&& forall|k: nat|
        k < c.slots ==> 0 <= #[trigger] (c.pointer)(k) && (c.pointer)(k) + scaled(
            c.count as int,
            c.width,
        ) <= 0x1_0000_0000_0000_0000
    &&& forall|a: int| #[trigger] is_output_byte(c, a) ==> !is_input_byte(c, a)
}

/// That memory holds the inputs of a call and the pointers to them.
pub open spec fn holds_inputs(mem: spec_fn(int) -> u8, c: Call) -> bool {
    &&& forall|k: nat|
        k < c.slots ==> read(mem, c.inputs + 8 * k, 8) == #[trigger] (c.pointer)(k)
    &&& forall|k: nat, i: nat|
        k < c.slots && i < c.count ==> read(
            mem,
            (c.pointer)(k) + scaled(i as int, c.width),
            c.width,
        ) == #[trigger] (c.raw)(k, i)
}

/// A stored element as a double.
pub open spec fn widened(raw: nat, width: nat) -> u64 {
    if width == 8 {
        raw as u64
    } else {
        f64_of_f32(raw as u32)
    }
}

/// A double as a stored element.
pub open spec fn stored(v: u64, width: nat) -> nat {
    if width == 8 {
        v as nat
    } else {
        f32_of_f64(v) as nat
    }
}

/// The elements at hand of the inputs, as doubles.
pub open spec fn elements_at(c: Call, i: nat) -> Seq<u64> {
    Seq::new(c.slots, |k: int| widened((c.raw)(k as nat, i), c.width))
}

pub proof fn lemma_inputs_stay(mem: spec_fn(int) -> u8, other: spec_fn(int) -> u8, c: Call)
    requires
        is_sound(c),
        holds_inputs(mem, c),
        forall|a: int| is_input_byte(c, a) ==> #[trigger] mem(a) == other(a),
    ensures
        holds_inputs(other, c),
{
    assert forall|k: nat| k < c.slots implies read(other, c.inputs + 8 * k, 8)
        == #[trigger] (c.pointer)(k) by {
        assert forall|a: int| c.inputs + 8 * k <= a < c.inputs + 8 * k + 8 implies #[trigger] mem(a)
            == other(a) by {
            assert(is_input_byte(c, a));
        }
        lemma_read_same(mem, other, c.inputs + 8 * k, 8);
    }
    assert forall|k: nat, i: nat| k < c.slots && i < c.count implies read(
        other,
        (c.pointer)(k) + scaled(i as int, c.width),
        c.width,
    ) == #[trigger] (c.raw)(k, i) by {
        let at = (c.pointer)(k) + scaled(i as int, c.width);
        assert forall|a: int| at <= a < at + c.width implies #[trigger] mem(a) == other(a) by {
            assert((c.pointer)(k) <= a < (c.pointer)(k) + scaled(c.count as int, c.width));
            assert(is_input_byte(c, a));
        }
        lemma_read_same(mem, other, at, c.width);
    }
}

// ─── The loop ────────────────────────────────────────────────────────────────

/// The registers of a loop: the inputs, the output, the number of elements, and the
/// element at hand.
pub struct Frame {
    pub inputs: int,
    pub output: int,
    pub count: int,
    pub index: int,
}

pub open spec fn is_frame(r: Frame) -> bool {
    &&& 0 <= r.inputs < 32
    &&& 0 <= r.output < 32
    &&& 0 <= r.count < 32
    &&& 0 <= r.index < 32
    &&& r.index != r.inputs
    &&& r.index != r.output
    &&& r.index != r.count
}

/// That a machine has its registers.
pub open spec fn sized(m: Machine) -> bool {
    m.ints.len() == 32 && m.vals.len() == 32
}

/// That a machine is at an element of a call.
pub open spec fn at_element(r: Frame, c: Call, m: Machine, i: nat) -> bool {
    &&& sized(m)
    &&& m.ints[r.inputs] == c.inputs
    &&& m.ints[r.output] == c.output
    &&& m.ints[r.count] == c.count
    &&& m.ints[r.index] == i
    &&& holds_inputs(m.mem, c)
}

/// That two machines have the same integers but in some registers.
pub open spec fn same_ints(m: Machine, t: Machine, scratch: Set<int>) -> bool {
    forall|k: int| 0 <= k < 32 && !scratch.contains(k) ==> #[trigger] m.ints[k] == t.ints[k]
}

/// That instructions store the result for the element at hand, and change no integers
/// but in scratch registers.
pub open spec fn stores_results<F: Fn(FloatOp, u64, u64) -> u64>(
    f: F,
    r: Frame,
    c: Call,
    body: Seq<(Op, nat)>,
    scratch: Set<int>,
    result: spec_fn(nat) -> nat,
) -> bool {
    forall|m: Machine, i: nat| #[trigger]
        at_element(r, c, m, i) && i < c.count ==> {
            let t = effects(f, body, m);
            &&& sized(t)
            &&& same_ints(m, t, scratch)
            &&& t.mem == written(m.mem, c.output + scaled(i as int, c.width), c.width, result(i))
        }
}

/// That memory holds the results of the first `n` elements.
pub open spec fn holds_results(
    mem: spec_fn(int) -> u8,
    c: Call,
    result: spec_fn(nat) -> nat,
    n: nat,
) -> bool {
    forall|i: nat|
        i < n ==> read(mem, c.output + scaled(i as int, c.width), c.width) == #[trigger] result(i)
}

/// That two memories differ in the output of a call alone.
pub open spec fn same_but_output(
    mem: spec_fn(int) -> u8,
    other: spec_fn(int) -> u8,
    c: Call,
) -> bool {
    forall|a: int| !is_output_byte(c, a) ==> #[trigger] mem(a) == other(a)
}

/// The start of a loop: it is left over its body and its end where all elements are
/// done.
pub open spec fn is_head(r: Frame, head: Seq<(Op, nat)>, over: nat) -> bool {
    &&& head.len() == 2
    &&& head[0].0 == Op::Compare { a: r.index, b: r.count }
    &&& head[1].0 == Op::JumpGe { by: over as int }
}

/// The end of a loop: the next element is at hand, and the loop starts again.
pub open spec fn is_tail(r: Frame, tail: Seq<(Op, nat)>, back: nat) -> bool {
    &&& tail.len() == 2
    &&& tail[0].0 == Op::Offset { d: r.index, s: r.index, by: 1 }
    &&& tail[1].0 == Op::Jump { by: -(back as int) }
}

proof fn lemma_two(ops: Seq<(Op, nat)>)
    requires
        ops.len() == 2,
    ensures
        ops == seq![ops[0]] + seq![ops[1]],
        size_of(ops) == ops[0].1 + ops[1].1,
        size_of(seq![ops[0]]) == ops[0].1,
{
    assert(ops =~= seq![ops[0]] + seq![ops[1]]);
    assert(span(ops, 2) == span(ops, 1) + ops[1].1);
    assert(span(ops, 1) == span(ops, 0) + ops[0].1);
    let one = seq![ops[0]];
    assert(span(one, 1) == span(one, 0) + ops[0].1);
}

/// From element `i` on, a loop stores the results of all elements and is left behind
/// its end.
proof fn lemma_loop<F: Fn(FloatOp, u64, u64) -> u64>(
    f: F,
    code: spec_fn(int) -> Option<(Op, nat)>,
    r: Frame,
    c: Call,
    at: int,
    head: Seq<(Op, nat)>,
    body: Seq<(Op, nat)>,
    tail: Seq<(Op, nat)>,
    scratch: Set<int>,
    result: spec_fn(nat) -> nat,
    m: Machine,
    i: nat,
) -> (t: Machine)
    requires
        is_sound(c),
        is_frame(r),
        is_head(r, head, size_of(body) + size_of(tail)),
        is_tail(r, tail, size_of(head) + size_of(body) + size_of(tail)),
        stands(code, at, head + body + tail),
        all_go_on(body),
        stores_results(f, r, c, body, scratch, result),
        !scratch.contains(r.inputs),
        !scratch.contains(r.output),
        !scratch.contains(r.count),
        !scratch.contains(r.index),
        forall|j: nat| #[trigger] result(j) < pow2(8 * c.width),
        at_element(r, c, m, i),
        i <= c.count,
        holds_results(m.mem, c, result, i),
    ensures
        leads(
            f,
            code,
            State { m, at: Some(at) },
            State { m: t, at: Some(at + size_of(head) + size_of(body) + size_of(tail)) },
        ),
        sized(t),
        same_ints(m, t, scratch.insert(r.index)),
        same_but_output(m.mem, t.mem, c),
        holds_results(t.mem, c, result, c.count),
    decreases c.count - i,
{
    let s = State { m, at: Some(at) };
    lemma_stands_parts(code, at, head + body, tail);
    lemma_stands_parts(code, at, head, body);
    lemma_span_add(head, body, (head + body).len());
    lemma_two(head);
    lemma_two(tail);
    let a1 = at + size_of(head);
    let a2 = a1 + size_of(body);
    let end = a2 + size_of(tail);
    let m1 = effect(f, head[0].0, m);
    let s1 = State { m: m1, at: Some(at + head[0].1) };
    assert(span(head, 0) == 0);
    assert(span(head, 1) == head[0].1);
    assert(code(at + span(head, 0)) == Some(head[0]));
    assert(code(at + span(head, 1)) == Some(head[1]));
    assert(step(f, code, s) == Some(s1));
    assert(run(f, code, s, 0) == Some(s));
    assert(run(f, code, s, 1) == Some(s1));
    if i == c.count {
        let s2 = State { m: m1, at: Some(end) };
        assert(step(f, code, s1) == Some(s2));
        assert(run(f, code, s, 2) == Some(s2));
        m1
    } else {
        let s2 = State { m: m1, at: Some(a1) };
        assert(step(f, code, s1) == Some(s2));
        assert(run(f, code, s, 2) == Some(s2));
        lemma_row(f, code, a1, body, m1);
        let m2 = effects(f, body, m1);
        let s3 = State { m: m2, at: Some(a2) };
        assert(at_element(r, c, m1, i));
        let m3 = effect(f, tail[0].0, m2);
        let s4 = State { m: m3, at: Some(a2 + tail[0].1) };
        assert(span(tail, 0) == 0);
        assert(span(tail, 1) == tail[0].1);
        assert(code(a2 + span(tail, 0)) == Some(tail[0]));
        assert(code(a2 + span(tail, 1)) == Some(tail[1]));
        assert(step(f, code, s3) == Some(s4));
        let s5 = State { m: m3, at: Some(at) };
        assert(step(f, code, s4) == Some(s5));
        assert(run(f, code, s3, 0) == Some(s3));
        assert(run(f, code, s3, 1) == Some(s4));
        assert(run(f, code, s3, 2) == Some(s5));
        lemma_leads_on(f, code, s, s2, s3);
        lemma_leads_on(f, code, s, s3, s5);
        let place = c.output + scaled(i as int, c.width);
        assert forall|a: int| !is_output_byte(c, a) implies #[trigger] (m.mem)(a) == (m3.mem)(
            a,
        ) by {}
        assert forall|a: int| is_input_byte(c, a) implies #[trigger] (m.mem)(a) == (m3.mem)(a) by {
            if is_output_byte(c, a) {
                assert(!is_input_byte(c, a));
            }
        }
        lemma_inputs_stay(m.mem, m3.mem, c);
        assert(m2.ints[r.index] == i);
        assert(wrapped(i as int + 1) == i + 1);
        assert(at_element(r, c, m3, i + 1));
        assert forall|j: nat| j < i + 1 implies read(
            m3.mem,
            c.output + scaled(j as int, c.width),
            c.width,
        ) == #[trigger] result(j) by {
            if j == i {
                lemma_read_written(m1.mem, place, c.width, result(i));
            } else {
                lemma_read_same(
                    m.mem,
                    m3.mem,
                    c.output + scaled(j as int, c.width),
                    c.width,
                );
            }
        }
        let t = lemma_loop(
            f,
            code,
            r,
            c,
            at,
            head,
            body,
            tail,
            scratch,
            result,
            m3,
            i + 1,
        );
        lemma_leads_on(f, code, s, s5, State { m: t, at: Some(end) });
        assert forall|k: int|
            0 <= k < 32 && !scratch.insert(r.index).contains(k) implies #[trigger] m.ints[k]
            == t.ints[k] by {
            assert(m1.ints[k] == m2.ints[k]);
            assert(m3.ints[k] == t.ints[k]);
        }
        t
    }
}

/// A kernel stores the results of all elements between its prologue and its epilogue,
/// and is left behind them.
pub proof fn lemma_kernel<F: Fn(FloatOp, u64, u64) -> u64>(
    f: F,
    code: spec_fn(int) -> Option<(Op, nat)>,
    r: Frame,
    c: Call,
    pro: Seq<(Op, nat)>,
    head: Seq<(Op, nat)>,
    body: Seq<(Op, nat)>,
    tail: Seq<(Op, nat)>,
    epi: Seq<(Op, nat)>,
    last: nat,
    scratch: Set<int>,
    result: spec_fn(nat) -> nat,
    entry: Machine,
) -> (t: Machine)
    requires
        is_sound(c),
        is_frame(r),
        is_head(r, head, size_of(body) + size_of(tail)),
        is_tail(r, tail, size_of(head) + size_of(body) + size_of(tail)),
        stands(code, 0, pro + (head + body + tail) + (epi + seq![(Op::Return, last)])),
        all_go_on(pro),
        all_go_on(body),
        all_go_on(epi),
        stores_results(f, r, c, body, scratch, result),
        !scratch.contains(r.inputs),
        !scratch.contains(r.output),
        !scratch.contains(r.count),
        !scratch.contains(r.index),
        forall|j: nat| #[trigger] result(j) < pow2(8 * c.width),
        at_element(r, c, effects(f, pro, entry), 0),
    ensures
        leads(
            f,
            code,
            State { m: entry, at: Some(0) },
            State { m: effects(f, epi, t), at: None },
        ),
        sized(t),
        same_ints(effects(f, pro, entry), t, scratch.insert(r.index)),
        same_but_output(effects(f, pro, entry).mem, t.mem, c),
        holds_results(t.mem, c, result, c.count),
{
    let mid = head + body + tail;
    let ret = seq![(Op::Return, last)];
    lemma_stands_parts(code, 0, pro + mid, epi + ret);
    lemma_stands_parts(code, 0, pro, mid);
    lemma_span_add(pro, mid, (pro + mid).len());
    lemma_span_add(head + body, tail, mid.len());
    lemma_span_add(head, body, (head + body).len());
    let a1 = 0 + size_of(pro);
    let a2 = a1 + size_of(mid);
    let a3 = a2 + size_of(epi);
    lemma_stands_parts(code, a2 as int, epi, ret);
    let s = State { m: entry, at: Some(0int) };
    let m0 = effects(f, pro, entry);
    lemma_row(f, code, 0, pro, entry);
    let s1 = State { m: m0, at: Some(a1 as int) };
    let t = lemma_loop(f, code, r, c, a1 as int, head, body, tail, scratch, result, m0, 0);
    let s2 = State { m: t, at: Some(a2 as int) };
    lemma_leads_on(f, code, s, s1, s2);
    lemma_row(f, code, a2 as int, epi, t);
    let u = effects(f, epi, t);
    let s3 = State { m: u, at: Some(a3 as int) };
    lemma_leads_on(f, code, s, s2, s3);
    let s4 = State { m: u, at: None };
    assert(span(ret, 0) == 0);
    assert(code((a3 + span(ret, 0)) as int) == Some(ret[0]));
    assert(step(f, code, s3) == Some(s4));
    assert(run(f, code, s3, 0) == Some(s3));
    assert(run(f, code, s3, 1) == Some(s4));
    lemma_leads_on(f, code, s, s3, s4);
    t
}

// ─── The body ────────────────────────────────────────────────────────────────

/// The registers for values after an instruction of a program.
pub open spec fn vals_after<F: Fn(FloatOp, u64, u64) -> u64>(
    f: F,
    i: Inst,
    alloc: Seq<PReg>,
    xs: Seq<u64>,
    vals: Seq<u64>,
) -> Seq<u64> {
    match i {
        Inst::Load { dst, input_idx, .. } => vals.update(
            alloc[dst as int] as int,
            xs[input_idx as int],
        ),
        Inst::Const { dst, val, bits } => vals.update(
            alloc[dst as int] as int,
            const_value(val, bits),
        ),
        Inst::BinOp { dst, op, lhs, rhs } => vals.update(
            alloc[dst as int] as int,
            combine(f, op, vals[alloc[lhs as int] as int], vals[alloc[rhs as int] as int]),
        ),
        Inst::Store { .. } => vals,
    }
}

/// That an operation does not write the register of its right operand, so that its left
/// operand may be moved there first.
pub open spec fn operands_stay(i: Inst, alloc: Seq<PReg>) -> bool {
    match i {
        Inst::BinOp { dst, rhs, .. } => {
            &&& alloc[dst as int] < 32
            &&& alloc[rhs as int] < 32
            &&& alloc[rhs as int] != alloc[dst as int]
        },
        _ => true,
    }
}

/// That machine instructions do what an instruction of a program says, at every element
/// of a call.
pub open spec fn performs<F: Fn(FloatOp, u64, u64) -> u64>(
    f: F,
    r: Frame,
    c: Call,
    scratch: Set<int>,
    ops: Seq<(Op, nat)>,
    alloc: Seq<PReg>,
    i: Inst,
) -> bool {
    &&& all_go_on(ops)
    &&& forall|m: Machine, n: nat| #[trigger]
        at_element(r, c, m, n) && n < c.count ==> {
            let t = effects(f, ops, m);
            &&& sized(t)
            &&& same_ints(m, t, scratch)
            &&& match i {
                Inst::Store { src, .. } => t.mem == written(
                    m.mem,
                    c.output + scaled(n as int, c.width),
                    c.width,
                    stored(m.vals[alloc[src as int] as int], c.width),
                ),
                _ => t.mem == m.mem && t.vals == vals_after(
                    f,
                    i,
                    alloc,
                    elements_at(c, n),
                    m.vals,
                ),
            }
        }
}

/// The machine instructions of the first `k` instructions of a program.
pub open spec fn body_ops(
    ops_of: spec_fn(Inst) -> Seq<(Op, nat)>,
    insts: Seq<Inst>,
    k: nat,
) -> Seq<(Op, nat)>
    decreases k,
{
    if k == 0 {
        Seq::empty()
    } else {
        body_ops(ops_of, insts, (k - 1) as nat) + ops_of(insts[k - 1])
    }
}

proof fn lemma_body<F: Fn(FloatOp, u64, u64) -> u64>(
    f: F,
    r: Frame,
    c: Call,
    scratch: Set<int>,
    ops_of: spec_fn(Inst) -> Seq<(Op, nat)>,
    alloc: Seq<PReg>,
    insts: Seq<Inst>,
    m: Machine,
    n: nat,
    k: nat,
)
    requires
        is_frame(r),
        !scratch.contains(r.inputs),
        !scratch.contains(r.output),
        !scratch.contains(r.count),
        !scratch.contains(r.index),
        in_ssa_form(insts),
        forall|j: int|
            0 <= j < insts.len() ==> performs(
                f,
                r,
                c,
                scratch,
                ops_of(#[trigger] insts[j]),
                alloc,
                insts[j],
            ),
        forall|j: int| 0 <= j < insts.len() ==> operands_stay(#[trigger] insts[j], alloc),
        at_element(r, c, m, n),
        n < c.count,
        k <= insts.len() - 1,
    ensures
        ({
            let t = effects(f, body_ops(ops_of, insts, k), m);
            &&& at_element(r, c, t, n)
            &&& same_ints(m, t, scratch)
            &&& t.mem == m.mem
            &&& t.vals == machine(f, insts, alloc, elements_at(c, n), m.vals, k)
        }),
    decreases k,
{
    if k > 0 {
        let j = k - 1;
        lemma_body(f, r, c, scratch, ops_of, alloc, insts, m, n, j as nat);
        let done = body_ops(ops_of, insts, j as nat);
        let ops = ops_of(insts[j]);
        lemma_effects_add(f, done, ops, m);
        let s = effects(f, done, m);
        let t = effects(f, ops, s);
        assert(defined(insts[j]) == Some(j as usize));
        assert(performs(f, r, c, scratch, ops, alloc, insts[j]));
        assert(operands_stay(insts[j], alloc));
        match insts[j] {
            Inst::BinOp { .. } => {
                assert(t.vals =~= machine(f, insts, alloc, elements_at(c, n), m.vals, k));
            },
            _ => {},
        }
        assert forall|q: int| 0 <= q < 32 && !scratch.contains(q) implies #[trigger] m.ints[q]
            == t.ints[q] by {
            assert(s.ints[q] == t.ints[q]);
        }
    }
}

/// Where machine instructions do what the instructions of a program say, the body of
/// them stores what the program leaves in the register that it stores.
pub proof fn lemma_body_stores<F: Fn(FloatOp, u64, u64) -> u64>(
    f: F,
    r: Frame,
    c: Call,
    scratch: Set<int>,
    ops_of: spec_fn(Inst) -> Seq<(Op, nat)>,
    alloc: Seq<PReg>,
    insts: Seq<Inst>,
    value: spec_fn(nat) -> u64,
)
    requires
        is_frame(r),
        !scratch.contains(r.inputs),
        !scratch.contains(r.output),
        !scratch.contains(r.count),
        !scratch.contains(r.index),
        in_ssa_form(insts),
        forall|j: int|
            0 <= j < insts.len() ==> performs(
                f,
                r,
                c,
                scratch,
                ops_of(#[trigger] insts[j]),
                alloc,
                insts[j],
            ),
        forall|j: int| 0 <= j < insts.len() ==> operands_stay(#[trigger] insts[j], alloc),
        forall|start: Seq<u64>, n: nat|
            start.len() == 32 && n < c.count ==> #[trigger] machine(
                f,
                insts,
                alloc,
                elements_at(c, n),
                start,
                (insts.len() - 1) as nat,
            )[alloc[insts.last()->src as int] as int] == value(n),
    ensures
        stores_results(
            f,
            r,
            c,
            body_ops(ops_of, insts, insts.len()),
            scratch,
            |n: nat| stored(value(n), c.width),
        ),
        all_go_on(body_ops(ops_of, insts, insts.len())),
{
    let result = |n: nat| stored(value(n), c.width);
    let k = (insts.len() - 1) as nat;
    let done = body_ops(ops_of, insts, k);
    let body = body_ops(ops_of, insts, insts.len());
    let ops = ops_of(insts[k as int]);
    assert(insts[k as int] == insts.last());
    assert(performs(f, r, c, scratch, ops, alloc, insts[k as int]));
    assert forall|m: Machine, n: nat| #[trigger]
        at_element(r, c, m, n) && n < c.count implies {
        let t = effects(f, body, m);
        &&& sized(t)
        &&& same_ints(m, t, scratch)
        &&& t.mem == written(m.mem, c.output + scaled(n as int, c.width), c.width, result(n))
    } by {
        lemma_body(f, r, c, scratch, ops_of, alloc, insts, m, n, k);
        lemma_effects_add(f, done, ops, m);
        let s = effects(f, done, m);
        let t = effects(f, ops, s);
        assert(at_element(r, c, s, n));
        assert(s.vals == machine(f, insts, alloc, elements_at(c, n), m.vals, k));
        assert forall|q: int| 0 <= q < 32 && !scratch.contains(q) implies #[trigger] m.ints[q]
            == t.ints[q] by {
            assert(s.ints[q] == t.ints[q]);
        }
    }
    lemma_all_go_on(f, r, c, scratch, ops_of, alloc, insts, insts.len());
}

proof fn lemma_all_go_on<F: Fn(FloatOp, u64, u64) -> u64>(
    f: F,
    r: Frame,
    c: Call,
    scratch: Set<int>,
    ops_of: spec_fn(Inst) -> Seq<(Op, nat)>,
    alloc: Seq<PReg>,
    insts: Seq<Inst>,
    k: nat,
)
    requires
        k <= insts.len(),
        forall|j: int|
            0 <= j < insts.len() ==> performs(
                f,
                r,
                c,
                scratch,
                ops_of(#[trigger] insts[j]),
                alloc,
                insts[j],
            ),
    ensures
        all_go_on(body_ops(ops_of, insts, k)),
    decreases k,
{
    if k > 0 {
        lemma_all_go_on(f, r, c, scratch, ops_of, alloc, insts, (k - 1) as nat);
        let a = body_ops(ops_of, insts, (k - 1) as nat);
        let b = ops_of(insts[k - 1]);
        assert(performs(f, r, c, scratch, b, alloc, insts[k - 1]));
        assert forall|i: int| 0 <= i < (a + b).len() implies crate::jit::machine::goes_on(
            (#[trigger] (a + b)[i]).0,
        ) by {
            if i < a.len() {
                assert((a + b)[i] == a[i]);
            } else {
                assert((a + b)[i] == b[i - a.len()]);
            }
        }
    }
}

} // verus!
