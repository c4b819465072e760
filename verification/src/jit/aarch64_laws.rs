//! What AArch64 kernels compute: their code, read and run as machine instructions, stores
//! for each element what the expression yields, and gives back what it was lent.

use crate::graph::ArenaGraph;
use crate::jit::decode_aarch64::{
    aarch64, aarch64_ops, are_read, element_of, lemma_inst_read, lemma_jumps_read, lemma_read_add,
    lemma_words_spelled, named_exist, part_ops, read_word, set_double_ops,
    set_single_ops,
};
use crate::jit::emit_aarch64::{
    bge_word, body_words, branch_word, epilogue_words, inst_words, kernel_words, prologue_words,
    words,
};
use crate::jit::ir::{has_program, is_program, Inst, NtProgram, PReg};
use crate::jit::kernel_laws::{
    at_element, body_ops, elements_at, holds_inputs, holds_results, is_input_byte, is_output_byte,
    is_sound, lemma_body_stores, lemma_inputs_stay, lemma_kernel, operands_stay, performs,
    same_but_output, same_ints, sized, stored, stores_results, vals_after, widened, Call, Frame,
};
use crate::jit::laws::{lemma_program_form, machine, native_value};
use crate::jit::machine::{
    address, all_go_on, code_of, effect, effects, goes_on, inserted, leads, lemma_effects_add,
    lemma_effects_few, lemma_path, lemma_read_same, lemma_read_written,
    lemma_spelled_stands, low, read, register, scaled, size_of, span, stands, wrapped, written,
    Machine, Op, State,
};
use crate::jit::x86_laws::{
    holds_values, lemma_raw_bound, lemma_value_at, passes_variables, results,
};
use crate::soft_float::{f32_of_f64, f64_of_f32, FloatOp};
use vstd::arithmetic::power2::*;
use vstd::prelude::*;

verus! {

// ─── The whole kernel ────────────────────────────────────────────────────────

/// Stores two registers at a distance from the top of the stack.
pub open spec fn store_pair(doubles: bool, a: int, b: int, distance: int) -> Op {
    Op::StorePair { doubles, a, b, base: 31, distance, then: 0 }
}

/// Loads two registers from a distance from the top of the stack.
pub open spec fn load_pair(doubles: bool, a: int, b: int, distance: int) -> Op {
    Op::LoadPair { doubles, a, b, base: 31, distance, then: 0 }
}

/// Makes room on the stack for all that is saved, and stores two integers at its top.
pub open spec fn push_pair(a: int, b: int) -> Op {
    Op::StorePair { doubles: false, a, b, base: 31, distance: -112, then: -112 }
}

/// Loads two integers from the top of the stack, and gives the room back.
pub open spec fn pop_pair(a: int, b: int) -> Op {
    Op::LoadPair { doubles: false, a, b, base: 31, distance: 0, then: 112 }
}

/// The instructions of the prologue: registers are saved, and the arguments are moved to
/// where the loop has them.
pub open spec fn prologue_ops() -> Seq<(Op, nat)> {
    save_ops() + argument_ops()
}

pub open spec fn save_ops() -> Seq<(Op, nat)> {
    seq![
        (push_pair(29, 30), 4nat),
        (Op::Offset { d: 29, s: 31, by: 0 }, 4nat),
        (store_pair(false, 19, 20, 16), 4nat),
        (store_pair(false, 21, 22, 32), 4nat),
        (store_pair(true, 8, 9, 48), 4nat),
        (store_pair(true, 10, 11, 64), 4nat),
        (store_pair(true, 12, 13, 80), 4nat),
        (store_pair(true, 14, 15, 96), 4nat),
    ]
}

pub open spec fn argument_ops() -> Seq<(Op, nat)> {
    seq![
        (Op::Move { d: 19, s: 0 }, 4nat),
        (Op::Move { d: 20, s: 1 }, 4nat),
        (Op::Move { d: 21, s: 2 }, 4nat),
        (Op::SetInt { d: 22, v: 0 }, 4nat),
    ]
}

/// The instructions of the epilogue but for the last, which leaves the code.
pub open spec fn epilogue_ops() -> Seq<(Op, nat)> {
    seq![
        (load_pair(true, 14, 15, 96), 4nat),
        (load_pair(true, 12, 13, 80), 4nat),
        (load_pair(true, 10, 11, 64), 4nat),
        (load_pair(true, 8, 9, 48), 4nat),
        (load_pair(false, 21, 22, 32), 4nat),
        (load_pair(false, 19, 20, 16), 4nat),
        (pop_pair(29, 30), 4nat),
    ]
}

proof fn lemma_save_words()
    ensures
        read_word(0xA9B9_7BFDu32 as nat) == Some(push_pair(29, 30)),
        read_word(0x9100_03FDu32 as nat) == Some(Op::Offset { d: 29, s: 31, by: 0 }),
        read_word(0xA901_53F3u32 as nat) == Some(store_pair(false, 19, 20, 16)),
        read_word(0xA902_5BF5u32 as nat) == Some(store_pair(false, 21, 22, 32)),
{
    assert(read_word(0xA9B9_7BFDu32 as nat) == Some(push_pair(29, 30))) by {
        reveal(read_word);
    }
    assert(read_word(0x9100_03FDu32 as nat) == Some(Op::Offset { d: 29, s: 31, by: 0 })) by {
        reveal(read_word);
    }
    assert(read_word(0xA901_53F3u32 as nat) == Some(store_pair(false, 19, 20, 16))) by {
        reveal(read_word);
    }
    assert(read_word(0xA902_5BF5u32 as nat) == Some(store_pair(false, 21, 22, 32))) by {
        reveal(read_word);
    }
}

proof fn lemma_save_double_words()
    ensures
        read_word(0x6D03_27E8u32 as nat) == Some(store_pair(true, 8, 9, 48)),
        read_word(0x6D04_2FEAu32 as nat) == Some(store_pair(true, 10, 11, 64)),
        read_word(0x6D05_37ECu32 as nat) == Some(store_pair(true, 12, 13, 80)),
        read_word(0x6D06_3FEEu32 as nat) == Some(store_pair(true, 14, 15, 96)),
{
    assert(read_word(0x6D03_27E8u32 as nat) == Some(store_pair(true, 8, 9, 48))) by {
        reveal(read_word);
    }
    assert(read_word(0x6D04_2FEAu32 as nat) == Some(store_pair(true, 10, 11, 64))) by {
        reveal(read_word);
    }
    assert(read_word(0x6D05_37ECu32 as nat) == Some(store_pair(true, 12, 13, 80))) by {
        reveal(read_word);
    }
    assert(read_word(0x6D06_3FEEu32 as nat) == Some(store_pair(true, 14, 15, 96))) by {
        reveal(read_word);
    }
}

proof fn lemma_argument_words()
    ensures
        read_word(0xAA00_03F3u32 as nat) == Some(Op::Move { d: 19, s: 0 }),
        read_word(0xAA01_03F4u32 as nat) == Some(Op::Move { d: 20, s: 1 }),
        read_word(0xAA02_03F5u32 as nat) == Some(Op::Move { d: 21, s: 2 }),
        read_word(0xAA1F_03F6u32 as nat) == Some(Op::SetInt { d: 22, v: 0 }),
{
    assert(read_word(0xAA00_03F3u32 as nat) == Some(Op::Move { d: 19, s: 0 })) by {
        reveal(read_word);
    }
    assert(read_word(0xAA01_03F4u32 as nat) == Some(Op::Move { d: 20, s: 1 })) by {
        reveal(read_word);
    }
    assert(read_word(0xAA02_03F5u32 as nat) == Some(Op::Move { d: 21, s: 2 })) by {
        reveal(read_word);
    }
    assert(read_word(0xAA1F_03F6u32 as nat) == Some(Op::SetInt { d: 22, v: 0 })) by {
        reveal(read_word);
    }
}

proof fn lemma_load_double_words()
    ensures
        read_word(0x6D46_3FEEu32 as nat) == Some(load_pair(true, 14, 15, 96)),
        read_word(0x6D45_37ECu32 as nat) == Some(load_pair(true, 12, 13, 80)),
        read_word(0x6D44_2FEAu32 as nat) == Some(load_pair(true, 10, 11, 64)),
        read_word(0x6D43_27E8u32 as nat) == Some(load_pair(true, 8, 9, 48)),
{
    assert(read_word(0x6D46_3FEEu32 as nat) == Some(load_pair(true, 14, 15, 96))) by {
        reveal(read_word);
    }
    assert(read_word(0x6D45_37ECu32 as nat) == Some(load_pair(true, 12, 13, 80))) by {
        reveal(read_word);
    }
    assert(read_word(0x6D44_2FEAu32 as nat) == Some(load_pair(true, 10, 11, 64))) by {
        reveal(read_word);
    }
    assert(read_word(0x6D43_27E8u32 as nat) == Some(load_pair(true, 8, 9, 48))) by {
        reveal(read_word);
    }
}

proof fn lemma_load_words()
    ensures
        read_word(0xA942_5BF5u32 as nat) == Some(load_pair(false, 21, 22, 32)),
        read_word(0xA941_53F3u32 as nat) == Some(load_pair(false, 19, 20, 16)),
        read_word(0xA8C7_7BFDu32 as nat) == Some(pop_pair(29, 30)),
        read_word(0xD65F_03C0u32 as nat) == Some(Op::Return),
{
    assert(read_word(0xA942_5BF5u32 as nat) == Some(load_pair(false, 21, 22, 32))) by {
        reveal(read_word);
    }
    assert(read_word(0xA941_53F3u32 as nat) == Some(load_pair(false, 19, 20, 16))) by {
        reveal(read_word);
    }
    assert(read_word(0xA8C7_7BFDu32 as nat) == Some(pop_pair(29, 30))) by {
        reveal(read_word);
    }
    assert(read_word(0xD65F_03C0u32 as nat) == Some(Op::Return)) by {
        reveal(read_word);
    }
}

proof fn lemma_prologue_read()
    ensures
        are_read(prologue_words(), prologue_ops()),
        all_go_on(prologue_ops()),
{
    lemma_save_words();
    lemma_save_double_words();
    lemma_argument_words();
    let ws = prologue_words();
    let ops = prologue_ops();
    assert(ws[0] == 0xA9B9_7BFDu32 && ops[0] == (push_pair(29, 30), 4nat));
    assert(ws[1] == 0x9100_03FDu32 && ops[1] == (Op::Offset { d: 29, s: 31, by: 0 }, 4nat));
    assert(ws[2] == 0xA901_53F3u32 && ops[2] == (store_pair(false, 19, 20, 16), 4nat));
    assert(ws[3] == 0xA902_5BF5u32 && ops[3] == (store_pair(false, 21, 22, 32), 4nat));
    assert(ws[4] == 0x6D03_27E8u32 && ops[4] == (store_pair(true, 8, 9, 48), 4nat));
    assert(ws[5] == 0x6D04_2FEAu32 && ops[5] == (store_pair(true, 10, 11, 64), 4nat));
    assert(ws[6] == 0x6D05_37ECu32 && ops[6] == (store_pair(true, 12, 13, 80), 4nat));
    assert(ws[7] == 0x6D06_3FEEu32 && ops[7] == (store_pair(true, 14, 15, 96), 4nat));
    assert(ws[8] == 0xAA00_03F3u32 && ops[8] == (Op::Move { d: 19, s: 0 }, 4nat));
    assert(ws[9] == 0xAA01_03F4u32 && ops[9] == (Op::Move { d: 20, s: 1 }, 4nat));
    assert(ws[10] == 0xAA02_03F5u32 && ops[10] == (Op::Move { d: 21, s: 2 }, 4nat));
    assert(ws[11] == 0xAA1F_03F6u32 && ops[11] == (Op::SetInt { d: 22, v: 0 }, 4nat));
}

proof fn lemma_epilogue_read()
    ensures
        are_read(epilogue_words(), epilogue_ops() + seq![(Op::Return, 4nat)]),
        all_go_on(epilogue_ops()),
{
    lemma_load_double_words();
    lemma_load_words();
    let ws = epilogue_words();
    let ops = epilogue_ops() + seq![(Op::Return, 4nat)];
    assert(ws[0] == 0x6D46_3FEEu32 && ops[0] == (load_pair(true, 14, 15, 96), 4nat));
    assert(ws[1] == 0x6D45_37ECu32 && ops[1] == (load_pair(true, 12, 13, 80), 4nat));
    assert(ws[2] == 0x6D44_2FEAu32 && ops[2] == (load_pair(true, 10, 11, 64), 4nat));
    assert(ws[3] == 0x6D43_27E8u32 && ops[3] == (load_pair(true, 8, 9, 48), 4nat));
    assert(ws[4] == 0xA942_5BF5u32 && ops[4] == (load_pair(false, 21, 22, 32), 4nat));
    assert(ws[5] == 0xA941_53F3u32 && ops[5] == (load_pair(false, 19, 20, 16), 4nat));
    assert(ws[6] == 0xA8C7_7BFDu32 && ops[6] == (pop_pair(29, 30), 4nat));
    assert(ws[7] == 0xD65F_03C0u32 && ops[7] == (Op::Return, 4nat));
}

/// The machine instructions of each instruction.
pub open spec fn ops_of(alloc: Seq<PReg>) -> spec_fn(Inst) -> Seq<(Op, nat)> {
    |i: Inst| aarch64_ops(alloc, i)
}

proof fn lemma_body_read(alloc: Seq<PReg>, insts: Seq<Inst>, k: nat)
    requires
        k <= insts.len(),
        forall|j: int| 0 <= j < insts.len() ==> named_exist(alloc, #[trigger] insts[j]),
    ensures
        are_read(body_words(alloc, insts, k), body_ops(ops_of(alloc), insts, k)),
        body_words(alloc, insts, k).len() <= 8 * k,
    decreases k,
{
    if k > 0 {
        lemma_body_read(alloc, insts, (k - 1) as nat);
        lemma_inst_read(alloc, insts[k - 1]);
        lemma_read_add(
            body_words(alloc, insts, (k - 1) as nat),
            body_ops(ops_of(alloc), insts, (k - 1) as nat),
            inst_words(alloc, insts[k - 1]),
            aarch64_ops(alloc, insts[k - 1]),
        );
    }
}

pub open spec fn head_ops(over: nat) -> Seq<(Op, nat)> {
    seq![(Op::Compare { a: 22, b: 21 }, 4nat), (Op::JumpGe { by: over as int }, 4nat)]
}

pub open spec fn tail_ops(back: nat) -> Seq<(Op, nat)> {
    seq![(Op::Offset { d: 22, s: 22, by: 1 }, 4nat), (Op::Jump { by: -(back as int) }, 4nat)]
}

/// The machine instructions of a kernel.
pub open spec fn kernel_ops(p: NtProgram) -> Seq<(Op, nat)> {
    let body = body_ops(ops_of(p.alloc@), p.insts@, p.insts@.len());
    let n = 4 * body.len();
    prologue_ops() + (head_ops(n + 8) + body + tail_ops(n + 16)) + (epilogue_ops() + seq![
        (Op::Return, 4nat),
    ])
}

proof fn lemma_size(ws: Seq<u32>, ops: Seq<(Op, nat)>, k: nat)
    requires
        are_read(ws, ops),
        k <= ops.len(),
    ensures
        span(ops, k) == 4 * k,
    decreases k,
{
    if k > 0 {
        lemma_size(ws, ops, (k - 1) as nat);
        assert(Some(ops[k - 1].0) == read_word(ws[k - 1] as nat));
    }
}

/// The words of the loop.
spec fn loop_words(p: NtProgram) -> Seq<u32> {
    let ws = body_words(p.alloc@, p.insts@, p.insts@.len());
    let top = 4 * prologue_words().len();
    seq![0xEB15_02DFu32, bge_word((ws.len() + 3) as u32)] + ws + seq![
        0x9100_06D6u32,
        branch_word(top + 4 * (ws.len() + 3), top),
    ]
}

spec fn loop_ops(p: NtProgram) -> Seq<(Op, nat)> {
    let body = body_ops(ops_of(p.alloc@), p.insts@, p.insts@.len());
    let n = 4 * body.len();
    head_ops(n + 8) + body + tail_ops(n + 16)
}

proof fn lemma_loop_words()
    ensures
        read_word(0xEB15_02DFu32 as nat) == Some(Op::Compare { a: 22, b: 21 }),
        read_word(0x9100_06D6u32 as nat) == Some(Op::Offset { d: 22, s: 22, by: 1 }),
{
    reveal(read_word);
}

proof fn lemma_two_read(v: u32, w: u32, x: Op, y: Op)
    requires
        read_word(v as nat) == Some(x),
        read_word(w as nat) == Some(y),
    ensures
        are_read(seq![v, w], seq![(x, 4nat), (y, 4nat)]),
{
}

proof fn lemma_loop_read(p: NtProgram)
    requires
        forall|j: int| 0 <= j < p.insts@.len() ==> named_exist(p.alloc@, #[trigger] p.insts@[j]),
        p.insts@.len() <= 4096,
    ensures
        are_read(loop_words(p), loop_ops(p)),
{
    let body = body_ops(ops_of(p.alloc@), p.insts@, p.insts@.len());
    let ws = body_words(p.alloc@, p.insts@, p.insts@.len());
    let n = 4 * body.len();
    lemma_body_read(p.alloc@, p.insts@, p.insts@.len());
    let top = 4 * prologue_words().len();
    let k = (ws.len() + 3) as nat;
    lemma_jumps_read(k, top);
    lemma_loop_words();
    let go = Op::JumpGe { by: 4 * k - 4 };
    let back = Op::Jump { by: -(4 * k as int) - 4 };
    lemma_two_read(0xEB15_02DFu32, bge_word(k as u32), Op::Compare { a: 22, b: 21 }, go);
    lemma_two_read(
        0x9100_06D6u32,
        branch_word(top + 4 * k, top),
        Op::Offset { d: 22, s: 22, by: 1 },
        back,
    );
    let enter = seq![0xEB15_02DFu32, bge_word(k as u32)];
    let leave = seq![0x9100_06D6u32, branch_word(top + 4 * k, top)];
    lemma_read_add(enter, head_ops(n + 8), ws, body);
    lemma_read_add(enter + ws, head_ops(n + 8) + body, leave, tail_ops(n + 16));
}

proof fn lemma_kernel_stands(p: NtProgram)
    requires
        forall|j: int| 0 <= j < p.insts@.len() ==> named_exist(p.alloc@, #[trigger] p.insts@[j]),
        p.insts@.len() <= 4096,
    ensures
        stands(code_of(aarch64(), words(kernel_words(p))), 0, kernel_ops(p)),
        size_of(body_ops(ops_of(p.alloc@), p.insts@, p.insts@.len())) == 4 * body_ops(
            ops_of(p.alloc@),
            p.insts@,
            p.insts@.len(),
        ).len(),
{
    let body = body_ops(ops_of(p.alloc@), p.insts@, p.insts@.len());
    let ws = body_words(p.alloc@, p.insts@, p.insts@.len());
    lemma_body_read(p.alloc@, p.insts@, p.insts@.len());
    lemma_size(ws, body, body.len());
    lemma_loop_read(p);
    lemma_prologue_read();
    lemma_epilogue_read();
    let last = epilogue_ops() + seq![(Op::Return, 4nat)];
    lemma_read_add(prologue_words(), prologue_ops(), loop_words(p), loop_ops(p));
    lemma_read_add(
        prologue_words() + loop_words(p),
        prologue_ops() + loop_ops(p),
        epilogue_words(),
        last,
    );
    let all = prologue_words() + loop_words(p) + epilogue_words();
    assert(all =~= kernel_words(p));
    let ops = kernel_ops(p);
    assert(ops == prologue_ops() + loop_ops(p) + last);
    lemma_words_spelled(kernel_words(p), ops);
    assert forall|i: int| 0 <= i < ops.len() implies (#[trigger] ops[i]).1 > 0 by {
        assert(Some(ops[i].0) == read_word(kernel_words(p)[i] as nat));
    }
    lemma_spelled_stands(aarch64(), words(kernel_words(p)), ops);
}

// ─── What instructions do ────────────────────────────────────────────────────

/// The registers of the loop.
pub open spec fn aarch64_frame() -> Frame {
    Frame { inputs: 19, output: 20, count: 21, index: 22 }
}

/// The registers that the body uses besides.
pub open spec fn aarch64_scratch() -> Set<int> {
    set![0int, 9int]
}

/// That an instruction of a program names what a call has.
pub open spec fn fits_call(c: Call, alloc: Seq<PReg>, i: Inst) -> bool {
    &&& named_exist(alloc, i)
    &&& operands_stay(i, alloc)
    &&& match i {
        Inst::Load { input_idx, bits, .. } => input_idx < c.slots && bits == 8 * c.width,
        Inst::Store { bits, .. } => bits == 8 * c.width,
        _ => true,
    }
}

proof fn lemma_load_performs<F: Fn(FloatOp, u64, u64) -> u64>(
    f: F,
    c: Call,
    alloc: Seq<PReg>,
    i: Inst,
)
    requires
        is_sound(c),
        fits_call(c, alloc, i),
        i is Load,
    ensures
        performs(f, aarch64_frame(), c, aarch64_scratch(), aarch64_ops(alloc, i), alloc, i),
{
    let slot = i->input_idx as nat;
    let x = alloc[i->Load_dst as int] as int;
    let ops = aarch64_ops(alloc, i);
    let first = ops[0];
    assert(all_go_on(ops));
    assert forall|m: Machine, n: nat| #[trigger]
        at_element(aarch64_frame(), c, m, n) && n < c.count implies {
        let t = effects(f, ops, m);
        &&& sized(t)
        &&& same_ints(m, t, aarch64_scratch())
        &&& t.mem == m.mem
        &&& t.vals == vals_after(f, i, alloc, elements_at(c, n), m.vals)
    } by {
        let p = (c.pointer)(slot);
        let raw = (c.raw)(slot, n);
        let m1 = effect(f, first.0, m);
        assert(m1.ints[0] == p);
        assert(address(m1, element_of(0, c.width)) == p + scaled(n as int, c.width));
        assert(read(m1.mem, p + scaled(n as int, c.width), c.width) == raw);
        if c.width == 8 {
            assert(ops =~= seq![first, ops[1]]);
            lemma_effects_few(f, first, ops[1], ops[1], m);
        } else {
            lemma_raw_bound(m.mem, p + scaled(n as int, c.width));
            assert(ops =~= seq![first, ops[1], ops[2]]);
            lemma_effects_few(f, first, ops[1], ops[2], m);
            let m2 = effect(f, ops[1].0, m1);
            let m3 = effect(f, ops[2].0, m2);
            assert(m2.vals[x] == raw);
            assert(m3.vals =~= m.vals.update(x, widened(raw, c.width)));
        }
    }
}

/// The place value of a bit.
spec fn weight(at: nat) -> int {
    if at == 16 {
        0x1_0000
    } else if at == 32 {
        0x1_0000_0000
    } else if at == 48 {
        0x1_0000_0000_0000
    } else {
        0x1_0000_0000_0000_0000
    }
}

/// The low bits of a number, and sixteen bits more.
proof fn lemma_inserted(v: u64, at: nat, low_part: u64)
    requires
        at == 16 || at == 32 || at == 48,
        low_part == v as int % weight(at),
    ensures
        inserted(low_part, at, ((v as int / weight(at)) % 0x1_0000) as u64) == v as int % weight(
            at + 16,
        ),
{
    let n = v as int;
    if at == 16 {
        assert(n % 0x1_0000_0000 == n % 0x1_0000 + ((n / 0x1_0000) % 0x1_0000) * 0x1_0000);
    } else if at == 32 {
        assert(n % 0x1_0000_0000_0000 == n % 0x1_0000_0000 + ((n / 0x1_0000_0000) % 0x1_0000)
            * 0x1_0000_0000);
    } else {
        assert(n % 0x1_0000_0000_0000_0000 == n % 0x1_0000_0000_0000 + ((n / 0x1_0000_0000_0000)
            % 0x1_0000) * 0x1_0000_0000_0000);
    }
}

proof fn lemma_part<F: Fn(FloatOp, u64, u64) -> u64>(
    f: F,
    v: u64,
    at: nat,
    size: nat,
    m: Machine,
)
    requires
        sized(m),
        at == 16 || at == 32 || at == 48,
        size == 8 || (size == 4 && at == 16 && v < 0x1_0000_0000),
        m.ints[9] == v as int % weight(at),
    ensures
        ({
            let t = effects(f, part_ops(v, at, size), m);
            &&& t.ints =~= m.ints.update(9, (v as int % weight(at + 16)) as u64)
            &&& t.vals == m.vals
            &&& t.mem == m.mem
        }),
{
    let ops = part_ops(v, at, size);
    let p = weight(at);
    if v >= p {
        assert(ops =~= seq![ops[0]]);
        lemma_effects_few(f, ops[0], ops[0], ops[0], m);
        lemma_inserted(v, at, m.ints[9]);
        assert(v as int % weight(at + 16) <= v);
    } else {
        assert(ops =~= Seq::empty());
        assert(v as int % weight(at) == v && v as int % weight(at + 16) == v);
        assert(m.ints.update(9, m.ints[9]) =~= m.ints);
    }
}

proof fn lemma_set_double<F: Fn(FloatOp, u64, u64) -> u64>(f: F, x: int, v: u64, m: Machine)
    requires
        sized(m),
        0 <= x < 32,
    ensures
        ({
            let t = effects(f, set_double_ops(x, v), m);
            &&& sized(t)
            &&& same_ints(m, t, aarch64_scratch())
            &&& t.mem == m.mem
            &&& t.vals == m.vals.update(x, v)
        }),
{
    let a = (Op::SetInt { d: 9, v: (v % 0x1_0000) as u64 }, 4nat);
    let b = (Op::ToVal { d: x, s: 9, size: 8 }, 4nat);
    let p1 = part_ops(v, 16, 8);
    let p2 = part_ops(v, 32, 8);
    let p3 = part_ops(v, 48, 8);
    lemma_effects_few(f, a, a, a, m);
    let m0 = effect(f, a.0, m);
    lemma_effects_add(f, seq![a], p1, m);
    lemma_part(f, v, 16, 8, m0);
    let m1 = effects(f, p1, m0);
    lemma_effects_add(f, seq![a] + p1, p2, m);
    lemma_part(f, v, 32, 8, m1);
    let m2 = effects(f, p2, m1);
    lemma_effects_add(f, seq![a] + p1 + p2, p3, m);
    lemma_part(f, v, 48, 8, m2);
    let m3 = effects(f, p3, m2);
    assert(m3.ints[9] == v);
    lemma_effects_add(f, seq![a] + p1 + p2 + p3, seq![b], m);
    lemma_effects_few(f, b, b, b, m3);
}

proof fn lemma_set_single<F: Fn(FloatOp, u64, u64) -> u64>(f: F, x: int, v: u32, m: Machine)
    requires
        sized(m),
        0 <= x < 32,
    ensures
        ({
            let t = effects(f, set_single_ops(x, v), m);
            &&& sized(t)
            &&& same_ints(m, t, aarch64_scratch())
            &&& t.mem == m.mem
            &&& t.vals == m.vals.update(x, f64_of_f32(v))
        }),
{
    let a = (Op::SetInt { d: 9, v: (v % 0x1_0000) as u64 }, 4nat);
    let b = (Op::ToVal { d: x, s: 9, size: 4 }, 4nat);
    let d = (Op::Widen { d: x, s: x }, 4nat);
    let p1 = part_ops(v as u64, 16, 4);
    lemma_effects_few(f, a, a, a, m);
    let m0 = effect(f, a.0, m);
    lemma_effects_add(f, seq![a], p1, m);
    lemma_part(f, v as u64, 16, 4, m0);
    let m1 = effects(f, p1, m0);
    assert(m1.ints[9] == v);
    lemma_effects_add(f, seq![a] + p1, seq![b, d], m);
    lemma_effects_few(f, b, d, d, m1);
    let m2 = effect(f, b.0, m1);
    let m3 = effect(f, d.0, m2);
    assert(m2.vals[x] == v);
    assert(m3.vals =~= m.vals.update(x, f64_of_f32(v)));
}

proof fn lemma_parts_go_on(v: u64, at: nat, size: nat)
    ensures
        all_go_on(part_ops(v, at, size)),
{
}

proof fn lemma_const_performs<F: Fn(FloatOp, u64, u64) -> u64>(
    f: F,
    c: Call,
    alloc: Seq<PReg>,
    i: Inst,
)
    requires
        is_sound(c),
        fits_call(c, alloc, i),
        i is Const,
    ensures
        performs(f, aarch64_frame(), c, aarch64_scratch(), aarch64_ops(alloc, i), alloc, i),
{
    let ops = aarch64_ops(alloc, i);
    let x = alloc[i->Const_dst as int] as int;
    lemma_inst_read(alloc, i);
    assert(all_go_on(ops)) by {
        assert forall|k: int| 0 <= k < ops.len() implies goes_on((#[trigger] ops[k]).0) by {
            let o = ops[k].0;
            assert(o is SetInt || o is Insert || o is ToVal || o is Widen);
        }
    }
    assert forall|m: Machine, n: nat| #[trigger]
        at_element(aarch64_frame(), c, m, n) && n < c.count implies {
        let t = effects(f, ops, m);
        &&& sized(t)
        &&& same_ints(m, t, aarch64_scratch())
        &&& t.mem == m.mem
        &&& t.vals == vals_after(f, i, alloc, elements_at(c, n), m.vals)
    } by {
        if i->Const_bits == 64 {
            lemma_set_double(f, x, i->val, m);
        } else {
            lemma_set_single(f, x, f32_of_f64(i->val), m);
        }
    }
}

proof fn lemma_binop_performs<F: Fn(FloatOp, u64, u64) -> u64>(
    f: F,
    c: Call,
    alloc: Seq<PReg>,
    i: Inst,
)
    requires
        is_sound(c),
        fits_call(c, alloc, i),
        i is BinOp,
    ensures
        performs(f, aarch64_frame(), c, aarch64_scratch(), aarch64_ops(alloc, i), alloc, i),
{
    let ops = aarch64_ops(alloc, i);
    assert(all_go_on(ops));
    assert forall|m: Machine, n: nat| #[trigger]
        at_element(aarch64_frame(), c, m, n) && n < c.count implies {
        let t = effects(f, ops, m);
        &&& sized(t)
        &&& same_ints(m, t, aarch64_scratch())
        &&& t.mem == m.mem
        &&& t.vals == vals_after(f, i, alloc, elements_at(c, n), m.vals)
    } by {
        assert(ops =~= seq![ops[0]]);
        lemma_effects_few(f, ops[0], ops[0], ops[0], m);
    }
}

proof fn lemma_store_performs<F: Fn(FloatOp, u64, u64) -> u64>(
    f: F,
    c: Call,
    alloc: Seq<PReg>,
    i: Inst,
)
    requires
        is_sound(c),
        fits_call(c, alloc, i),
        i is Store,
    ensures
        performs(f, aarch64_frame(), c, aarch64_scratch(), aarch64_ops(alloc, i), alloc, i),
{
    let ops = aarch64_ops(alloc, i);
    let x = alloc[i->src as int] as int;
    assert(all_go_on(ops));
    assert forall|m: Machine, n: nat| #[trigger]
        at_element(aarch64_frame(), c, m, n) && n < c.count implies {
        let t = effects(f, ops, m);
        &&& sized(t)
        &&& same_ints(m, t, aarch64_scratch())
        &&& t.mem == written(
            m.mem,
            c.output + scaled(n as int, c.width),
            c.width,
            stored(m.vals[x], c.width),
        )
    } by {
        assert(address(m, element_of(20, c.width)) == c.output + scaled(n as int, c.width));
        if c.width == 8 {
            assert(ops =~= seq![ops[0]]);
            lemma_effects_few(f, ops[0], ops[0], ops[0], m);
        } else {
            assert(ops =~= seq![ops[0], ops[1]]);
            lemma_effects_few(f, ops[0], ops[1], ops[1], m);
            let m1 = effect(f, ops[0].0, m);
            assert(low(m1.vals[x], 4) == f32_of_f64(m.vals[x]));
            assert(address(m1, element_of(20, 4)) == address(m, element_of(20, 4)));
        }
    }
}

proof fn lemma_performs<F: Fn(FloatOp, u64, u64) -> u64>(
    f: F,
    c: Call,
    alloc: Seq<PReg>,
    i: Inst,
)
    requires
        is_sound(c),
        fits_call(c, alloc, i),
    ensures
        performs(f, aarch64_frame(), c, aarch64_scratch(), aarch64_ops(alloc, i), alloc, i),
{
    match i {
        Inst::Load { .. } => lemma_load_performs(f, c, alloc, i),
        Inst::Const { .. } => lemma_const_performs(f, c, alloc, i),
        Inst::BinOp { .. } => lemma_binop_performs(f, c, alloc, i),
        Inst::Store { .. } => lemma_store_performs(f, c, alloc, i),
    }
}

// ─── Calls ───────────────────────────────────────────────────────────────────

/// That a byte is one of those below the top of the stack that are lent to a call.
pub open spec fn is_stack_byte(m: Machine, a: int) -> bool {
    m.ints[31] - 112 <= a < m.ints[31]
}

/// That a machine enters a kernel for a call: the pointers to the inputs, the output and
/// the number of elements are in their registers, the inputs in memory, and the stack has
/// room apart from them.
pub open spec fn enters_aarch64(c: Call, m: Machine) -> bool {
    &&& sized(m)
    &&& m.ints[0] == c.inputs
    &&& m.ints[1] == c.output
    &&& m.ints[2] == c.count
    &&& holds_inputs(m.mem, c)
    &&& m.ints[31] >= 112
    &&& forall|a: int| #[trigger]
        is_stack_byte(m, a) ==> !is_input_byte(c, a) && !is_output_byte(c, a)
}

/// That a machine has left a kernel that it had entered: the stack and the registers
/// that the caller keeps are as before, and memory but for the output and the stack.
pub open spec fn leaves_aarch64(c: Call, m: Machine, t: Machine) -> bool {
    &&& forall|r: int| 19 <= r < 32 ==> #[trigger] t.ints[r] == m.ints[r]
    &&& forall|r: int| 8 <= r < 16 ==> #[trigger] t.vals[r] == m.vals[r]
    &&& forall|a: int|
        !is_output_byte(c, a) && !is_stack_byte(m, a) ==> #[trigger] (t.mem)(a) == (m.mem)(a)
}

/// That memory holds numbers in a row.
spec fn holds_slots(mem: spec_fn(int) -> u8, base: int, s: Seq<u64>) -> bool {
    forall|k: int| 0 <= k < s.len() ==> read(mem, base + 8 * k, 8) == #[trigger] s[k]
}

/// The registers that are saved, in their order in memory.
spec fn saved(e: Machine) -> Seq<u64> {
    seq![e.ints[29], e.ints[30], e.ints[19], e.ints[20], e.ints[21], e.ints[22]]
        + e.vals.subrange(8, 16)
}

proof fn lemma_two_slots(mem: spec_fn(int) -> u8, base: int, s: Seq<u64>, a: u64, b: u64)
    requires
        holds_slots(mem, base, s),
    ensures
        ({
            let at = base + 8 * s.len();
            let after = written(written(mem, at, 8, a as nat), at + 8, 8, b as nat);
            &&& holds_slots(after, base, s.push(a).push(b))
            &&& forall|x: int| !(at <= x < at + 16) ==> #[trigger] after(x) == mem(x)
        }),
{
    let at = base + 8 * s.len();
    let first = written(mem, at, 8, a as nat);
    let after = written(first, at + 8, 8, b as nat);
    let n = s.len() as int;
    crate::bits::lemma_pow2_64();
    lemma_read_written(mem, at, 8, a as nat);
    lemma_read_written(first, at + 8, 8, b as nat);
    lemma_read_same(first, after, at, 8);
    assert forall|k: int| 0 <= k < s.push(a).push(b).len() implies read(after, base + 8 * k, 8)
        == #[trigger] s.push(a).push(b)[k] by {
        if k < n {
            lemma_read_same(mem, after, base + 8 * k, 8);
            assert(s[k] == s.push(a).push(b)[k]);
        } else if k == n {
            assert(base + 8 * k == at);
        } else {
            assert(base + 8 * k == at + 8);
        }
    }
}

proof fn lemma_slots_stay(
    mem: spec_fn(int) -> u8,
    other: spec_fn(int) -> u8,
    base: int,
    s: Seq<u64>,
)
    requires
        holds_slots(mem, base, s),
        forall|a: int| base <= a < base + 8 * s.len() ==> #[trigger] mem(a) == other(a),
    ensures
        holds_slots(other, base, s),
{
    assert forall|k: int| 0 <= k < s.len() implies read(other, base + 8 * k, 8)
        == #[trigger] s[k] by {
        lemma_read_same(mem, other, base + 8 * k, 8);
    }
}

/// The instructions that save registers, one after the other.
proof fn lemma_save_path<F: Fn(FloatOp, u64, u64) -> u64>(f: F, e: Machine) -> (path: Seq<Machine>)
    ensures
        path.len() == 9,
        path[0] == e,
        effects(f, save_ops(), e) == path[8],
        path[1] == effect(f, push_pair(29, 30), path[0]),
        path[2] == effect(f, Op::Offset { d: 29, s: 31, by: 0 }, path[1]),
        path[3] == effect(f, store_pair(false, 19, 20, 16), path[2]),
        path[4] == effect(f, store_pair(false, 21, 22, 32), path[3]),
        path[5] == effect(f, store_pair(true, 8, 9, 48), path[4]),
        path[6] == effect(f, store_pair(true, 10, 11, 64), path[5]),
        path[7] == effect(f, store_pair(true, 12, 13, 80), path[6]),
        path[8] == effect(f, store_pair(true, 14, 15, 96), path[7]),
{
    let m1 = effect(f, push_pair(29, 30), e);
    let m2 = effect(f, Op::Offset { d: 29, s: 31, by: 0 }, m1);
    let m3 = effect(f, store_pair(false, 19, 20, 16), m2);
    let m4 = effect(f, store_pair(false, 21, 22, 32), m3);
    let m5 = effect(f, store_pair(true, 8, 9, 48), m4);
    let m6 = effect(f, store_pair(true, 10, 11, 64), m5);
    let m7 = effect(f, store_pair(true, 12, 13, 80), m6);
    let m8 = effect(f, store_pair(true, 14, 15, 96), m7);
    let path = seq![e, m1, m2, m3, m4, m5, m6, m7, m8];
    let ops = save_ops();
    assert(ops[0].0 == push_pair(29, 30));
    assert(ops[1].0 == Op::Offset { d: 29, s: 31, by: 0 });
    assert(ops[2].0 == store_pair(false, 19, 20, 16));
    assert(ops[3].0 == store_pair(false, 21, 22, 32));
    assert(ops[4].0 == store_pair(true, 8, 9, 48));
    assert(ops[5].0 == store_pair(true, 10, 11, 64));
    assert(ops[6].0 == store_pair(true, 12, 13, 80));
    assert(ops[7].0 == store_pair(true, 14, 15, 96));
    lemma_path(f, ops, path);
    path
}

/// Two registers are stored in the next two slots.
proof fn lemma_pair_stored<F: Fn(FloatOp, u64, u64) -> u64>(
    f: F,
    op: Op,
    m: Machine,
    base: int,
    s: Seq<u64>,
)
    requires
        sized(m),
        op is StorePair,
        op->StorePair_base == 31,
        op->StorePair_then == 0,
        m.ints[31] == base,
        op->StorePair_distance == 8 * s.len(),
        base + 8 * s.len() + 16 <= 0x1_0000_0000_0000_0000,
        holds_slots(m.mem, base, s),
    ensures
        ({
            let t = effect(f, op, m);
            let v = register(m, op->StorePair_doubles, op->StorePair_a);
            let w = register(m, op->StorePair_doubles, op->StorePair_b);
            &&& t.ints =~= m.ints
            &&& t.vals == m.vals
            &&& holds_slots(t.mem, base, s.push(v).push(w))
            &&& forall|x: int|
                !(base <= x < base + 8 * s.len() + 16) ==> #[trigger] (t.mem)(x) == (m.mem)(x)
        }),
{
    let v = register(m, op->StorePair_doubles, op->StorePair_a);
    let w = register(m, op->StorePair_doubles, op->StorePair_b);
    lemma_two_slots(m.mem, base, s, v, w);
}

proof fn lemma_saved<F: Fn(FloatOp, u64, u64) -> u64>(f: F, e: Machine) -> (t: Machine)
    requires
        sized(e),
        e.ints[31] >= 112,
    ensures
        t == effects(f, save_ops(), e),
        sized(t),
        t.ints =~= e.ints.update(31, (e.ints[31] - 112) as u64).update(
            29,
            (e.ints[31] - 112) as u64,
        ),
        holds_slots(t.mem, e.ints[31] - 112, saved(e)),
        forall|a: int| !is_stack_byte(e, a) ==> #[trigger] (t.mem)(a) == (e.mem)(a),
{
    let path = lemma_save_path(f, e);
    let base = e.ints[31] - 112;
    let s0 = Seq::<u64>::empty();
    let s1 = s0.push(e.ints[29]).push(e.ints[30]);
    let s2 = s1.push(e.ints[19]).push(e.ints[20]);
    let s3 = s2.push(e.ints[21]).push(e.ints[22]);
    let s4 = s3.push(e.vals[8]).push(e.vals[9]);
    let s5 = s4.push(e.vals[10]).push(e.vals[11]);
    let s6 = s5.push(e.vals[12]).push(e.vals[13]);
    let s7 = s6.push(e.vals[14]).push(e.vals[15]);
    lemma_two_slots(e.mem, base, s0, e.ints[29], e.ints[30]);
    assert(path[1].ints =~= e.ints.update(31, base as u64));
    assert(path[2].ints =~= e.ints.update(31, base as u64).update(29, base as u64));
    lemma_pair_stored(f, store_pair(false, 19, 20, 16), path[2], base, s1);
    lemma_pair_stored(f, store_pair(false, 21, 22, 32), path[3], base, s2);
    lemma_pair_stored(f, store_pair(true, 8, 9, 48), path[4], base, s3);
    lemma_pair_stored(f, store_pair(true, 10, 11, 64), path[5], base, s4);
    lemma_pair_stored(f, store_pair(true, 12, 13, 80), path[6], base, s5);
    lemma_pair_stored(f, store_pair(true, 14, 15, 96), path[7], base, s6);
    assert(s7 =~= saved(e));
    path[8]
}

proof fn lemma_arguments<F: Fn(FloatOp, u64, u64) -> u64>(f: F, s: Machine) -> (t: Machine)
    requires
        sized(s),
    ensures
        t == effects(f, argument_ops(), s),
        t.ints =~= s.ints.update(19, s.ints[0]).update(20, s.ints[1]).update(
            21,
            s.ints[2],
        ).update(22, 0),
        t.vals == s.vals,
        t.mem == s.mem,
{
    let m1 = effect(f, Op::Move { d: 19, s: 0 }, s);
    let m2 = effect(f, Op::Move { d: 20, s: 1 }, m1);
    let m3 = effect(f, Op::Move { d: 21, s: 2 }, m2);
    let m4 = effect(f, Op::SetInt { d: 22, v: 0 }, m3);
    let path = seq![s, m1, m2, m3, m4];
    let ops = argument_ops();
    assert(ops[0].0 == Op::Move { d: 19, s: 0 });
    assert(ops[1].0 == Op::Move { d: 20, s: 1 });
    assert(ops[2].0 == Op::Move { d: 21, s: 2 });
    assert(ops[3].0 == Op::SetInt { d: 22, v: 0 });
    lemma_path(f, ops, path);
    m4
}

proof fn lemma_entered<F: Fn(FloatOp, u64, u64) -> u64>(f: F, c: Call, e: Machine) -> (t: Machine)
    requires
        is_sound(c),
        enters_aarch64(c, e),
    ensures
        t == effects(f, prologue_ops(), e),
        at_element(aarch64_frame(), c, t, 0),
        t.ints[31] == e.ints[31] - 112,
        forall|r: int| 23 <= r < 29 ==> #[trigger] t.ints[r] == e.ints[r],
        holds_slots(t.mem, e.ints[31] - 112, saved(e)),
        forall|a: int| !is_stack_byte(e, a) ==> #[trigger] (t.mem)(a) == (e.mem)(a),
{
    let s = lemma_saved(f, e);
    lemma_effects_add(f, save_ops(), argument_ops(), e);
    assert forall|a: int| is_input_byte(c, a) implies #[trigger] (e.mem)(a) == (s.mem)(a) by {
        if is_stack_byte(e, a) {
            assert(!is_input_byte(c, a));
        }
    }
    lemma_inputs_stay(e.mem, s.mem, c);
    lemma_arguments(f, s)
}

/// The instructions that load what was saved, one after the other.
proof fn lemma_load_path<F: Fn(FloatOp, u64, u64) -> u64>(f: F, t: Machine) -> (path: Seq<Machine>)
    ensures
        path.len() == 8,
        path[0] == t,
        effects(f, epilogue_ops(), t) == path[7],
        path[1] == effect(f, load_pair(true, 14, 15, 96), path[0]),
        path[2] == effect(f, load_pair(true, 12, 13, 80), path[1]),
        path[3] == effect(f, load_pair(true, 10, 11, 64), path[2]),
        path[4] == effect(f, load_pair(true, 8, 9, 48), path[3]),
        path[5] == effect(f, load_pair(false, 21, 22, 32), path[4]),
        path[6] == effect(f, load_pair(false, 19, 20, 16), path[5]),
        path[7] == effect(f, pop_pair(29, 30), path[6]),
{
    let m1 = effect(f, load_pair(true, 14, 15, 96), t);
    let m2 = effect(f, load_pair(true, 12, 13, 80), m1);
    let m3 = effect(f, load_pair(true, 10, 11, 64), m2);
    let m4 = effect(f, load_pair(true, 8, 9, 48), m3);
    let m5 = effect(f, load_pair(false, 21, 22, 32), m4);
    let m6 = effect(f, load_pair(false, 19, 20, 16), m5);
    let m7 = effect(f, pop_pair(29, 30), m6);
    let path = seq![t, m1, m2, m3, m4, m5, m6, m7];
    let ops = epilogue_ops();
    assert(ops[0].0 == load_pair(true, 14, 15, 96));
    assert(ops[1].0 == load_pair(true, 12, 13, 80));
    assert(ops[2].0 == load_pair(true, 10, 11, 64));
    assert(ops[3].0 == load_pair(true, 8, 9, 48));
    assert(ops[4].0 == load_pair(false, 21, 22, 32));
    assert(ops[5].0 == load_pair(false, 19, 20, 16));
    assert(ops[6].0 == pop_pair(29, 30));
    lemma_path(f, ops, path);
    path
}

/// Two registers are loaded from slots.
proof fn lemma_pair_loaded<F: Fn(FloatOp, u64, u64) -> u64>(
    f: F,
    op: Op,
    m: Machine,
    base: int,
    s: Seq<u64>,
    k: int,
)
    requires
        sized(m),
        op is LoadPair,
        op->LoadPair_base == 31,
        m.ints[31] == base,
        op->LoadPair_distance == 8 * k,
        0 <= k,
        k + 1 < s.len(),
        base + 8 * k < 0x1_0000_0000_0000_0000,
        holds_slots(m.mem, base, s),
    ensures
        ({
            let t = effect(f, op, m);
            let a = op->LoadPair_a;
            let b = op->LoadPair_b;
            let moved = m.ints.update(31, wrapped(base + op->LoadPair_then));
            &&& t.mem == m.mem
            &&& op->LoadPair_doubles ==> t.ints =~= moved && t.vals =~= m.vals.update(
                a,
                s[k],
            ).update(b, s[k + 1])
            &&& !op->LoadPair_doubles ==> t.vals == m.vals && t.ints =~= moved.update(
                a,
                s[k],
            ).update(b, s[k + 1])
        }),
{
    assert(read(m.mem, base + 8 * k, 8) == s[k]);
    assert(read(m.mem, base + 8 * (k + 1), 8) == s[k + 1]);
}

proof fn lemma_left<F: Fn(FloatOp, u64, u64) -> u64>(f: F, e: Machine, t: Machine) -> (u: Machine)
    requires
        sized(e),
        sized(t),
        e.ints[31] >= 112,
        t.ints[31] == e.ints[31] - 112,
        forall|r: int| 23 <= r < 29 ==> #[trigger] t.ints[r] == e.ints[r],
        holds_slots(t.mem, e.ints[31] - 112, saved(e)),
    ensures
        u == effects(f, epilogue_ops(), t),
        u.mem == t.mem,
        forall|r: int| 19 <= r < 32 ==> #[trigger] u.ints[r] == e.ints[r],
        forall|r: int| 8 <= r < 16 ==> #[trigger] u.vals[r] == e.vals[r],
{
    let path = lemma_load_path(f, t);
    let base = e.ints[31] - 112;
    let s = saved(e);
    assert(t.ints.update(31, t.ints[31]) =~= t.ints);
    lemma_pair_loaded(f, load_pair(true, 14, 15, 96), path[0], base, s, 12);
    assert(sized(path[1]) && path[1].ints[31] == base);
    lemma_pair_loaded(f, load_pair(true, 12, 13, 80), path[1], base, s, 10);
    assert(sized(path[2]) && path[2].ints[31] == base);
    lemma_pair_loaded(f, load_pair(true, 10, 11, 64), path[2], base, s, 8);
    assert(sized(path[3]) && path[3].ints[31] == base);
    lemma_pair_loaded(f, load_pair(true, 8, 9, 48), path[3], base, s, 6);
    assert(sized(path[4]) && path[4].ints[31] == base);
    lemma_pair_loaded(f, load_pair(false, 21, 22, 32), path[4], base, s, 4);
    assert(sized(path[5]) && path[5].ints[31] == base);
    lemma_pair_loaded(f, load_pair(false, 19, 20, 16), path[5], base, s, 2);
    assert(sized(path[6]) && path[6].ints[31] == base);
    lemma_pair_loaded(f, pop_pair(29, 30), path[6], base, s, 0);
    let v = path[4].vals;
    assert(v[8] == s[6] && v[9] == s[7] && v[10] == s[8] && v[11] == s[9]);
    assert(v[12] == s[10] && v[13] == s[11] && v[14] == s[12] && v[15] == s[13]);
    assert forall|r: int| 8 <= r < 16 implies #[trigger] v[r] == e.vals[r] by {
        assert(s[r - 2] == e.vals[r]);
    }
    path[7]
}

// ─── The law ─────────────────────────────────────────────────────────────────

proof fn lemma_aarch64_body<F: Fn(FloatOp, u64, u64) -> u64>(
    f: F,
    graph: ArenaGraph,
    p: NtProgram,
    c: Call,
    env: spec_fn(nat, usize) -> u64,
)
    requires
        graph.wf(),
        has_program(f, graph),
        is_program(f, graph, p),
        is_sound(c),
        passes_variables(graph, p, c, env),
    ensures
        stores_results(
            f,
            aarch64_frame(),
            c,
            body_ops(ops_of(p.alloc@), p.insts@, p.insts@.len()),
            aarch64_scratch(),
            results(f, graph, p, c, env),
        ),
        all_go_on(body_ops(ops_of(p.alloc@), p.insts@, p.insts@.len())),
        forall|j: int| 0 <= j < p.insts@.len() ==> named_exist(p.alloc@, #[trigger] p.insts@[j]),
        p.insts@.len() <= 4096,
{
    let insts = p.insts@;
    let alloc = p.alloc@;
    let r = aarch64_frame();
    let scratch = aarch64_scratch();
    lemma_program_form(f, graph, p);
    let value = |n: nat| native_value(f, graph.tree(), p.bits, |v: usize| env(n, v));
    assert forall|j: int| 0 <= j < insts.len() implies fits_call(c, alloc, #[trigger] insts[j]) by {
        match insts[j] {
            Inst::Load { dst, .. } => {
                assert(alloc[dst as int] < 14);
            },
            Inst::Const { dst, .. } => {
                assert(alloc[dst as int] < 14);
            },
            Inst::BinOp { dst, lhs, rhs, .. } => {
                assert(alloc[dst as int] < 14 && alloc[lhs as int] < 14 && alloc[rhs as int] < 14);
            },
            Inst::Store { src, .. } => {
                assert(alloc[src as int] < 14);
            },
        }
    }
    assert forall|j: int| 0 <= j < insts.len() implies performs(
        f,
        r,
        c,
        scratch,
        ops_of(alloc)(#[trigger] insts[j]),
        alloc,
        insts[j],
    ) by {
        assert(fits_call(c, alloc, insts[j]));
        lemma_performs(f, c, alloc, insts[j]);
    }
    assert forall|j: int| 0 <= j < insts.len() implies operands_stay(
        #[trigger] insts[j],
        alloc,
    ) by {
        assert(fits_call(c, alloc, insts[j]));
    }
    assert forall|j: int| 0 <= j < insts.len() implies named_exist(alloc, #[trigger] insts[j]) by {
        assert(fits_call(c, alloc, insts[j]));
    }
    assert forall|start: Seq<u64>, n: nat|
        start.len() == 32 && n < c.count implies #[trigger] machine(
        f,
        insts,
        alloc,
        elements_at(c, n),
        start,
        (insts.len() - 1) as nat,
    )[alloc[insts.last()->src as int] as int] == value(n) by {
        lemma_value_at(f, graph, p, c, env, start, n);
    }
    lemma_body_stores(f, r, c, scratch, ops_of(alloc), alloc, insts, value);
    assert((|n: nat| stored(value(n), c.width)) =~= results(f, graph, p, c, env));
}

proof fn lemma_loop_sizes(n: nat)
    ensures
        size_of(head_ops(n + 8)) == 8,
        size_of(tail_ops(n + 16)) == 8,
{
    let h = head_ops(n + 8);
    let t = tail_ops(n + 16);
    assert(span(h, 2) == span(h, 1) + 4 && span(h, 1) == span(h, 0) + 4);
    assert(span(t, 2) == span(t, 1) + 4 && span(t, 1) == span(t, 0) + 4);
}

proof fn lemma_aarch64_run<F: Fn(FloatOp, u64, u64) -> u64>(
    f: F,
    p: NtProgram,
    c: Call,
    result: spec_fn(nat) -> nat,
    m: Machine,
) -> (t: Machine)
    requires
        is_sound(c),
        enters_aarch64(c, m),
        stores_results(
            f,
            aarch64_frame(),
            c,
            body_ops(ops_of(p.alloc@), p.insts@, p.insts@.len()),
            aarch64_scratch(),
            result,
        ),
        all_go_on(body_ops(ops_of(p.alloc@), p.insts@, p.insts@.len())),
        forall|j: int| 0 <= j < p.insts@.len() ==> named_exist(p.alloc@, #[trigger] p.insts@[j]),
        p.insts@.len() <= 4096,
        forall|j: nat| #[trigger] result(j) < pow2(8 * c.width),
    ensures
        leads(
            f,
            code_of(aarch64(), words(kernel_words(p))),
            State { m, at: Some(0) },
            State { m: effects(f, epilogue_ops(), t), at: None },
        ),
        sized(t),
        same_ints(effects(f, prologue_ops(), m), t, aarch64_scratch().insert(22)),
        same_but_output(effects(f, prologue_ops(), m).mem, t.mem, c),
        holds_results(t.mem, c, result, c.count),
{
    let body = body_ops(ops_of(p.alloc@), p.insts@, p.insts@.len());
    let n = 4 * body.len();
    let code = code_of(aarch64(), words(kernel_words(p)));
    lemma_kernel_stands(p);
    lemma_prologue_read();
    lemma_epilogue_read();
    let m0 = lemma_entered(f, c, m);
    lemma_loop_sizes(n);
    lemma_kernel(
        f,
        code,
        aarch64_frame(),
        c,
        prologue_ops(),
        head_ops(n + 8),
        body,
        tail_ops(n + 16),
        epilogue_ops(),
        4,
        aarch64_scratch(),
        result,
        m,
    )
}

/// The AArch64 code of a graph computes the graph's expression. Entered for a call whose
/// inputs are the graph's variables, and read and run instruction by instruction, it is
/// left again; it has then stored, for each element, what the expression yields for the
/// elements of the variables; and it has kept what belongs to its caller.
pub proof fn law_aarch64_code_computes_expression<F: Fn(FloatOp, u64, u64) -> u64>(
    f: F,
    graph: ArenaGraph,
    p: NtProgram,
    c: Call,
    env: spec_fn(nat, usize) -> u64,
    m: Machine,
)
    requires
        graph.wf(),
        has_program(f, graph),
        is_program(f, graph, p),
        is_sound(c),
        passes_variables(graph, p, c, env),
        enters_aarch64(c, m),
    ensures
        exists|t: Machine|
            {
                &&& #[trigger] leads(
                    f,
                    code_of(aarch64(), words(kernel_words(p))),
                    State { m, at: Some(0) },
                    State { m: t, at: None },
                )
                &&& holds_values(f, graph, p, c, env, t.mem)
                &&& leaves_aarch64(c, m, t)
            },
{
    let result = results(f, graph, p, c, env);
    lemma_aarch64_body(f, graph, p, c, env);
    assert forall|j: nat| #[trigger] result(j) < pow2(8 * c.width) by {
        crate::bits::lemma_pow2_64();
        lemma2_to64();
    }
    let m0 = lemma_entered(f, c, m);
    let t = lemma_aarch64_run(f, p, c, result, m);
    assert(m0.ints[31] == t.ints[31]);
    assert forall|r: int| 23 <= r < 29 implies #[trigger] t.ints[r] == m.ints[r] by {
        assert(m0.ints[r] == t.ints[r]);
    }
    let base = m.ints[31] - 112;
    assert forall|a: int| base <= a < base + 112 implies #[trigger] (m0.mem)(a) == (t.mem)(a) by {
        assert(is_stack_byte(m, a));
    }
    lemma_slots_stay(m0.mem, t.mem, base, saved(m));
    let u = lemma_left(f, m, t);
    assert forall|i: nat| i < c.count implies #[trigger] read(
        u.mem,
        c.output + scaled(i as int, c.width),
        c.width,
    ) == stored(native_value(f, graph.tree(), p.bits, |v: usize| env(i, v)), c.width) by {
        assert(read(t.mem, c.output + scaled(i as int, c.width), c.width) == result(i));
    }
    assert forall|a: int|
        !is_output_byte(c, a) && !is_stack_byte(m, a) implies #[trigger] (u.mem)(a) == (m.mem)(
        a,
    ) by {
        assert((m0.mem)(a) == (t.mem)(a));
        assert((m0.mem)(a) == (m.mem)(a));
    }
    assert(leads(
        f,
        code_of(aarch64(), words(kernel_words(p))),
        State { m, at: Some(0) },
        State { m: u, at: None },
    ));
}

} // verus!
