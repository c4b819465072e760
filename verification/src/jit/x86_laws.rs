//! What x86-64 kernels compute: their code, read and run as machine instructions, stores
//! for each element what the expression yields, and gives back what it was lent.

use crate::graph::ArenaGraph;
use crate::jit::decode_x86::{
    element_of, lemma_inst_spelled, lemma_jge, lemma_jmp_back, lemma_loop_pieces, named_exist, x86,
    x86_ops,
};
use crate::jit::emit::{
    body_code, compare_code, epilogue_code, inc_code, inst_code, jge_code, jmp_back_code,
    kernel_code, lemma_body_len, loop_code, prologue_code,
};
use crate::jit::ir::{has_program, is_program, load_ids, lowering_order, Inst, NtProgram, PReg};
use crate::jit::kernel_laws::{
    at_element, body_ops, elements_at, holds_inputs, holds_results, is_input_byte, is_output_byte,
    is_sound, lemma_body_stores, lemma_inputs_stay, lemma_kernel, operands_stay, performs,
    same_but_output, same_ints, sized, stored, stores_results, vals_after, widened, Call, Frame,
};
use crate::jit::laws::{
    law_program_computes_expression, law_registers_keep_values, lemma_program_form, machine,
    native_value,
};
use crate::jit::machine::{
    address, all_go_on, code_of, effect, effects, goes_on, is_piece, joined, leads,
    lemma_effects_add, lemma_effects_few, lemma_path, lemma_pieces, lemma_read_same,
    lemma_read_written, lemma_spelled_stands, lemma_spells_add, lemma_spells_none,
    lemma_spells_one, listed, low, read, scaled, size_of, span, spells, stands, written, Machine,
    Op, State,
};
use crate::soft_float::{f32_of_f64, f64_of_f32, FloatOp};
use vstd::arithmetic::power2::*;
use vstd::prelude::*;

verus! {

// ─── Prologue and epilogue ───────────────────────────────────────────────────

proof fn lemma_push_rbp()
    ensures
        is_piece(x86(), (seq![0x55u8], Op::Push { s: 5, sp: 4 })),
{
    let b = seq![0x55u8];
    let op = Op::Push { s: 5, sp: 4 };
    reveal(x86);
    assert forall|rest: Seq<u8>| #[trigger] x86()(b + rest) == Some((op, b.len())) by {
        let t = b + rest;
        assert(t[0] == 0x55);
    }
    lemma_spells_one(x86(), b, op);
}

proof fn lemma_mov_rbp()
    ensures
        is_piece(x86(), (seq![0x48u8, 0x89u8, 0xE5u8], Op::Move { d: 5, s: 4 })),
{
    let b = seq![0x48u8, 0x89u8, 0xE5u8];
    let op = Op::Move { d: 5, s: 4 };
    reveal(x86);
    assert forall|rest: Seq<u8>| #[trigger] x86()(b + rest) == Some((op, b.len())) by {
        let t = b + rest;
        assert(t[0] == 0x48 && t[1] == 0x89 && t[2] == 0xE5);
    }
    lemma_spells_one(x86(), b, op);
}

proof fn lemma_push_rbx()
    ensures
        is_piece(x86(), (seq![0x53u8], Op::Push { s: 3, sp: 4 })),
{
    let b = seq![0x53u8];
    let op = Op::Push { s: 3, sp: 4 };
    reveal(x86);
    assert forall|rest: Seq<u8>| #[trigger] x86()(b + rest) == Some((op, b.len())) by {
        let t = b + rest;
        assert(t[0] == 0x53);
    }
    lemma_spells_one(x86(), b, op);
}

proof fn lemma_push_r14()
    ensures
        is_piece(x86(), (seq![0x41u8, 0x56u8], Op::Push { s: 14, sp: 4 })),
{
    let b = seq![0x41u8, 0x56u8];
    let op = Op::Push { s: 14, sp: 4 };
    reveal(x86);
    assert forall|rest: Seq<u8>| #[trigger] x86()(b + rest) == Some((op, b.len())) by {
        let t = b + rest;
        assert(t[0] == 0x41 && t[1] == 0x56);
    }
    lemma_spells_one(x86(), b, op);
}

proof fn lemma_push_r15()
    ensures
        is_piece(x86(), (seq![0x41u8, 0x57u8], Op::Push { s: 15, sp: 4 })),
{
    let b = seq![0x41u8, 0x57u8];
    let op = Op::Push { s: 15, sp: 4 };
    reveal(x86);
    assert forall|rest: Seq<u8>| #[trigger] x86()(b + rest) == Some((op, b.len())) by {
        let t = b + rest;
        assert(t[0] == 0x41 && t[1] == 0x57);
    }
    lemma_spells_one(x86(), b, op);
}

proof fn lemma_sub_rsp()
    ensures
        is_piece(x86(), (seq![0x48u8, 0x83u8, 0xECu8, 0x08u8], Op::Offset { d: 4, s: 4, by: -8 })),
{
    let b = seq![0x48u8, 0x83u8, 0xECu8, 0x08u8];
    let op = Op::Offset { d: 4, s: 4, by: -8 };
    reveal(x86);
    assert forall|rest: Seq<u8>| #[trigger] x86()(b + rest) == Some((op, b.len())) by {
        let t = b + rest;
        assert(t[0] == 0x48 && t[1] == 0x83 && t[2] == 0xEC && t[3] == 0x08);
    }
    lemma_spells_one(x86(), b, op);
}

proof fn lemma_win_inputs()
    ensures
        is_piece(x86(), (seq![0x48u8, 0x89u8, 0xCBu8], Op::Move { d: 3, s: 1 })),
{
    let b = seq![0x48u8, 0x89u8, 0xCBu8];
    let op = Op::Move { d: 3, s: 1 };
    reveal(x86);
    assert forall|rest: Seq<u8>| #[trigger] x86()(b + rest) == Some((op, b.len())) by {
        let t = b + rest;
        assert(t[0] == 0x48 && t[1] == 0x89 && t[2] == 0xCB);
    }
    lemma_spells_one(x86(), b, op);
}

proof fn lemma_win_output()
    ensures
        is_piece(x86(), (seq![0x49u8, 0x89u8, 0xD6u8], Op::Move { d: 14, s: 2 })),
{
    let b = seq![0x49u8, 0x89u8, 0xD6u8];
    let op = Op::Move { d: 14, s: 2 };
    reveal(x86);
    assert forall|rest: Seq<u8>| #[trigger] x86()(b + rest) == Some((op, b.len())) by {
        let t = b + rest;
        assert(t[0] == 0x49 && t[1] == 0x89 && t[2] == 0xD6);
    }
    lemma_spells_one(x86(), b, op);
}

proof fn lemma_win_count()
    ensures
        is_piece(x86(), (seq![0x4Du8, 0x89u8, 0xC7u8], Op::Move { d: 15, s: 8 })),
{
    let b = seq![0x4Du8, 0x89u8, 0xC7u8];
    let op = Op::Move { d: 15, s: 8 };
    reveal(x86);
    assert forall|rest: Seq<u8>| #[trigger] x86()(b + rest) == Some((op, b.len())) by {
        let t = b + rest;
        assert(t[0] == 0x4D && t[1] == 0x89 && t[2] == 0xC7);
    }
    lemma_spells_one(x86(), b, op);
}

proof fn lemma_sysv_inputs()
    ensures
        is_piece(x86(), (seq![0x48u8, 0x89u8, 0xFBu8], Op::Move { d: 3, s: 7 })),
{
    let b = seq![0x48u8, 0x89u8, 0xFBu8];
    let op = Op::Move { d: 3, s: 7 };
    reveal(x86);
    assert forall|rest: Seq<u8>| #[trigger] x86()(b + rest) == Some((op, b.len())) by {
        let t = b + rest;
        assert(t[0] == 0x48 && t[1] == 0x89 && t[2] == 0xFB);
    }
    lemma_spells_one(x86(), b, op);
}

proof fn lemma_sysv_output()
    ensures
        is_piece(x86(), (seq![0x49u8, 0x89u8, 0xF6u8], Op::Move { d: 14, s: 6 })),
{
    let b = seq![0x49u8, 0x89u8, 0xF6u8];
    let op = Op::Move { d: 14, s: 6 };
    reveal(x86);
    assert forall|rest: Seq<u8>| #[trigger] x86()(b + rest) == Some((op, b.len())) by {
        let t = b + rest;
        assert(t[0] == 0x49 && t[1] == 0x89 && t[2] == 0xF6);
    }
    lemma_spells_one(x86(), b, op);
}

proof fn lemma_sysv_count()
    ensures
        is_piece(x86(), (seq![0x49u8, 0x89u8, 0xD7u8], Op::Move { d: 15, s: 2 })),
{
    let b = seq![0x49u8, 0x89u8, 0xD7u8];
    let op = Op::Move { d: 15, s: 2 };
    reveal(x86);
    assert forall|rest: Seq<u8>| #[trigger] x86()(b + rest) == Some((op, b.len())) by {
        let t = b + rest;
        assert(t[0] == 0x49 && t[1] == 0x89 && t[2] == 0xD7);
    }
    lemma_spells_one(x86(), b, op);
}

proof fn lemma_zero_index()
    ensures
        is_piece(x86(), (seq![0x4Du8, 0x31u8, 0xD2u8], Op::SetInt { d: 10, v: 0 })),
{
    let b = seq![0x4Du8, 0x31u8, 0xD2u8];
    let op = Op::SetInt { d: 10, v: 0 };
    reveal(x86);
    assert forall|rest: Seq<u8>| #[trigger] x86()(b + rest) == Some((op, b.len())) by {
        let t = b + rest;
        assert(t[0] == 0x4D && t[1] == 0x31 && t[2] == 0xD2);
    }
    lemma_spells_one(x86(), b, op);
}

proof fn lemma_add_rsp()
    ensures
        is_piece(x86(), (seq![0x48u8, 0x83u8, 0xC4u8, 0x08u8], Op::Offset { d: 4, s: 4, by: 8 })),
{
    let b = seq![0x48u8, 0x83u8, 0xC4u8, 0x08u8];
    let op = Op::Offset { d: 4, s: 4, by: 8 };
    reveal(x86);
    assert forall|rest: Seq<u8>| #[trigger] x86()(b + rest) == Some((op, b.len())) by {
        let t = b + rest;
        assert(t[0] == 0x48 && t[1] == 0x83 && t[2] == 0xC4 && t[3] == 0x08);
    }
    lemma_spells_one(x86(), b, op);
}

proof fn lemma_pop_r15()
    ensures
        is_piece(x86(), (seq![0x41u8, 0x5Fu8], Op::Pop { d: 15, sp: 4 })),
{
    let b = seq![0x41u8, 0x5Fu8];
    let op = Op::Pop { d: 15, sp: 4 };
    reveal(x86);
    assert forall|rest: Seq<u8>| #[trigger] x86()(b + rest) == Some((op, b.len())) by {
        let t = b + rest;
        assert(t[0] == 0x41 && t[1] == 0x5F);
    }
    lemma_spells_one(x86(), b, op);
}

proof fn lemma_pop_r14()
    ensures
        is_piece(x86(), (seq![0x41u8, 0x5Eu8], Op::Pop { d: 14, sp: 4 })),
{
    let b = seq![0x41u8, 0x5Eu8];
    let op = Op::Pop { d: 14, sp: 4 };
    reveal(x86);
    assert forall|rest: Seq<u8>| #[trigger] x86()(b + rest) == Some((op, b.len())) by {
        let t = b + rest;
        assert(t[0] == 0x41 && t[1] == 0x5E);
    }
    lemma_spells_one(x86(), b, op);
}

proof fn lemma_pop_rbx()
    ensures
        is_piece(x86(), (seq![0x5Bu8], Op::Pop { d: 3, sp: 4 })),
{
    let b = seq![0x5Bu8];
    let op = Op::Pop { d: 3, sp: 4 };
    reveal(x86);
    assert forall|rest: Seq<u8>| #[trigger] x86()(b + rest) == Some((op, b.len())) by {
        let t = b + rest;
        assert(t[0] == 0x5B);
    }
    lemma_spells_one(x86(), b, op);
}

proof fn lemma_pop_rbp()
    ensures
        is_piece(x86(), (seq![0x5Du8], Op::Pop { d: 5, sp: 4 })),
{
    let b = seq![0x5Du8];
    let op = Op::Pop { d: 5, sp: 4 };
    reveal(x86);
    assert forall|rest: Seq<u8>| #[trigger] x86()(b + rest) == Some((op, b.len())) by {
        let t = b + rest;
        assert(t[0] == 0x5D);
    }
    lemma_spells_one(x86(), b, op);
}

proof fn lemma_ret()
    ensures
        is_piece(x86(), (seq![0xC3u8], Op::Return)),
{
    let b = seq![0xC3u8];
    let op = Op::Return;
    reveal(x86);
    assert forall|rest: Seq<u8>| #[trigger] x86()(b + rest) == Some((op, b.len())) by {
        let t = b + rest;
        assert(t[0] == 0xC3);
    }
    lemma_spells_one(x86(), b, op);
}

/// The instructions of the prologue: registers are saved, the stack is aligned, and the
/// arguments are moved to where the loop has them.
pub open spec fn prologue_ops(windows: bool) -> Seq<(Op, nat)> {
    save_ops() + argument_ops(windows)
}

pub open spec fn save_ops() -> Seq<(Op, nat)> {
    seq![
        (Op::Push { s: 5, sp: 4 }, 1nat),
        (Op::Move { d: 5, s: 4 }, 3nat),
        (Op::Push { s: 3, sp: 4 }, 1nat),
        (Op::Push { s: 14, sp: 4 }, 2nat),
        (Op::Push { s: 15, sp: 4 }, 2nat),
        (Op::Offset { d: 4, s: 4, by: -8 }, 4nat),
    ]
}

pub open spec fn argument_ops(windows: bool) -> Seq<(Op, nat)> {
    if windows {
        seq![
            (Op::Move { d: 3, s: 1 }, 3nat),
            (Op::Move { d: 14, s: 2 }, 3nat),
            (Op::Move { d: 15, s: 8 }, 3nat),
            (Op::SetInt { d: 10, v: 0 }, 3nat),
        ]
    } else {
        seq![
            (Op::Move { d: 3, s: 7 }, 3nat),
            (Op::Move { d: 14, s: 6 }, 3nat),
            (Op::Move { d: 15, s: 2 }, 3nat),
            (Op::SetInt { d: 10, v: 0 }, 3nat),
        ]
    }
}

/// The instructions of the epilogue but for the last, which leaves the code.
pub open spec fn epilogue_ops() -> Seq<(Op, nat)> {
    seq![
        (Op::Offset { d: 4, s: 4, by: 8 }, 4nat),
        (Op::Pop { d: 15, sp: 4 }, 2nat),
        (Op::Pop { d: 14, sp: 4 }, 2nat),
        (Op::Pop { d: 3, sp: 4 }, 1nat),
        (Op::Pop { d: 5, sp: 4 }, 1nat),
    ]
}

proof fn lemma_save_spelled() -> (b: Seq<u8>)
    ensures
        b == seq![
            0x55u8, 0x48u8, 0x89u8, 0xE5u8, 0x53u8, 0x41u8, 0x56u8, 0x41u8,
            0x57u8, 0x48u8, 0x83u8, 0xECu8, 0x08u8,
        ],
        spells(x86(), b, save_ops()),
{
    lemma_push_rbp();
    lemma_mov_rbp();
    lemma_push_rbx();
    lemma_push_r14();
    lemma_push_r15();
    lemma_sub_rsp();
    let parts = seq![
        (seq![0x55u8], Op::Push { s: 5, sp: 4 }),
        (seq![0x48u8, 0x89u8, 0xE5u8], Op::Move { d: 5, s: 4 }),
        (seq![0x53u8], Op::Push { s: 3, sp: 4 }),
        (seq![0x41u8, 0x56u8], Op::Push { s: 14, sp: 4 }),
        (seq![0x41u8, 0x57u8], Op::Push { s: 15, sp: 4 }),
        (seq![0x48u8, 0x83u8, 0xECu8, 0x08u8], Op::Offset { d: 4, s: 4, by: -8 }),
    ];
    lemma_pieces(x86(), parts);
    reveal_with_fuel(joined, 7);
    assert(listed(parts) =~= save_ops());
    assert(joined(parts) =~= seq![
        0x55u8, 0x48u8, 0x89u8, 0xE5u8, 0x53u8, 0x41u8, 0x56u8, 0x41u8,
        0x57u8, 0x48u8, 0x83u8, 0xECu8, 0x08u8,
    ]);
    joined(parts)
}

proof fn lemma_windows_arguments_spelled() -> (b: Seq<u8>)
    ensures
        b == seq![
            0x48u8, 0x89u8, 0xCBu8, 0x49u8, 0x89u8, 0xD6u8, 0x4Du8, 0x89u8,
            0xC7u8, 0x4Du8, 0x31u8, 0xD2u8,
        ],
        spells(x86(), b, argument_ops(true)),
{
    lemma_win_inputs();
    lemma_win_output();
    lemma_win_count();
    lemma_zero_index();
    let parts = seq![
        (seq![0x48u8, 0x89u8, 0xCBu8], Op::Move { d: 3, s: 1 }),
        (seq![0x49u8, 0x89u8, 0xD6u8], Op::Move { d: 14, s: 2 }),
        (seq![0x4Du8, 0x89u8, 0xC7u8], Op::Move { d: 15, s: 8 }),
        (seq![0x4Du8, 0x31u8, 0xD2u8], Op::SetInt { d: 10, v: 0 }),
    ];
    lemma_pieces(x86(), parts);
    reveal_with_fuel(joined, 5);
    assert(listed(parts) =~= argument_ops(true));
    assert(joined(parts) =~= seq![
        0x48u8, 0x89u8, 0xCBu8, 0x49u8, 0x89u8, 0xD6u8, 0x4Du8, 0x89u8,
        0xC7u8, 0x4Du8, 0x31u8, 0xD2u8,
    ]);
    joined(parts)
}

proof fn lemma_system_v_arguments_spelled() -> (b: Seq<u8>)
    ensures
        b == seq![
            0x48u8, 0x89u8, 0xFBu8, 0x49u8, 0x89u8, 0xF6u8, 0x49u8, 0x89u8,
            0xD7u8, 0x4Du8, 0x31u8, 0xD2u8,
        ],
        spells(x86(), b, argument_ops(false)),
{
    lemma_sysv_inputs();
    lemma_sysv_output();
    lemma_sysv_count();
    lemma_zero_index();
    let parts = seq![
        (seq![0x48u8, 0x89u8, 0xFBu8], Op::Move { d: 3, s: 7 }),
        (seq![0x49u8, 0x89u8, 0xF6u8], Op::Move { d: 14, s: 6 }),
        (seq![0x49u8, 0x89u8, 0xD7u8], Op::Move { d: 15, s: 2 }),
        (seq![0x4Du8, 0x31u8, 0xD2u8], Op::SetInt { d: 10, v: 0 }),
    ];
    lemma_pieces(x86(), parts);
    reveal_with_fuel(joined, 5);
    assert(listed(parts) =~= argument_ops(false));
    assert(joined(parts) =~= seq![
        0x48u8, 0x89u8, 0xFBu8, 0x49u8, 0x89u8, 0xF6u8, 0x49u8, 0x89u8,
        0xD7u8, 0x4Du8, 0x31u8, 0xD2u8,
    ]);
    joined(parts)
}

proof fn lemma_restore_spelled() -> (b: Seq<u8>)
    ensures
        b == seq![
            0x48u8, 0x83u8, 0xC4u8, 0x08u8, 0x41u8, 0x5Fu8, 0x41u8, 0x5Eu8,
            0x5Bu8, 0x5Du8,
        ],
        spells(x86(), b, epilogue_ops()),
{
    lemma_add_rsp();
    lemma_pop_r15();
    lemma_pop_r14();
    lemma_pop_rbx();
    lemma_pop_rbp();
    let parts = seq![
        (seq![0x48u8, 0x83u8, 0xC4u8, 0x08u8], Op::Offset { d: 4, s: 4, by: 8 }),
        (seq![0x41u8, 0x5Fu8], Op::Pop { d: 15, sp: 4 }),
        (seq![0x41u8, 0x5Eu8], Op::Pop { d: 14, sp: 4 }),
        (seq![0x5Bu8], Op::Pop { d: 3, sp: 4 }),
        (seq![0x5Du8], Op::Pop { d: 5, sp: 4 }),
    ];
    lemma_pieces(x86(), parts);
    reveal_with_fuel(joined, 6);
    assert(listed(parts) =~= epilogue_ops());
    assert(joined(parts) =~= seq![
        0x48u8, 0x83u8, 0xC4u8, 0x08u8, 0x41u8, 0x5Fu8, 0x41u8, 0x5Eu8,
        0x5Bu8, 0x5Du8,
    ]);
    joined(parts)
}

proof fn lemma_prologue_spelled(windows: bool)
    ensures
        spells(x86(), prologue_code(windows), prologue_ops(windows)),
{
    let save = lemma_save_spelled();
    let args = if windows {
        lemma_windows_arguments_spelled()
    } else {
        lemma_system_v_arguments_spelled()
    };
    lemma_spells_add(x86(), save, save_ops(), args, argument_ops(windows));
    assert(prologue_code(windows) =~= save + args);
}

proof fn lemma_epilogue_spelled()
    ensures
        spells(x86(), epilogue_code(), epilogue_ops() + seq![(Op::Return, 1nat)]),
{
    let restore = lemma_restore_spelled();
    lemma_ret();
    lemma_spells_add(x86(), restore, epilogue_ops(), seq![0xC3u8], seq![(Op::Return, 1nat)]);
    assert(epilogue_code() =~= restore + seq![0xC3u8]);
}

// ─── The whole kernel ────────────────────────────────────────────────────────

/// The machine instructions of each instruction.
pub open spec fn ops_of(alloc: Seq<PReg>) -> spec_fn(Inst) -> Seq<(Op, nat)> {
    |i: Inst| x86_ops(alloc, i)
}

proof fn lemma_body_spelled(alloc: Seq<PReg>, insts: Seq<Inst>, k: nat)
    requires
        k <= insts.len(),
        forall|j: int| 0 <= j < insts.len() ==> named_exist(alloc, #[trigger] insts[j]),
    ensures
        spells(x86(), body_code(alloc, insts, k), body_ops(ops_of(alloc), insts, k)),
    decreases k,
{
    if k == 0 {
        lemma_spells_none(x86());
    } else {
        lemma_body_spelled(alloc, insts, (k - 1) as nat);
        lemma_inst_spelled(alloc, insts[k - 1]);
        lemma_spells_add(
            x86(),
            body_code(alloc, insts, (k - 1) as nat),
            body_ops(ops_of(alloc), insts, (k - 1) as nat),
            inst_code(alloc, insts[k - 1]),
            x86_ops(alloc, insts[k - 1]),
        );
    }
}

pub open spec fn head_ops(over: nat) -> Seq<(Op, nat)> {
    seq![(Op::Compare { a: 10, b: 15 }, 3nat), (Op::JumpGe { by: over as int }, 6nat)]
}

pub open spec fn tail_ops(back: nat) -> Seq<(Op, nat)> {
    seq![(Op::Offset { d: 10, s: 10, by: 1 }, 3nat), (Op::Jump { by: -(back as int) }, 5nat)]
}

/// The machine instructions of a kernel.
pub open spec fn kernel_ops(p: NtProgram, windows: bool) -> Seq<(Op, nat)> {
    let body = body_ops(ops_of(p.alloc@), p.insts@, p.insts@.len());
    let n = size_of(body);
    prologue_ops(windows) + (head_ops(n + 8) + body + tail_ops(n + 17)) + (epilogue_ops() + seq![
        (Op::Return, 1nat),
    ])
}

proof fn lemma_kernel_spelled(p: NtProgram, windows: bool)
    requires
        forall|j: int| 0 <= j < p.insts@.len() ==> named_exist(p.alloc@, #[trigger] p.insts@[j]),
        p.insts@.len() <= 4096,
    ensures
        spells(x86(), kernel_code(p, windows), kernel_ops(p, windows)),
        size_of(body_ops(ops_of(p.alloc@), p.insts@, p.insts@.len())) <= 32 * 4096,
{
    let body = body_ops(ops_of(p.alloc@), p.insts@, p.insts@.len());
    let code = body_code(p.alloc@, p.insts@, p.insts@.len());
    let n = code.len();
    lemma_body_spelled(p.alloc@, p.insts@, p.insts@.len());
    lemma_body_len(p.alloc@, p.insts@, p.insts@.len());
    lemma_loop_pieces();
    lemma_jge((n + 8) as nat);
    lemma_jmp_back((n + 17) as nat);
    let test = (Op::Compare { a: 10, b: 15 }, 3nat);
    let jge = (Op::JumpGe { by: (n + 8) as int }, 6nat);
    let inc = (Op::Offset { d: 10, s: 10, by: 1 }, 3nat);
    let jmp = (Op::Jump { by: -((n + 17) as int) }, 5nat);
    lemma_spells_add(x86(), compare_code(), seq![test], jge_code((n + 8) as nat), seq![jge]);
    assert(seq![test] + seq![jge] =~= head_ops(n + 8));
    lemma_spells_add(x86(), inc_code(), seq![inc], jmp_back_code((n + 17) as nat), seq![jmp]);
    assert(seq![inc] + seq![jmp] =~= tail_ops(n + 17));
    let start = compare_code() + jge_code((n + 8) as nat);
    let end = inc_code() + jmp_back_code((n + 17) as nat);
    lemma_spells_add(x86(), start, head_ops(n + 8), code, body);
    lemma_spells_add(x86(), start + code, head_ops(n + 8) + body, end, tail_ops(n + 17));
    assert(loop_code(code) =~= start + code + end);
    lemma_prologue_spelled(windows);
    lemma_epilogue_spelled();
    let mid = head_ops(n + 8) + body + tail_ops(n + 17);
    let last = epilogue_ops() + seq![(Op::Return, 1nat)];
    lemma_spells_add(
        x86(),
        prologue_code(windows),
        prologue_ops(windows),
        loop_code(code),
        mid,
    );
    lemma_spells_add(
        x86(),
        prologue_code(windows) + loop_code(code),
        prologue_ops(windows) + mid,
        epilogue_code(),
        last,
    );
}

proof fn lemma_sizes(alloc: Seq<PReg>, insts: Seq<Inst>, k: nat)
    requires
        k <= insts.len(),
    ensures
        forall|i: int|
            0 <= i < body_ops(ops_of(alloc), insts, k).len() ==> (#[trigger] body_ops(
                ops_of(alloc),
                insts,
                k,
            )[i]).1 > 0,
    decreases k,
{
    if k > 0 {
        lemma_sizes(alloc, insts, (k - 1) as nat);
        let a = body_ops(ops_of(alloc), insts, (k - 1) as nat);
        let b = x86_ops(alloc, insts[k - 1]);
        assert forall|i: int| 0 <= i < (a + b).len() implies (#[trigger] (a + b)[i]).1 > 0 by {
            if i >= a.len() {
                assert((a + b)[i] == b[i - a.len()]);
            }
        }
    }
}

// ─── What instructions do ────────────────────────────────────────────────────

/// The registers of the loop.
pub open spec fn x86_frame() -> Frame {
    Frame { inputs: 3, output: 14, count: 15, index: 10 }
}

/// The register that the body uses besides.
pub open spec fn x86_scratch() -> Set<int> {
    set![0int]
}

/// That an instruction of a program names what a call has.
pub open spec fn fits_call(c: Call, alloc: Seq<PReg>, i: Inst) -> bool {
    &&& named_exist(alloc, i)
    &&& operands_stay(i, alloc)
    &&& match i {
        Inst::Load { input_idx, bits, .. } => input_idx < c.slots && bits == 8 * c.width,
        Inst::Store { bits, .. } => bits == 8 * c.width,
        _ => true,
    }
}

proof fn lemma_load_performs<F: Fn(FloatOp, u64, u64) -> u64>(
    f: F,
    c: Call,
    alloc: Seq<PReg>,
    i: Inst,
)
    requires
        is_sound(c),
        fits_call(c, alloc, i),
        i is Load,
    ensures
        performs(f, x86_frame(), c, x86_scratch(), x86_ops(alloc, i), alloc, i),
{
    let dst = i->Load_dst;
    let slot = i->input_idx as nat;
    let x = alloc[dst as int] as int;
    let ops = x86_ops(alloc, i);
    let first = ops[0];
    assert(all_go_on(ops));
    assert forall|m: Machine, n: nat| #[trigger]
        at_element(x86_frame(), c, m, n) && n < c.count implies {
        let t = effects(f, ops, m);
        &&& sized(t)
        &&& same_ints(m, t, x86_scratch())
        &&& t.mem == m.mem
        &&& t.vals == vals_after(f, i, alloc, elements_at(c, n), m.vals)
    } by {
        let p = (c.pointer)(slot);
        let raw = (c.raw)(slot, n);
        let m1 = effect(f, first.0, m);
        assert(m1.ints[0] == p);
        assert(address(m1, element_of(0, c.width)) == p + scaled(n as int, c.width));
        assert(read(m1.mem, p + scaled(n as int, c.width), c.width) == raw);
        if c.width == 8 {
            assert(ops =~= seq![first, ops[1]]);
            lemma_effects_few(f, first, ops[1], ops[1], m);
        } else {
            lemma_raw_bound(m.mem, p + scaled(n as int, c.width));
            let rest = seq![ops[1], ops[2], ops[3]];
            assert(ops =~= seq![first] + rest);
            lemma_effects_add(f, seq![first], rest, m);
            lemma_effects_few(f, first, first, first, m);
            lemma_effects_few(f, ops[1], ops[2], ops[3], m1);
            let m2 = effect(f, ops[1].0, m1);
            let m3 = effect(f, ops[2].0, m2);
            let m4 = effect(f, ops[3].0, m3);
            assert(m2.ints[0] == raw);
            assert(m3.vals[x] == raw);
            assert(m4.vals =~= m.vals.update(x, widened(raw, c.width)));
        }
    }
}

/// A number of four bytes.
pub proof fn lemma_raw_bound(mem: spec_fn(int) -> u8, at: int)
    ensures
        read(mem, at, 4) < 0x1_0000_0000,
{
    crate::bytes::lemma_le_of_value(Seq::new(4, |i: int| mem(at + i)));
    lemma2_to64();
}

proof fn lemma_const_performs<F: Fn(FloatOp, u64, u64) -> u64>(
    f: F,
    c: Call,
    alloc: Seq<PReg>,
    i: Inst,
)
    requires
        is_sound(c),
        fits_call(c, alloc, i),
        i is Const,
    ensures
        performs(f, x86_frame(), c, x86_scratch(), x86_ops(alloc, i), alloc, i),
{
    let ops = x86_ops(alloc, i);
    let x = alloc[i->Const_dst as int] as int;
    assert(all_go_on(ops));
    assert forall|m: Machine, n: nat| #[trigger]
        at_element(x86_frame(), c, m, n) && n < c.count implies {
        let t = effects(f, ops, m);
        &&& sized(t)
        &&& same_ints(m, t, x86_scratch())
        &&& t.mem == m.mem
        &&& t.vals == vals_after(f, i, alloc, elements_at(c, n), m.vals)
    } by {
        let m1 = effect(f, ops[0].0, m);
        let m2 = effect(f, ops[1].0, m1);
        if i->Const_bits == 64 {
            assert(ops =~= seq![ops[0], ops[1]]);
            lemma_effects_few(f, ops[0], ops[1], ops[1], m);
        } else {
            assert(ops =~= seq![ops[0], ops[1], ops[2]]);
            lemma_effects_few(f, ops[0], ops[1], ops[2], m);
            let m3 = effect(f, ops[2].0, m2);
            let v = f32_of_f64(i->val);
            assert(m2.vals[x] == v);
            assert(m3.vals =~= m.vals.update(x, f64_of_f32(v)));
        }
    }
}

proof fn lemma_binop_performs<F: Fn(FloatOp, u64, u64) -> u64>(
    f: F,
    c: Call,
    alloc: Seq<PReg>,
    i: Inst,
)
    requires
        is_sound(c),
        fits_call(c, alloc, i),
        i is BinOp,
    ensures
        performs(f, x86_frame(), c, x86_scratch(), x86_ops(alloc, i), alloc, i),
{
    let ops = x86_ops(alloc, i);
    let d = alloc[i->BinOp_dst as int] as int;
    let l = alloc[i->lhs as int] as int;
    assert(all_go_on(ops));
    assert forall|m: Machine, n: nat| #[trigger]
        at_element(x86_frame(), c, m, n) && n < c.count implies {
        let t = effects(f, ops, m);
        &&& sized(t)
        &&& same_ints(m, t, x86_scratch())
        &&& t.mem == m.mem
        &&& t.vals == vals_after(f, i, alloc, elements_at(c, n), m.vals)
    } by {
        if d != l {
            assert(ops =~= seq![ops[0], ops[1]]);
            lemma_effects_few(f, ops[0], ops[1], ops[1], m);
            let t = effect(f, ops[1].0, effect(f, ops[0].0, m));
            assert(t.vals =~= vals_after(f, i, alloc, elements_at(c, n), m.vals));
        } else {
            assert(ops =~= seq![ops[0]]);
            lemma_effects_few(f, ops[0], ops[0], ops[0], m);
        }
    }
}

proof fn lemma_store_performs<F: Fn(FloatOp, u64, u64) -> u64>(
    f: F,
    c: Call,
    alloc: Seq<PReg>,
    i: Inst,
)
    requires
        is_sound(c),
        fits_call(c, alloc, i),
        i is Store,
    ensures
        performs(f, x86_frame(), c, x86_scratch(), x86_ops(alloc, i), alloc, i),
{
    let ops = x86_ops(alloc, i);
    let x = alloc[i->src as int] as int;
    assert(all_go_on(ops));
    assert forall|m: Machine, n: nat| #[trigger]
        at_element(x86_frame(), c, m, n) && n < c.count implies {
        let t = effects(f, ops, m);
        &&& sized(t)
        &&& same_ints(m, t, x86_scratch())
        &&& t.mem == written(
            m.mem,
            c.output + scaled(n as int, c.width),
            c.width,
            stored(m.vals[x], c.width),
        )
    } by {
        assert(address(m, element_of(14, c.width)) == c.output + scaled(n as int, c.width));
        if c.width == 8 {
            assert(ops =~= seq![ops[0]]);
            lemma_effects_few(f, ops[0], ops[0], ops[0], m);
        } else {
            assert(ops =~= seq![ops[0], ops[1], ops[2]]);
            lemma_effects_few(f, ops[0], ops[1], ops[2], m);
            let m1 = effect(f, ops[0].0, m);
            let m2 = effect(f, ops[1].0, m1);
            let v = f32_of_f64(m.vals[x]);
            assert(low(m1.vals[x], 4) == v);
            assert(m2.ints[0] == v);
            assert(address(m2, element_of(14, 4)) == address(m, element_of(14, 4)));
        }
    }
}

proof fn lemma_performs<F: Fn(FloatOp, u64, u64) -> u64>(
    f: F,
    c: Call,
    alloc: Seq<PReg>,
    i: Inst,
)
    requires
        is_sound(c),
        fits_call(c, alloc, i),
    ensures
        performs(f, x86_frame(), c, x86_scratch(), x86_ops(alloc, i), alloc, i),
{
    match i {
        Inst::Load { .. } => lemma_load_performs(f, c, alloc, i),
        Inst::Const { .. } => lemma_const_performs(f, c, alloc, i),
        Inst::BinOp { .. } => lemma_binop_performs(f, c, alloc, i),
        Inst::Store { .. } => lemma_store_performs(f, c, alloc, i),
    }
}

// ─── Calls ───────────────────────────────────────────────────────────────────

/// The registers of the three arguments: the pointers to the inputs, the output and the
/// number of elements.
pub open spec fn argument(windows: bool, k: int) -> int {
    if windows {
        if k == 0 {
            1
        } else if k == 1 {
            2
        } else {
            8
        }
    } else {
        if k == 0 {
            7
        } else if k == 1 {
            6
        } else {
            2
        }
    }
}

/// That a byte is one of the forty below the top of the stack.
pub open spec fn is_stack_byte(m: Machine, a: int) -> bool {
    m.ints[4] - 40 <= a < m.ints[4]
}

/// That a machine enters a kernel for a call: the arguments are in their registers, the
/// inputs in memory, and the stack has room apart from them.
pub open spec fn enters_x86(windows: bool, c: Call, m: Machine) -> bool {
    &&& sized(m)
    &&& m.ints[argument(windows, 0)] == c.inputs
    &&& m.ints[argument(windows, 1)] == c.output
    &&& m.ints[argument(windows, 2)] == c.count
    &&& holds_inputs(m.mem, c)
    &&& m.ints[4] >= 40
    &&& forall|a: int| #[trigger]
        is_stack_byte(m, a) ==> !is_input_byte(c, a) && !is_output_byte(c, a)
}

/// That a machine has left a kernel that it had entered: the stack and the registers
/// that the caller keeps are as before, and memory but for the output and the stack.
pub open spec fn leaves_x86(c: Call, m: Machine, t: Machine) -> bool {
    &&& t.ints[3] == m.ints[3]
    &&& t.ints[4] == m.ints[4]
    &&& t.ints[5] == m.ints[5]
    &&& t.ints[12] == m.ints[12]
    &&& t.ints[13] == m.ints[13]
    &&& t.ints[14] == m.ints[14]
    &&& t.ints[15] == m.ints[15]
    &&& forall|a: int|
        !is_output_byte(c, a) && !is_stack_byte(m, a) ==> #[trigger] (t.mem)(a) == (m.mem)(a)
}

/// That memory holds the registers that were saved, below the top of the stack.
spec fn holds_saved(mem: spec_fn(int) -> u8, e: Machine) -> bool {
    let sp = e.ints[4] as int;
    &&& read(mem, sp - 8, 8) == e.ints[5]
    &&& read(mem, sp - 16, 8) == e.ints[3]
    &&& read(mem, sp - 24, 8) == e.ints[14]
    &&& read(mem, sp - 32, 8) == e.ints[15]
}

proof fn lemma_saved<F: Fn(FloatOp, u64, u64) -> u64>(f: F, e: Machine) -> (t: Machine)
    requires
        sized(e),
        e.ints[4] >= 40,
    ensures
        t == effects(f, save_ops(), e),
        sized(t),
        t.ints =~= e.ints.update(5, (e.ints[4] - 8) as u64).update(4, (e.ints[4] - 40) as u64),
        holds_saved(t.mem, e),
        forall|a: int| !is_stack_byte(e, a) ==> #[trigger] (t.mem)(a) == (e.mem)(a),
{
    let sp = e.ints[4] as int;
    let m1 = effect(f, Op::Push { s: 5, sp: 4 }, e);
    let m2 = effect(f, Op::Move { d: 5, s: 4 }, m1);
    let m3 = effect(f, Op::Push { s: 3, sp: 4 }, m2);
    let m4 = effect(f, Op::Push { s: 14, sp: 4 }, m3);
    let m5 = effect(f, Op::Push { s: 15, sp: 4 }, m4);
    let m6 = effect(f, Op::Offset { d: 4, s: 4, by: -8 }, m5);
    let ops = save_ops();
    assert(ops[0].0 == Op::Push { s: 5, sp: 4 });
    assert(ops[1].0 == Op::Move { d: 5, s: 4 });
    assert(ops[2].0 == Op::Push { s: 3, sp: 4 });
    assert(ops[3].0 == Op::Push { s: 14, sp: 4 });
    assert(ops[4].0 == Op::Push { s: 15, sp: 4 });
    assert(ops[5].0 == Op::Offset { d: 4, s: 4, by: -8 });
    lemma_path(f, ops, seq![e, m1, m2, m3, m4, m5, m6]);
    crate::bits::lemma_pow2_64();
    lemma_read_written(e.mem, sp - 8, 8, e.ints[5] as nat);
    lemma_read_written(m2.mem, sp - 16, 8, e.ints[3] as nat);
    lemma_read_written(m3.mem, sp - 24, 8, e.ints[14] as nat);
    lemma_read_written(m4.mem, sp - 32, 8, e.ints[15] as nat);
    lemma_read_same(m1.mem, m6.mem, sp - 8, 8);
    lemma_read_same(m3.mem, m6.mem, sp - 16, 8);
    lemma_read_same(m4.mem, m6.mem, sp - 24, 8);
    m6
}

proof fn lemma_entered<F: Fn(FloatOp, u64, u64) -> u64>(
    f: F,
    windows: bool,
    c: Call,
    e: Machine,
) -> (t: Machine)
    requires
        is_sound(c),
        enters_x86(windows, c, e),
    ensures
        t == effects(f, prologue_ops(windows), e),
        at_element(x86_frame(), c, t, 0),
        t.ints[4] == e.ints[4] - 40,
        t.ints[12] == e.ints[12],
        t.ints[13] == e.ints[13],
        holds_saved(t.mem, e),
        forall|a: int| !is_stack_byte(e, a) ==> #[trigger] (t.mem)(a) == (e.mem)(a),
{
    let s = lemma_saved(f, e);
    lemma_effects_add(f, save_ops(), argument_ops(windows), e);
    assert forall|a: int| is_input_byte(c, a) implies #[trigger] (e.mem)(a) == (s.mem)(a) by {
        if is_stack_byte(e, a) {
            assert(!is_input_byte(c, a));
        }
    }
    lemma_inputs_stay(e.mem, s.mem, c);
    if windows {
        let m1 = effect(f, Op::Move { d: 3, s: 1 }, s);
        let m2 = effect(f, Op::Move { d: 14, s: 2 }, m1);
        let m3 = effect(f, Op::Move { d: 15, s: 8 }, m2);
        let m4 = effect(f, Op::SetInt { d: 10, v: 0 }, m3);
        let ops = argument_ops(windows);
        assert(ops[0].0 == Op::Move { d: 3, s: 1 });
        assert(ops[1].0 == Op::Move { d: 14, s: 2 });
        assert(ops[2].0 == Op::Move { d: 15, s: 8 });
        assert(ops[3].0 == Op::SetInt { d: 10, v: 0 });
        lemma_path(f, ops, seq![s, m1, m2, m3, m4]);
        m4
    } else {
        let m1 = effect(f, Op::Move { d: 3, s: 7 }, s);
        let m2 = effect(f, Op::Move { d: 14, s: 6 }, m1);
        let m3 = effect(f, Op::Move { d: 15, s: 2 }, m2);
        let m4 = effect(f, Op::SetInt { d: 10, v: 0 }, m3);
        let ops = argument_ops(windows);
        assert(ops[0].0 == Op::Move { d: 3, s: 7 });
        assert(ops[1].0 == Op::Move { d: 14, s: 6 });
        assert(ops[2].0 == Op::Move { d: 15, s: 2 });
        assert(ops[3].0 == Op::SetInt { d: 10, v: 0 });
        lemma_path(f, ops, seq![s, m1, m2, m3, m4]);
        m4
    }
}

proof fn lemma_left<F: Fn(FloatOp, u64, u64) -> u64>(f: F, e: Machine, t: Machine) -> (u: Machine)
    requires
        sized(e),
        sized(t),
        e.ints[4] >= 40,
        t.ints[4] == e.ints[4] - 40,
        holds_saved(t.mem, e),
    ensures
        u == effects(f, epilogue_ops(), t),
        u.mem == t.mem,
        u.ints[3] == e.ints[3],
        u.ints[4] == e.ints[4],
        u.ints[5] == e.ints[5],
        u.ints[12] == t.ints[12],
        u.ints[13] == t.ints[13],
        u.ints[14] == e.ints[14],
        u.ints[15] == e.ints[15],
{
    let m1 = effect(f, Op::Offset { d: 4, s: 4, by: 8 }, t);
    let m2 = effect(f, Op::Pop { d: 15, sp: 4 }, m1);
    let m3 = effect(f, Op::Pop { d: 14, sp: 4 }, m2);
    let m4 = effect(f, Op::Pop { d: 3, sp: 4 }, m3);
    let m5 = effect(f, Op::Pop { d: 5, sp: 4 }, m4);
    let ops = epilogue_ops();
    assert(ops[0].0 == Op::Offset { d: 4, s: 4, by: 8 });
    assert(ops[1].0 == Op::Pop { d: 15, sp: 4 });
    assert(ops[2].0 == Op::Pop { d: 14, sp: 4 });
    assert(ops[3].0 == Op::Pop { d: 3, sp: 4 });
    assert(ops[4].0 == Op::Pop { d: 5, sp: 4 });
    lemma_path(f, ops, seq![t, m1, m2, m3, m4, m5]);
    assert(m1.ints[4] == e.ints[4] - 32);
    assert(m2.ints[4] == e.ints[4] - 24);
    assert(m3.ints[4] == e.ints[4] - 16);
    assert(m4.ints[4] == e.ints[4] - 8);
    m5
}

// ─── The law ─────────────────────────────────────────────────────────────────

/// That the inputs of a call are the variables of a graph that its program loads, in
/// their order, where `env(i, v)` is element `i` of the variable with id `v`.
pub open spec fn passes_variables(
    graph: ArenaGraph,
    p: NtProgram,
    c: Call,
    env: spec_fn(nat, usize) -> u64,
) -> bool {
    let ids = load_ids(graph.views(), lowering_order(graph.views(), graph.root as nat));
    &&& c.slots == p.num_inputs
    &&& 8 * c.width == p.bits
    &&& forall|i: nat, k: nat|
        i < c.count && k < c.slots ==> env(i, ids[k as int]) == widened(
            #[trigger] (c.raw)(k, i),
            c.width,
        )
}

/// That memory holds, as the output of a call, what an expression yields for each
/// element.
pub open spec fn holds_values<F: Fn(FloatOp, u64, u64) -> u64>(
    f: F,
    graph: ArenaGraph,
    p: NtProgram,
    c: Call,
    env: spec_fn(nat, usize) -> u64,
    mem: spec_fn(int) -> u8,
) -> bool {
    forall|i: nat|
        i < c.count ==> #[trigger] read(mem, c.output + scaled(i as int, c.width), c.width)
            == stored(native_value(f, graph.tree(), p.bits, |v: usize| env(i, v)), c.width)
}

/// What the program of a graph leaves in the register that it stores is what the graph's
/// expression yields for the elements at hand.
pub proof fn lemma_value_at<F: Fn(FloatOp, u64, u64) -> u64>(
    f: F,
    graph: ArenaGraph,
    p: NtProgram,
    c: Call,
    env: spec_fn(nat, usize) -> u64,
    start: Seq<u64>,
    n: nat,
)
    requires
        graph.wf(),
        has_program(f, graph),
        is_program(f, graph, p),
        passes_variables(graph, p, c, env),
        start.len() == 32,
        n < c.count,
    ensures
        machine(
            f,
            p.insts@,
            p.alloc@,
            elements_at(c, n),
            start,
            (p.insts@.len() - 1) as nat,
        )[p.alloc@[p.output_vreg as int] as int] == native_value(
            f,
            graph.tree(),
            p.bits,
            |v: usize| env(n, v),
        ),
{
    let xs = elements_at(c, n);
    let at = |v: usize| env(n, v);
    let ids = load_ids(graph.views(), lowering_order(graph.views(), graph.root as nat));
    assert forall|i: int| 0 <= i < xs.len() implies #[trigger] at(ids[i]) == xs[i] by {
        assert(xs[i] == widened((c.raw)(i as nat, n), c.width));
    }
    law_registers_keep_values(f, graph, p, xs, start);
    law_program_computes_expression(f, graph, p, xs, at);
}

/// What a kernel stores for each element.
pub open spec fn results<F: Fn(FloatOp, u64, u64) -> u64>(
    f: F,
    graph: ArenaGraph,
    p: NtProgram,
    c: Call,
    env: spec_fn(nat, usize) -> u64,
) -> spec_fn(nat) -> nat {
    |n: nat| stored(native_value(f, graph.tree(), p.bits, |v: usize| env(n, v)), c.width)
}

proof fn lemma_x86_body<F: Fn(FloatOp, u64, u64) -> u64>(
    f: F,
    graph: ArenaGraph,
    p: NtProgram,
    c: Call,
    env: spec_fn(nat, usize) -> u64,
)
    requires
        graph.wf(),
        has_program(f, graph),
        is_program(f, graph, p),
        is_sound(c),
        passes_variables(graph, p, c, env),
    ensures
        stores_results(
            f,
            x86_frame(),
            c,
            body_ops(ops_of(p.alloc@), p.insts@, p.insts@.len()),
            x86_scratch(),
            results(f, graph, p, c, env),
        ),
        all_go_on(body_ops(ops_of(p.alloc@), p.insts@, p.insts@.len())),
        forall|j: int| 0 <= j < p.insts@.len() ==> named_exist(p.alloc@, #[trigger] p.insts@[j]),
        p.insts@.len() <= 4096,
{
    let insts = p.insts@;
    let alloc = p.alloc@;
    let r = x86_frame();
    let scratch = x86_scratch();
    lemma_program_form(f, graph, p);
    let value = |n: nat| native_value(f, graph.tree(), p.bits, |v: usize| env(n, v));
    assert forall|j: int| 0 <= j < insts.len() implies fits_call(c, alloc, #[trigger] insts[j]) by {
        match insts[j] {
            Inst::Load { dst, .. } => {
                assert(alloc[dst as int] < 14);
            },
            Inst::Const { dst, .. } => {
                assert(alloc[dst as int] < 14);
            },
            Inst::BinOp { dst, lhs, rhs, .. } => {
                assert(alloc[dst as int] < 14 && alloc[lhs as int] < 14 && alloc[rhs as int] < 14);
            },
            Inst::Store { src, .. } => {
                assert(alloc[src as int] < 14);
            },
        }
    }
    assert forall|j: int| 0 <= j < insts.len() implies performs(
        f,
        r,
        c,
        scratch,
        ops_of(alloc)(#[trigger] insts[j]),
        alloc,
        insts[j],
    ) by {
        assert(fits_call(c, alloc, insts[j]));
        lemma_performs(f, c, alloc, insts[j]);
    }
    assert forall|j: int| 0 <= j < insts.len() implies operands_stay(
        #[trigger] insts[j],
        alloc,
    ) by {
        assert(fits_call(c, alloc, insts[j]));
    }
    assert forall|j: int| 0 <= j < insts.len() implies named_exist(alloc, #[trigger] insts[j]) by {
        assert(fits_call(c, alloc, insts[j]));
    }
    assert forall|start: Seq<u64>, n: nat|
        start.len() == 32 && n < c.count implies #[trigger] machine(
        f,
        insts,
        alloc,
        elements_at(c, n),
        start,
        (insts.len() - 1) as nat,
    )[alloc[insts.last()->src as int] as int] == value(n) by {
        lemma_value_at(f, graph, p, c, env, start, n);
    }
    lemma_body_stores(f, r, c, scratch, ops_of(alloc), alloc, insts, value);
    assert((|n: nat| stored(value(n), c.width)) =~= results(f, graph, p, c, env));
}

proof fn lemma_kernel_stands(p: NtProgram, windows: bool)
    requires
        forall|j: int| 0 <= j < p.insts@.len() ==> named_exist(p.alloc@, #[trigger] p.insts@[j]),
        p.insts@.len() <= 4096,
    ensures
        stands(code_of(x86(), kernel_code(p, windows)), 0, kernel_ops(p, windows)),
{
    lemma_kernel_spelled(p, windows);
    lemma_kernel_sizes(p, windows);
    lemma_spelled_stands(x86(), kernel_code(p, windows), kernel_ops(p, windows));
}

proof fn lemma_frame_goes_on(windows: bool)
    ensures
        all_go_on(prologue_ops(windows)),
        all_go_on(epilogue_ops()),
{
    let a = save_ops();
    let b = argument_ops(windows);
    assert forall|i: int| 0 <= i < (a + b).len() implies goes_on((#[trigger] (a + b)[i]).0) by {
        if i < a.len() {
            assert((a + b)[i] == a[i]);
        } else {
            assert((a + b)[i] == b[i - a.len()]);
        }
    }
}

proof fn lemma_x86_run<F: Fn(FloatOp, u64, u64) -> u64>(
    f: F,
    p: NtProgram,
    windows: bool,
    c: Call,
    result: spec_fn(nat) -> nat,
    m: Machine,
) -> (t: Machine)
    requires
        is_sound(c),
        enters_x86(windows, c, m),
        stores_results(
            f,
            x86_frame(),
            c,
            body_ops(ops_of(p.alloc@), p.insts@, p.insts@.len()),
            x86_scratch(),
            result,
        ),
        all_go_on(body_ops(ops_of(p.alloc@), p.insts@, p.insts@.len())),
        forall|j: int| 0 <= j < p.insts@.len() ==> named_exist(p.alloc@, #[trigger] p.insts@[j]),
        p.insts@.len() <= 4096,
        forall|j: nat| #[trigger] result(j) < pow2(8 * c.width),
    ensures
        leads(
            f,
            code_of(x86(), kernel_code(p, windows)),
            State { m, at: Some(0) },
            State { m: effects(f, epilogue_ops(), t), at: None },
        ),
        sized(t),
        same_ints(effects(f, prologue_ops(windows), m), t, x86_scratch().insert(10)),
        same_but_output(effects(f, prologue_ops(windows), m).mem, t.mem, c),
        holds_results(t.mem, c, result, c.count),
{
    let body = body_ops(ops_of(p.alloc@), p.insts@, p.insts@.len());
    let n = size_of(body);
    let code = code_of(x86(), kernel_code(p, windows));
    lemma_kernel_stands(p, windows);
    lemma_frame_goes_on(windows);
    let m0 = lemma_entered(f, windows, c, m);
    lemma_fixed_sizes(n);
    lemma_kernel(
        f,
        code,
        x86_frame(),
        c,
        prologue_ops(windows),
        head_ops(n + 8),
        body,
        tail_ops(n + 17),
        epilogue_ops(),
        1,
        x86_scratch(),
        result,
        m,
    )
}

/// The x86-64 code of a graph computes the graph's expression. Entered for a call whose
/// inputs are the graph's variables, and read and run instruction by instruction, it is
/// left again; it has then stored, for each element, what the expression yields for the
/// elements of the variables; and it has kept what belongs to its caller.
pub proof fn law_x86_code_computes_expression<F: Fn(FloatOp, u64, u64) -> u64>(
    f: F,
    graph: ArenaGraph,
    p: NtProgram,
    windows: bool,
    c: Call,
    env: spec_fn(nat, usize) -> u64,
    m: Machine,
)
    requires
        graph.wf(),
        has_program(f, graph),
        is_program(f, graph, p),
        is_sound(c),
        passes_variables(graph, p, c, env),
        enters_x86(windows, c, m),
    ensures
        exists|t: Machine|
            {
                &&& #[trigger] leads(
                    f,
                    code_of(x86(), kernel_code(p, windows)),
                    State { m, at: Some(0) },
                    State { m: t, at: None },
                )
                &&& holds_values(f, graph, p, c, env, t.mem)
                &&& leaves_x86(c, m, t)
            },
{
    let result = results(f, graph, p, c, env);
    lemma_x86_body(f, graph, p, c, env);
    assert forall|j: nat| #[trigger] result(j) < pow2(8 * c.width) by {
        crate::bits::lemma_pow2_64();
        lemma2_to64();
    }
    let m0 = lemma_entered(f, windows, c, m);
    let t = lemma_x86_run(f, p, windows, c, result, m);
    assert(m0.ints[4] == t.ints[4]);
    assert(m0.ints[12] == t.ints[12]);
    assert(m0.ints[13] == t.ints[13]);
    let sp = m.ints[4] as int;
    assert forall|a: int| sp - 32 <= a < sp implies #[trigger] (m0.mem)(a) == (t.mem)(a) by {
        assert(is_stack_byte(m, a));
    }
    lemma_read_same(m0.mem, t.mem, sp - 8, 8);
    lemma_read_same(m0.mem, t.mem, sp - 16, 8);
    lemma_read_same(m0.mem, t.mem, sp - 24, 8);
    lemma_read_same(m0.mem, t.mem, sp - 32, 8);
    let u = lemma_left(f, m, t);
    assert forall|i: nat| i < c.count implies #[trigger] read(
        u.mem,
        c.output + scaled(i as int, c.width),
        c.width,
    ) == stored(native_value(f, graph.tree(), p.bits, |v: usize| env(i, v)), c.width) by {
        assert(read(t.mem, c.output + scaled(i as int, c.width), c.width) == result(i));
    }
    assert forall|a: int|
        !is_output_byte(c, a) && !is_stack_byte(m, a) implies #[trigger] (u.mem)(a) == (m.mem)(
        a,
    ) by {
        assert((m0.mem)(a) == (t.mem)(a));
        assert((m0.mem)(a) == (m.mem)(a));
    }
    assert(leads(
        f,
        code_of(x86(), kernel_code(p, windows)),
        State { m, at: Some(0) },
        State { m: u, at: None },
    ));
}

proof fn lemma_fixed_sizes(n: nat)
    ensures
        size_of(head_ops(n + 8)) == 9,
        size_of(tail_ops(n + 17)) == 8,
{
    let h = head_ops(n + 8);
    let t = tail_ops(n + 17);
    assert(span(h, 2) == span(h, 1) + 6 && span(h, 1) == span(h, 0) + 3);
    assert(span(t, 2) == span(t, 1) + 5 && span(t, 1) == span(t, 0) + 3);
}

proof fn lemma_kernel_sizes(p: NtProgram, windows: bool)
    ensures
        forall|i: int|
            0 <= i < kernel_ops(p, windows).len() ==> (#[trigger] kernel_ops(p, windows)[i]).1 > 0,
{
    let body = body_ops(ops_of(p.alloc@), p.insts@, p.insts@.len());
    let n = size_of(body);
    let pro = prologue_ops(windows);
    let head = head_ops(n + 8);
    let tail = tail_ops(n + 17);
    let mid = head + body + tail;
    let epi = epilogue_ops() + seq![(Op::Return, 1nat)];
    lemma_sizes(p.alloc@, p.insts@, p.insts@.len());
    let all = kernel_ops(p, windows);
    assert forall|i: int| 0 <= i < all.len() implies (#[trigger] all[i]).1 > 0 by {
        if i < pro.len() {
            assert(all[i] == pro[i]);
        } else if i < pro.len() + mid.len() {
            let j = i - pro.len();
            assert(all[i] == mid[j]);
            if j < head.len() {
                assert(mid[j] == head[j]);
            } else if j < head.len() + body.len() {
                assert(mid[j] == body[j - head.len()]);
            } else {
                assert(mid[j] == tail[j - head.len() - body.len()]);
            }
        } else {
            assert(all[i] == epi[i - pro.len() - mid.len()]);
        }
    }
}

} // verus!
