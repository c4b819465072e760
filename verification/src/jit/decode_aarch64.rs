//! AArch64 machine code read as instructions, as far as kernels use it. Every
//! instruction is a word, whose fields name the operation and the registers.

use crate::bytes::{law_le_round_trip, le_value};
use crate::jit::emit_aarch64::{
    bge_word, branch_word, chunk, fadd_words, fdiv_words, fmadd_words, fmov_dd_words, fmul_words,
    fsub_words, inst_words, ldr_f32_to_f64_words, ldr_f64_words, load_ptr_word, set_double_words,
    set_single_words, str_f32_words, str_f64_words, word, words,
};
use crate::jit::ir::{BinOp, Inst, PReg};
use crate::jit::machine::{
    lemma_spells_add, lemma_spells_none, lemma_spells_one, spells, Op, Place,
};
use crate::soft_float::f32_of_f64;
use vstd::arithmetic::power2::*;
use vstd::prelude::*;

verus! {

// ─── Reading ─────────────────────────────────────────────────────────────────

/// The pair of registers that is loaded or stored, and how: doubles or integers, a load
/// or a store, and whether the base is changed before or after.
pub open spec fn read_pair(w: nat) -> Option<Op> {
    let top = w / 0x40_0000;
    let n = (w / 0x8000) % 128;
    let by = 8 * (if n < 64 {
        n as int
    } else {
        n - 128
    });
    let a = (w % 32) as int;
    let b = ((w / 0x400) % 32) as int;
    let base = ((w / 32) % 32) as int;
    if top == 0x2A4 {
        Some(Op::StorePair { doubles: false, a, b, base, distance: by, then: 0 })
    } else if top == 0x2A5 {
        Some(Op::LoadPair { doubles: false, a, b, base, distance: by, then: 0 })
    } else if top == 0x2A6 {
        Some(Op::StorePair { doubles: false, a, b, base, distance: by, then: by })
    } else if top == 0x2A3 {
        Some(Op::LoadPair { doubles: false, a, b, base, distance: 0, then: by })
    } else if top == 0x1B4 {
        Some(Op::StorePair { doubles: true, a, b, base, distance: by, then: 0 })
    } else if top == 0x1B5 {
        Some(Op::LoadPair { doubles: true, a, b, base, distance: by, then: 0 })
    } else {
        None
    }
}

/// An operation on registers for doubles.
pub open spec fn read_double(w: nat) -> Option<Op> {
    let d = (w % 32) as int;
    let n = ((w / 32) % 32) as int;
    let m = ((w / 0x1_0000) % 32) as int;
    let kind = (w / 0x400) % 64;
    if w / 0x20_0000 == 0xF3 && kind == 0x0A {
        Some(Op::Arith { op: BinOp::Add, d, l: n, r: m })
    } else if w / 0x20_0000 == 0xF3 && kind == 0x0E {
        Some(Op::Arith { op: BinOp::Sub, d, l: n, r: m })
    } else if w / 0x20_0000 == 0xF3 && kind == 0x02 {
        Some(Op::Arith { op: BinOp::Mul, d, l: n, r: m })
    } else if w / 0x20_0000 == 0xF3 && kind == 0x06 {
        Some(Op::Arith { op: BinOp::Div, d, l: n, r: m })
    } else if w / 0x400 == 0x788B0 {
        Some(Op::Widen { d, s: n })
    } else if w / 0x400 == 0x79890 {
        Some(Op::Narrow { d, s: n, keep: false })
    } else if w / 0x400 == 0x79810 {
        Some(Op::MoveVal { d, s: n })
    } else if w / 0x400 == 0x27_99C0 {
        Some(Op::ToVal { d, s: n, size: 8 })
    } else if w / 0x400 == 0x789C0 {
        Some(Op::ToVal { d, s: n, size: 4 })
    } else {
        None
    }
}

/// A load or a store of a register for doubles at a base and an index, which is shifted
/// by the size of an element.
pub open spec fn read_access(w: nat) -> Option<Op> {
    let top = w / 0x20_0000;
    let d = (w % 32) as int;
    let base = ((w / 32) % 32) as int;
    let index = Some(((w / 0x1_0000) % 32) as int);
    if (w / 0x400) % 64 != 0x1E {
        None
    } else if top == 0x7E3 {
        Some(Op::LoadVal { d, size: 8, from: Place { base, index, scale: 8, distance: 0 } })
    } else if top == 0x7E1 {
        Some(Op::StoreVal { s: d, size: 8, to: Place { base, index, scale: 8, distance: 0 } })
    } else if top == 0x5E3 {
        Some(Op::LoadVal { d, size: 4, from: Place { base, index, scale: 4, distance: 0 } })
    } else if top == 0x5E1 {
        Some(Op::StoreVal { s: d, size: 4, to: Place { base, index, scale: 4, distance: 0 } })
    } else {
        None
    }
}

/// An operation on integers, or a jump. A jump is counted from its own place, and here
/// from the place behind it.
pub open spec fn read_integer(w: nat) -> Option<Op> {
    let d = (w % 32) as int;
    let n = ((w / 32) % 32) as int;
    let m = ((w / 0x1_0000) % 32) as int;
    let v = ((w / 32) % 0x1_0000) as u64;
    let near = ((w / 32) % 0x8_0000) as int;
    let far = (w % 0x400_0000) as int;
    let top = w / 0x20_0000;
    if w == 0xD65F_03C0 {
        Some(Op::Return)
    } else if w / 0x100_0000 == 0x54 && d == 10 {
        Some(
            Op::JumpGe {
                by: 4 * (if near < 0x4_0000 {
                    near
                } else {
                    near - 0x8_0000
                }) - 4,
            },
        )
    } else if w / 0x400_0000 == 5 {
        Some(
            Op::Jump {
                by: 4 * (if far < 0x200_0000 {
                    far
                } else {
                    far - 0x400_0000
                }) - 4,
            },
        )
    } else if w / 0x40_0000 == 0x244 {
        Some(Op::Offset { d, s: n, by: ((w / 0x400) % 0x1000) as int })
    } else if w / 0x40_0000 == 0x3E5 {
        Some(
            Op::LoadInt {
                d,
                size: 8,
                from: Place {
                    base: n,
                    index: None,
                    scale: 1,
                    distance: 8 * ((w / 0x400) % 0x1000) as int,
                },
            },
        )
    } else if top == 0x550 && n == 31 && (w / 0x400) % 64 == 0 {
        if m == 31 {
            Some(Op::SetInt { d, v: 0 })
        } else {
            Some(Op::Move { d, s: m })
        }
    } else if top == 0x758 && d == 31 && (w / 0x400) % 64 == 0 {
        Some(Op::Compare { a: n, b: m })
    } else if top == 0x694 || top == 0x294 {
        Some(Op::SetInt { d, v })
    } else if top == 0x795 {
        Some(Op::Insert { d, at: 16, v, size: 8 })
    } else if top == 0x796 {
        Some(Op::Insert { d, at: 32, v, size: 8 })
    } else if top == 0x797 {
        Some(Op::Insert { d, at: 48, v, size: 8 })
    } else if top == 0x395 {
        Some(Op::Insert { d, at: 16, v, size: 4 })
    } else {
        None
    }
}

/// The instruction that a word is.
#[verifier::opaque]
pub open spec fn read_word(w: nat) -> Option<Op> {
    match read_pair(w) {
        Some(op) => Some(op),
        None => match read_double(w) {
            Some(op) => Some(op),
            None => match read_access(w) {
                Some(op) => Some(op),
                None => read_integer(w),
            },
        },
    }
}

/// The instruction at the start of bytes, and the bytes that it takes.
pub open spec fn read_aarch64(s: Seq<u8>) -> Option<(Op, nat)> {
    if s.len() < 4 {
        None
    } else {
        match read_word(le_value(s.subrange(0, 4))) {
            Some(op) => Some((op, 4)),
            None => None,
        }
    }
}

/// The reading of bytes as a function.
#[verifier::opaque]
pub open spec fn aarch64() -> spec_fn(Seq<u8>) -> Option<(Op, nat)> {
    |s: Seq<u8>| read_aarch64(s)
}

/// That words are read as instructions.
pub open spec fn are_read(ws: Seq<u32>, ops: Seq<(Op, nat)>) -> bool {
    &&& ws.len() == ops.len()
    &&& forall|i: int|
        0 <= i < ws.len() ==> Some(ops[i].0) == read_word(#[trigger] ws[i] as nat) && ops[i].1 == 4
}

pub proof fn lemma_read_add(
    a: Seq<u32>,
    x: Seq<(Op, nat)>,
    b: Seq<u32>,
    y: Seq<(Op, nat)>,
)
    requires
        are_read(a, x),
        are_read(b, y),
    ensures
        are_read(a + b, x + y),
{
    assert forall|i: int| 0 <= i < (a + b).len() implies Some((x + y)[i].0) == read_word(
        #[trigger] (a + b)[i] as nat,
    ) && (x + y)[i].1 == 4 by {
        if i < a.len() {
            assert((a + b)[i] == a[i] && (x + y)[i] == x[i]);
        } else {
            assert((a + b)[i] == b[i - a.len()] && (x + y)[i] == y[i - a.len()]);
        }
    }
}

proof fn lemma_word_spelled(w: u32, op: Op)
    requires
        read_word(w as nat) == Some(op),
    ensures
        spells(aarch64(), word(w), seq![(op, 4nat)]),
{
    let b = word(w);
    law_le_round_trip(w as nat, 4);
    lemma2_to64();
    reveal(aarch64);
    assert forall|rest: Seq<u8>| #[trigger] aarch64()(b + rest) == Some((op, b.len())) by {
        assert((b + rest).subrange(0, 4) =~= b);
    }
    lemma_spells_one(aarch64(), b, op);
}

/// Words that are read as instructions spell them.
pub proof fn lemma_words_spelled(ws: Seq<u32>, ops: Seq<(Op, nat)>)
    requires
        are_read(ws, ops),
    ensures
        spells(aarch64(), words(ws), ops),
    decreases ws.len(),
{
    if ws.len() == 0 {
        lemma_spells_none(aarch64());
        assert(ops =~= Seq::empty());
    } else {
        let a = ws.drop_last();
        let x = ops.drop_last();
        assert forall|i: int| 0 <= i < a.len() implies Some(x[i].0) == read_word(
            #[trigger] a[i] as nat,
        ) && x[i].1 == 4 by {
            assert(ws[i] == a[i]);
        }
        lemma_words_spelled(a, x);
        let n = ws.len() - 1;
        assert(Some(ops[n].0) == read_word(ws[n] as nat));
        lemma_word_spelled(ws.last(), ops.last().0);
        lemma_spells_add(aarch64(), words(a), x, word(ws.last()), seq![ops.last()]);
        assert(x + seq![ops.last()] =~= ops);
    }
}

// ─── Words by their fields ───────────────────────────────────────────────────

/// A word made of an operation and three registers is their sum.
proof fn lemma_three_registers(b: u32, m: u32, n: u32, d: u32)
    requires
        b & 0x001F_03FFu32 == 0,
        m < 32,
        n < 32,
        d < 32,
    ensures
        b | (m << 16u32) | (n << 5u32) | d == b + m * 0x1_0000 + n * 0x20 + d,
{
    assert(b | (m << 16u32) | (n << 5u32) | d == b + m * 0x1_0000 + n * 0x20 + d) by (bit_vector)
        requires
            b & 0x001F_03FFu32 == 0,
            m < 32,
            n < 32,
            d < 32,
    ;
}

/// A word made of an operation and two registers is their sum.
proof fn lemma_two_registers(b: u32, n: u32, d: u32)
    requires
        b & 0x03FFu32 == 0,
        n < 32,
        d < 32,
    ensures
        b | (n << 5u32) | d == b + n * 0x20 + d,
{
    assert(b | (n << 5u32) | d == b + n * 0x20 + d) by (bit_vector)
        requires
            b & 0x03FFu32 == 0,
            n < 32,
            d < 32,
    ;
}

/// A word made of an operation, sixteen bits and a register is their sum.
proof fn lemma_half(b: u32, v: u32, d: u32)
    requires
        b & 0x001F_FFFFu32 == 0,
        v < 0x1_0000,
        d < 32,
    ensures
        b | (v << 5u32) | d == b + v * 0x20 + d,
{
    assert(b | (v << 5u32) | d == b + v * 0x20 + d) by (bit_vector)
        requires
            b & 0x001F_FFFFu32 == 0,
            v < 0x1_0000,
            d < 32,
    ;
}

/// The fields for registers and halves are free in the operations.
proof fn lemma_fields_free()
    ensures
        0x1E602800u32 & 0x001F_03FFu32 == 0,
        0x1E603800u32 & 0x001F_03FFu32 == 0,
        0x1E600800u32 & 0x001F_03FFu32 == 0,
        0x1E601800u32 & 0x001F_03FFu32 == 0,
        0xFC607800u32 & 0x001F_03FFu32 == 0,
        0xBC607800u32 & 0x001F_03FFu32 == 0,
        0xFC207800u32 & 0x001F_03FFu32 == 0,
        0xBC207800u32 & 0x001F_03FFu32 == 0,
        0x1E22C000u32 & 0x03FFu32 == 0,
        0x1E624000u32 & 0x03FFu32 == 0,
        0xD2800000u32 & 0x001F_FFFFu32 == 0,
        0xF2A00000u32 & 0x001F_FFFFu32 == 0,
        0xF2C00000u32 & 0x001F_FFFFu32 == 0,
        0xF2E00000u32 & 0x001F_FFFFu32 == 0,
        0x52800000u32 & 0x001F_FFFFu32 == 0,
        0x72A00000u32 & 0x001F_FFFFu32 == 0,
{
    assert(0x1E602800u32 & 0x001F_03FFu32 == 0 && 0x1E603800u32 & 0x001F_03FFu32 == 0
        && 0x1E600800u32 & 0x001F_03FFu32 == 0 && 0x1E601800u32 & 0x001F_03FFu32 == 0
        && 0xFC607800u32 & 0x001F_03FFu32 == 0 && 0xBC607800u32 & 0x001F_03FFu32 == 0
        && 0xFC207800u32 & 0x001F_03FFu32 == 0 && 0xBC207800u32 & 0x001F_03FFu32 == 0
        && 0x1E22C000u32 & 0x03FFu32 == 0 && 0x1E624000u32 & 0x03FFu32 == 0 && 0xD2800000u32
        & 0x001F_FFFFu32 == 0 && 0xF2A00000u32 & 0x001F_FFFFu32 == 0 && 0xF2C00000u32
        & 0x001F_FFFFu32 == 0 && 0xF2E00000u32 & 0x001F_FFFFu32 == 0 && 0x52800000u32
        & 0x001F_FFFFu32 == 0 && 0x72A00000u32 & 0x001F_FFFFu32 == 0) by (bit_vector);
}

/// The fields of a word that is made of them.
proof fn lemma_fields(w: nat, t: nat, m: nat, k: nat, n: nat, d: nat)
    requires
        w == t * 0x20_0000 + m * 0x1_0000 + k * 0x400 + n * 0x20 + d,
        t < 0x800,
        m < 32,
        k < 64,
        n < 32,
        d < 32,
    ensures
        w % 32 == d,
        (w / 32) % 32 == n,
        (w / 0x400) % 64 == k,
        (w / 0x1_0000) % 32 == m,
        w / 0x20_0000 == t,
        w / 0x40_0000 == t / 2,
        w / 0x400 == t * 0x800 + m * 64 + k,
        w / 0x100_0000 == t / 8,
        w / 0x400_0000 == t / 32,
{
    let a = w / 32;
    assert(a == t * 0x1_0000 + m * 0x800 + k * 0x20 + n);
    let b = w / 0x400;
    assert(b == t * 0x800 + m * 64 + k);
    let c = w / 0x1_0000;
    assert(c == t * 32 + m);
    let e = w / 0x20_0000;
    assert(e == t);
    assert(w / 0x40_0000 == e / 2);
    assert(w / 0x100_0000 == e / 8);
    assert(w / 0x400_0000 == e / 32);
}

/// The fields of a word that is made of an operation, sixteen bits and a register.
proof fn lemma_half_fields(w: nat, t: nat, v: nat, d: nat)
    requires
        w == t * 0x20_0000 + v * 0x20 + d,
        t < 0x800,
        v < 0x1_0000,
        d < 32,
    ensures
        w % 32 == d,
        (w / 32) % 0x1_0000 == v,
        w / 0x20_0000 == t,
        w / 0x40_0000 == t / 2,
        t * 0x800 <= w / 0x400 < (t + 1) * 0x800,
        w / 0x100_0000 == t / 8,
        w / 0x400_0000 == t / 32,
{
    let a = w / 32;
    assert(a == t * 0x1_0000 + v);
    let e = w / 0x20_0000;
    assert(e == t);
    assert(w / 0x40_0000 == e / 2);
    assert(w / 0x100_0000 == e / 8);
    assert(w / 0x400_0000 == e / 32);
}

// ─── The instructions of a program ───────────────────────────────────────────

/// The element at hand of what a register points to.
pub open spec fn element_of(base: int, scale: nat) -> Place {
    Place { base, index: Some(22), scale, distance: 0 }
}

/// Loads the pointer to an input.
pub open spec fn pointer_op(slot: nat) -> Op {
    Op::LoadInt {
        d: 0,
        size: 8,
        from: Place { base: 19, index: None, scale: 1, distance: 8 * slot as int },
    }
}

/// Sets the sixteen bits of a constant that are not left out.
pub open spec fn part_ops(v: u64, at: nat, size: nat) -> Seq<(Op, nat)> {
    let p = if at == 16 {
        0x1_0000int
    } else if at == 32 {
        0x1_0000_0000
    } else {
        0x1_0000_0000_0000
    };
    if v >= p {
        seq![(Op::Insert { d: 9, at, v: ((v as int / p) % 0x1_0000) as u64, size }, 4nat)]
    } else {
        Seq::empty()
    }
}

/// Sets a double.
pub open spec fn set_double_ops(x: int, v: u64) -> Seq<(Op, nat)> {
    seq![(Op::SetInt { d: 9, v: (v % 0x1_0000) as u64 }, 4nat)] + part_ops(v, 16, 8) + part_ops(
        v,
        32,
        8,
    ) + part_ops(v, 48, 8) + seq![(Op::ToVal { d: x, s: 9, size: 8 }, 4nat)]
}

/// Sets a double to the value of a single.
pub open spec fn set_single_ops(x: int, v: u32) -> Seq<(Op, nat)> {
    seq![(Op::SetInt { d: 9, v: (v % 0x1_0000) as u64 }, 4nat)] + part_ops(v as u64, 16, 4) + seq![
        (Op::ToVal { d: x, s: 9, size: 4 }, 4nat),
        (Op::Widen { d: x, s: x }, 4nat),
    ]
}

/// The machine instructions of an instruction.
pub open spec fn aarch64_ops(alloc: Seq<PReg>, i: Inst) -> Seq<(Op, nat)> {
    match i {
        Inst::Load { dst, input_idx, bits } => {
            let x = alloc[dst as int] as int;
            seq![(pointer_op(input_idx as nat), 4nat)] + (if bits == 64 {
                seq![(Op::LoadVal { d: x, size: 8, from: element_of(0, 8) }, 4nat)]
            } else {
                seq![
                    (Op::LoadVal { d: x, size: 4, from: element_of(0, 4) }, 4nat),
                    (Op::Widen { d: x, s: x }, 4nat),
                ]
            })
        },
        Inst::Const { dst, val, bits } => {
            let x = alloc[dst as int] as int;
            if bits == 64 {
                set_double_ops(x, val)
            } else {
                set_single_ops(x, f32_of_f64(val))
            }
        },
        Inst::BinOp { dst, op, lhs, rhs } => seq![
            (
                Op::Arith {
                    op,
                    d: alloc[dst as int] as int,
                    l: alloc[lhs as int] as int,
                    r: alloc[rhs as int] as int,
                },
                4nat,
            ),
        ],
        Inst::Store { src, bits } => {
            let x = alloc[src as int] as int;
            if bits == 64 {
                seq![(Op::StoreVal { s: x, size: 8, to: element_of(20, 8) }, 4nat)]
            } else {
                seq![
                    (Op::Narrow { d: x, s: x, keep: false }, 4nat),
                    (Op::StoreVal { s: x, size: 4, to: element_of(20, 4) }, 4nat),
                ]
            }
        },
    }
}

/// The registers and the input that an instruction names exist.
pub open spec fn named_exist(alloc: Seq<PReg>, i: Inst) -> bool {
    match i {
        Inst::Load { dst, input_idx, .. } => alloc[dst as int] < 32 && input_idx < 256,
        Inst::Const { dst, .. } => alloc[dst as int] < 32,
        Inst::BinOp { dst, lhs, rhs, .. } => alloc[dst as int] < 32 && alloc[lhs as int] < 32
            && alloc[rhs as int] < 32,
        Inst::Store { src, .. } => alloc[src as int] < 32,
    }
}

proof fn lemma_pointer_read(slot: u32)
    requires
        slot < 256,
    ensures
        read_word(load_ptr_word(slot) as nat) == Some(pointer_op(slot as nat)),
{
    assert(0xF9400000u32 | (slot << 10u32) | (19u32 << 5u32) | 0u32 == 0xF9400000 + slot * 0x400
        + 0x260) by (bit_vector)
        requires
            slot < 256,
    ;
    let w = load_ptr_word(slot) as nat;
    lemma_fields(w, 0x7CA, (slot / 64) as nat, (slot % 64) as nat, 19, 0);
    assert((w / 0x400) % 0x1000 == slot);
    reveal(read_word);
}

proof fn lemma_access_read(x: u32)
    requires
        x < 32,
    ensures
        read_word(ldr_f64_words(x)[0] as nat) == Some(
            Op::LoadVal { d: x as int, size: 8, from: element_of(0, 8) },
        ),
        read_word(ldr_f32_to_f64_words(x)[0] as nat) == Some(
            Op::LoadVal { d: x as int, size: 4, from: element_of(0, 4) },
        ),
        read_word(str_f64_words(x)[0] as nat) == Some(
            Op::StoreVal { s: x as int, size: 8, to: element_of(20, 8) },
        ),
        read_word(str_f32_words(x)[1] as nat) == Some(
            Op::StoreVal { s: x as int, size: 4, to: element_of(20, 4) },
        ),
{
    lemma_fields_free();
    lemma_three_registers(0xFC607800u32, 22, 0, x);
    lemma_three_registers(0xBC607800u32, 22, 0, x);
    lemma_three_registers(0xFC207800u32, 22, 20, x);
    lemma_three_registers(0xBC207800u32, 22, 20, x);
    lemma_one_access(ldr_f64_words(x)[0] as nat, 0x7E3, 0, x as nat);
    lemma_one_access(ldr_f32_to_f64_words(x)[0] as nat, 0x5E3, 0, x as nat);
    lemma_one_access(str_f64_words(x)[0] as nat, 0x7E1, 20, x as nat);
    lemma_one_access(str_f32_words(x)[1] as nat, 0x5E1, 20, x as nat);
}

proof fn lemma_one_access(w: nat, t: nat, n: nat, x: nat)
    requires
        w == t * 0x20_0000 + 22 * 0x1_0000 + 0x1E * 0x400 + n * 0x20 + x,
        t == 0x7E3 || t == 0x7E1 || t == 0x5E3 || t == 0x5E1,
        n < 32,
        x < 32,
    ensures
        read_word(w) == read_access(w),
        w / 0x20_0000 == t,
        w % 32 == x,
        (w / 32) % 32 == n,
        (w / 0x1_0000) % 32 == 22,
        (w / 0x400) % 64 == 0x1E,
{
    lemma_fields(w, t, 22, 0x1E, n, x);
    reveal(read_word);
}

proof fn lemma_convert_read(x: u32)
    requires
        x < 32,
    ensures
        read_word((0x1E22C000u32 | (x << 5u32) | x) as nat) == Some(
            Op::Widen { d: x as int, s: x as int },
        ),
        read_word((0x1E624000u32 | (x << 5u32) | x) as nat) == Some(
            Op::Narrow { d: x as int, s: x as int, keep: false },
        ),
{
    lemma_fields_free();
    lemma_two_registers(0x1E22C000u32, x, x);
    lemma_two_registers(0x1E624000u32, x, x);
    let y = x as nat;
    lemma_fields((0x1E22C000u32 | (x << 5u32) | x) as nat, 0xF1, 2, 0x30, y, y);
    lemma_fields((0x1E624000u32 | (x << 5u32) | x) as nat, 0xF3, 2, 0x10, y, y);
    reveal(read_word);
}

proof fn lemma_arith_read(op: BinOp, d: u32, l: u32, r: u32)
    requires
        d < 32,
        l < 32,
        r < 32,
    ensures
        ({
            let w = match op {
                BinOp::Add => fadd_words(d, l, r),
                BinOp::Sub => fsub_words(d, l, r),
                BinOp::Mul => fmul_words(d, l, r),
                BinOp::Div => fdiv_words(d, l, r),
            };
            are_read(w, seq![(Op::Arith { op, d: d as int, l: l as int, r: r as int }, 4nat)])
        }),
{
    lemma_fields_free();
    match op {
        BinOp::Add => {
            lemma_three_registers(0x1E602800u32, r, l, d);
            lemma_one_arith(fadd_words(d, l, r)[0] as nat, 0x0A, r as nat, l as nat, d as nat);
        },
        BinOp::Sub => {
            lemma_three_registers(0x1E603800u32, r, l, d);
            lemma_one_arith(fsub_words(d, l, r)[0] as nat, 0x0E, r as nat, l as nat, d as nat);
        },
        BinOp::Mul => {
            lemma_three_registers(0x1E600800u32, r, l, d);
            lemma_one_arith(fmul_words(d, l, r)[0] as nat, 0x02, r as nat, l as nat, d as nat);
        },
        BinOp::Div => {
            lemma_three_registers(0x1E601800u32, r, l, d);
            lemma_one_arith(fdiv_words(d, l, r)[0] as nat, 0x06, r as nat, l as nat, d as nat);
        },
    }
}

proof fn lemma_one_arith(w: nat, k: nat, m: nat, n: nat, d: nat)
    requires
        w == 0xF3 * 0x20_0000 + m * 0x1_0000 + k * 0x400 + n * 0x20 + d,
        k == 0x0A || k == 0x0E || k == 0x02 || k == 0x06,
        m < 32,
        n < 32,
        d < 32,
    ensures
        read_word(w) == Some(
            Op::Arith {
                op: if k == 0x0A {
                    BinOp::Add
                } else if k == 0x0E {
                    BinOp::Sub
                } else if k == 0x02 {
                    BinOp::Mul
                } else {
                    BinOp::Div
                },
                d: d as int,
                l: n as int,
                r: m as int,
            },
        ),
{
    lemma_fields(w, 0xF3, m, k, n, d);
    reveal(read_word);
}

proof fn lemma_half_read(v: u32)
    requires
        v < 0x1_0000,
    ensures
        read_word((0xD2800000u32 | (v << 5u32) | 9u32) as nat) == Some(
            Op::SetInt { d: 9, v: v as u64 },
        ),
        read_word((0x52800000u32 | (v << 5u32) | 9u32) as nat) == Some(
            Op::SetInt { d: 9, v: v as u64 },
        ),
        read_word((0xF2A00000u32 | (v << 5u32) | 9u32) as nat) == Some(
            Op::Insert { d: 9, at: 16, v: v as u64, size: 8 },
        ),
        read_word((0xF2C00000u32 | (v << 5u32) | 9u32) as nat) == Some(
            Op::Insert { d: 9, at: 32, v: v as u64, size: 8 },
        ),
        read_word((0xF2E00000u32 | (v << 5u32) | 9u32) as nat) == Some(
            Op::Insert { d: 9, at: 48, v: v as u64, size: 8 },
        ),
        read_word((0x72A00000u32 | (v << 5u32) | 9u32) as nat) == Some(
            Op::Insert { d: 9, at: 16, v: v as u64, size: 4 },
        ),
{
    lemma_fields_free();
    lemma_half(0xD2800000u32, v, 9);
    lemma_half(0x52800000u32, v, 9);
    lemma_half(0xF2A00000u32, v, 9);
    lemma_half(0xF2C00000u32, v, 9);
    lemma_half(0xF2E00000u32, v, 9);
    lemma_half(0x72A00000u32, v, 9);
    lemma_one_half((0xD2800000u32 | (v << 5u32) | 9u32) as nat, 0x694, v as nat);
    lemma_one_half((0x52800000u32 | (v << 5u32) | 9u32) as nat, 0x294, v as nat);
    lemma_one_half((0xF2A00000u32 | (v << 5u32) | 9u32) as nat, 0x795, v as nat);
    lemma_one_half((0xF2C00000u32 | (v << 5u32) | 9u32) as nat, 0x796, v as nat);
    lemma_one_half((0xF2E00000u32 | (v << 5u32) | 9u32) as nat, 0x797, v as nat);
    lemma_one_half((0x72A00000u32 | (v << 5u32) | 9u32) as nat, 0x395, v as nat);
}

proof fn lemma_one_half(w: nat, t: nat, v: nat)
    requires
        w == t * 0x20_0000 + v * 0x20 + 9,
        t == 0x694 || t == 0x294 || t == 0x795 || t == 0x796 || t == 0x797 || t == 0x395,
        v < 0x1_0000,
    ensures
        read_word(w) == Some(
            if t == 0x694 || t == 0x294 {
                Op::SetInt { d: 9, v: v as u64 }
            } else if t == 0x795 {
                Op::Insert { d: 9, at: 16, v: v as u64, size: 8 }
            } else if t == 0x796 {
                Op::Insert { d: 9, at: 32, v: v as u64, size: 8 }
            } else if t == 0x797 {
                Op::Insert { d: 9, at: 48, v: v as u64, size: 8 }
            } else {
                Op::Insert { d: 9, at: 16, v: v as u64, size: 4 }
            },
        ),
{
    lemma_half_fields(w, t, v, 9);
    reveal(read_word);
}

proof fn lemma_to_value_read(x: u32)
    requires
        x < 32,
    ensures
        read_word((0x9E670120u32 | (9u32 << 5u32) | x) as nat) == Some(
            Op::ToVal { d: x as int, s: 9, size: 8 },
        ),
        read_word((0x1E270120u32 | (9u32 << 5u32) | x) as nat) == Some(
            Op::ToVal { d: x as int, s: 9, size: 4 },
        ),
{
    assert(0x9E670120u32 | (9u32 << 5u32) | x == 0x9E670120 + x && 0x1E270120u32 | (9u32 << 5u32)
        | x == 0x1E270120 + x) by (bit_vector)
        requires
            x < 32,
    ;
    let y = x as nat;
    lemma_fields((0x9E670120u32 | (9u32 << 5u32) | x) as nat, 0x4F3, 7, 0, 9, y);
    lemma_fields((0x1E270120u32 | (9u32 << 5u32) | x) as nat, 0xF1, 7, 0, 9, y);
    reveal(read_word);
}

/// The sixteen bits of a constant, by its size.
proof fn lemma_chunk_values(v: u64)
    ensures
        chunk(v, 0) == v % 0x1_0000,
        chunk(v, 16) == (v / 0x1_0000) % 0x1_0000,
        chunk(v, 32) == (v / 0x1_0000_0000) % 0x1_0000,
        chunk(v, 48) == v / 0x1_0000_0000_0000,
        v >> 16u32 != 0 <==> v >= 0x1_0000,
        v >> 32u32 != 0 <==> v >= 0x1_0000_0000,
        v >> 48u32 != 0 <==> v >= 0x1_0000_0000_0000,
{
    assert((((v >> 0u32) & 0xFFFFu64) as u32) == v % 0x1_0000 && (((v >> 16u32) & 0xFFFFu64)
        as u32) == (v / 0x1_0000) % 0x1_0000 && (((v >> 32u32) & 0xFFFFu64) as u32) == (v
        / 0x1_0000_0000) % 0x1_0000 && (((v >> 48u32) & 0xFFFFu64) as u32) == v
        / 0x1_0000_0000_0000 && (v >> 16u32 != 0 <==> v >= 0x1_0000) && (v >> 32u32 != 0 <==> v
        >= 0x1_0000_0000) && (v >> 48u32 != 0 <==> v >= 0x1_0000_0000_0000)) by (bit_vector);
}

proof fn lemma_word_chunks(v: u32)
    ensures
        v & 0xFFFFu32 == v % 0x1_0000,
        (v >> 16u32) & 0xFFFFu32 == v / 0x1_0000,
        v >> 16u32 != 0 <==> v >= 0x1_0000,
{
    assert(v & 0xFFFFu32 == v % 0x1_0000 && (v >> 16u32) & 0xFFFFu32 == v / 0x1_0000 && (v >> 16u32
        != 0 <==> v >= 0x1_0000)) by (bit_vector);
}

proof fn lemma_set_double_read(x: u32, v: u64)
    requires
        x < 32,
    ensures
        are_read(set_double_words(x, v), set_double_ops(x as int, v)),
{
    lemma_chunk_values(v);
    lemma_to_value_read(x);
    let c0 = chunk(v, 0);
    let c1 = chunk(v, 16);
    let c2 = chunk(v, 32);
    let c3 = chunk(v, 48);
    lemma_half_read(c0);
    lemma_half_read(c1);
    lemma_half_read(c2);
    lemma_half_read(c3);
    let w0 = seq![0xD2800000u32 | (c0 << 5u32) | 9u32];
    let o0 = seq![(Op::SetInt { d: 9, v: (v % 0x1_0000) as u64 }, 4nat)];
    let w1 = if v >> 16u32 != 0 {
        seq![0xF2A00000u32 | (c1 << 5u32) | 9u32]
    } else {
        Seq::empty()
    };
    let w2 = if v >> 32u32 != 0 {
        seq![0xF2C00000u32 | (c2 << 5u32) | 9u32]
    } else {
        Seq::empty()
    };
    let w3 = if v >> 48u32 != 0 {
        seq![0xF2E00000u32 | (c3 << 5u32) | 9u32]
    } else {
        Seq::empty()
    };
    let w4 = seq![0x9E670120u32 | (9u32 << 5u32) | x];
    let o4 = seq![(Op::ToVal { d: x as int, s: 9, size: 8 }, 4nat)];
    assert(are_read(w0, o0));
    assert(are_read(w1, part_ops(v, 16, 8)));
    assert(are_read(w2, part_ops(v, 32, 8)));
    assert(are_read(w3, part_ops(v, 48, 8)));
    assert(are_read(w4, o4));
    lemma_read_add(w0, o0, w1, part_ops(v, 16, 8));
    lemma_read_add(w0 + w1, o0 + part_ops(v, 16, 8), w2, part_ops(v, 32, 8));
    lemma_read_add(
        w0 + w1 + w2,
        o0 + part_ops(v, 16, 8) + part_ops(v, 32, 8),
        w3,
        part_ops(v, 48, 8),
    );
    lemma_read_add(
        w0 + w1 + w2 + w3,
        o0 + part_ops(v, 16, 8) + part_ops(v, 32, 8) + part_ops(v, 48, 8),
        w4,
        o4,
    );
}

proof fn lemma_set_single_read(x: u32, v: u32)
    requires
        x < 32,
    ensures
        are_read(set_single_words(x, v), set_single_ops(x as int, v)),
{
    lemma_word_chunks(v);
    lemma_to_value_read(x);
    lemma_convert_read(x);
    lemma_half_read(v & 0xFFFFu32);
    lemma_half_read((v >> 16u32) & 0xFFFFu32);
    let w0 = seq![0x52800000u32 | ((v & 0xFFFFu32) << 5u32) | 9u32];
    let o0 = seq![(Op::SetInt { d: 9, v: (v % 0x1_0000) as u64 }, 4nat)];
    let w1 = if v >> 16u32 != 0 {
        seq![0x72A00000u32 | (((v >> 16u32) & 0xFFFFu32) << 5u32) | 9u32]
    } else {
        Seq::empty()
    };
    let w2 = seq![0x1E270120u32 | (9u32 << 5u32) | x, 0x1E22C000u32 | (x << 5u32) | x];
    let o2 = seq![
        (Op::ToVal { d: x as int, s: 9, size: 4 }, 4nat),
        (Op::Widen { d: x as int, s: x as int }, 4nat),
    ];
    assert(are_read(w0, o0));
    assert(are_read(w1, part_ops(v as u64, 16, 4)));
    assert(are_read(w2, o2));
    lemma_read_add(w0, o0, w1, part_ops(v as u64, 16, 4));
    lemma_read_add(w0 + w1, o0 + part_ops(v as u64, 16, 4), w2, o2);
}

/// The code of an instruction is read as its machine instructions.
pub proof fn lemma_inst_read(alloc: Seq<PReg>, i: Inst)
    requires
        named_exist(alloc, i),
    ensures
        are_read(inst_words(alloc, i), aarch64_ops(alloc, i)),
{
    match i {
        Inst::Load { dst, input_idx, bits } => {
            let x = alloc[dst as int] as u32;
            let slot = input_idx as u32;
            lemma_pointer_read(slot);
            lemma_access_read(x);
            lemma_convert_read(x);
            let w0 = seq![load_ptr_word(slot)];
            let o0 = seq![(pointer_op(slot as nat), 4nat)];
            assert(are_read(w0, o0));
            if bits == 64 {
                let o1 = seq![(Op::LoadVal { d: x as int, size: 8, from: element_of(0, 8) }, 4nat)];
                assert(are_read(ldr_f64_words(x), o1));
                lemma_read_add(w0, o0, ldr_f64_words(x), o1);
            } else {
                let o1 = seq![
                    (Op::LoadVal { d: x as int, size: 4, from: element_of(0, 4) }, 4nat),
                    (Op::Widen { d: x as int, s: x as int }, 4nat),
                ];
                assert(are_read(ldr_f32_to_f64_words(x), o1));
                lemma_read_add(w0, o0, ldr_f32_to_f64_words(x), o1);
            }
        },
        Inst::Const { dst, val, bits } => {
            let x = alloc[dst as int] as u32;
            if bits == 64 {
                lemma_set_double_read(x, val);
            } else {
                lemma_set_single_read(x, f32_of_f64(val));
            }
        },
        Inst::BinOp { dst, op, lhs, rhs } => {
            lemma_arith_read(
                op,
                alloc[dst as int] as u32,
                alloc[lhs as int] as u32,
                alloc[rhs as int] as u32,
            );
        },
        Inst::Store { src, bits } => {
            let x = alloc[src as int] as u32;
            lemma_access_read(x);
            lemma_convert_read(x);
        },
    }
}

/// The jumps of a loop.
pub proof fn lemma_jumps_read(n: nat, top: nat)
    requires
        0 < n < 0x4_0000,
    ensures
        read_word(bge_word(n as u32) as nat) == Some(Op::JumpGe { by: 4 * n - 4 }),
        read_word(branch_word(top + 4 * n, top) as nat) == Some(Op::Jump { by: -(4 * n) - 4 }),
{
    let d = n as u32;
    assert(0x5400000Au32 | ((d & 0x7FFFFu32) << 5u32) == 0x5400000A + d * 0x20) by (bit_vector)
        requires
            d < 0x4_0000,
    ;
    let back: u32 = 0u32.wrapping_sub(((top + 4 * n - top) / 4) as u32);
    assert(back == 0x1_0000_0000 - n);
    assert(0x14000000u32 | (back & 0x03FF_FFFFu32) == 0x14000000 + (back - 0xFC00_0000))
        by (bit_vector)
        requires
            back >= 0xFE00_0000u32,
    ;
    reveal(read_word);
    let w = bge_word(d) as nat;
    assert(w / 0x100_0000 == 0x54 && w % 32 == 10 && (w / 32) % 0x8_0000 == n);
    lemma_half_parts(w);
    let b = branch_word(top + 4 * n, top) as nat;
    assert(b / 0x400_0000 == 5 && b % 0x400_0000 == 0x400_0000 - n);
    lemma_half_parts(b);
}

/// The leading fields of a word lie within each other.
proof fn lemma_half_parts(w: nat)
    ensures
        (w / 0x20_0000) / 8 == w / 0x100_0000,
        (w / 0x40_0000) / 4 == w / 0x100_0000,
        (w / 0x20_0000) / 32 == w / 0x400_0000,
        (w / 0x40_0000) / 16 == w / 0x400_0000,
        (w / 0x400) / 0x800 == w / 0x20_0000,
{
}

// ─── Other instructions ──────────────────────────────────────────────────────

/// A word that copies a double is read as that.
pub proof fn law_copy_is_read(dst: u32, src: u32)
    requires
        dst < 32,
        src < 32,
    ensures
        are_read(
            fmov_dd_words(dst, src),
            seq![(Op::MoveVal { d: dst as int, s: src as int }, 4nat)],
        ),
{
    let w = fmov_dd_words(dst, src)[0];
    assert(w == 0x1E60_4000 + src * 0x20 + dst && w == 0xF3 * 0x20_0000 + 0x10 * 0x400 + src * 0x20
        + dst) by {
        assert(0x1E604000u32 & 0x03FFu32 == 0) by (bit_vector);
        lemma_two_registers(0x1E604000u32, src, dst);
    }
    lemma_fields(w as nat, 0xF3, 0, 0x10, src as nat, dst as nat);
    reveal(read_word);
}

/// The registers of a fused multiplication and addition of doubles: where the result
/// goes, the two factors and the addend.
pub open spec fn read_multiply_add(w: nat) -> Option<(nat, nat, nat, nat)> {
    if w / 0x20_0000 == 0xFA && (w / 0x8000) % 2 == 0 {
        Some((w % 32, (w / 32) % 32, (w / 0x1_0000) % 32, (w / 0x400) % 32))
    } else {
        None
    }
}

/// A word that multiplies and adds is read as that.
pub proof fn law_multiply_add_is_read(dst: u32, n: u32, m: u32, a: u32)
    requires
        dst < 32,
        n < 32,
        m < 32,
        a < 32,
    ensures
        fmadd_words(dst, n, m, a).len() == 1,
        read_multiply_add(fmadd_words(dst, n, m, a)[0] as nat) == Some(
            (dst as nat, n as nat, m as nat, a as nat),
        ),
{
    let w = fmadd_words(dst, n, m, a)[0];
    assert(0x1F400000u32 | (m << 16u32) | (a << 10u32) | (n << 5u32) | dst == 0x1F40_0000 + m
        * 0x1_0000 + a * 0x400 + n * 0x20 + dst) by (bit_vector)
        requires
            dst < 32,
            n < 32,
            m < 32,
            a < 32,
    ;
    lemma_fields(w as nat, 0xFA, m as nat, a as nat, n as nat, dst as nat);
    assert((w as nat / 0x8000) % 2 == 0);
}

} // verus!
