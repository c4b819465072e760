//! x86-64 machine code read as instructions, as far as kernels use it: prefixes, a byte
//! that widens registers, one or two bytes of operation, and the operands.

use crate::bytes::{law_le_round_trip, le_bytes, le_value};
use crate::jit::emit::{
    compare_code, inc_code, inst_code, jge_code, jmp_back_code, load_double_code, load_ptr_code,
    load_single_code, modrm, movd_code, move_code, op_byte, rex, sse_code, store_double_code,
};
use crate::jit::ir::{BinOp, Inst, PReg};
use crate::jit::machine::{
    lemma_spells_add, lemma_spells_none, lemma_spells_one, spells, Op, Place,
};
use crate::soft_float::f32_of_f64;
use vstd::arithmetic::power2::*;
use vstd::prelude::*;

verus! {

// ─── Reading ─────────────────────────────────────────────────────────────────

/// What comes before the operation: a prefix or zero, the four bits of the byte that
/// widens (the operand, and the registers of the second, the index and the third
/// field), and the place of the operation.
pub struct Lead {
    pub prefix: u8,
    pub wide: bool,
    pub reg: nat,
    pub index: nat,
    pub base: nat,
    pub at: int,
}

pub open spec fn lead_of(s: Seq<u8>) -> Lead {
    let prefix = if s[0] == 0xF2 || s[0] == 0xF3 || s[0] == 0x66 {
        s[0]
    } else {
        0
    };
    let at = if prefix == 0 {
        0int
    } else {
        1
    };
    let b = s[at] as nat;
    if 0x40 <= b < 0x50 {
        Lead {
            prefix,
            wide: (b / 8) % 2 == 1,
            reg: 8 * ((b / 4) % 2),
            index: 8 * ((b / 2) % 2),
            base: 8 * (b % 2),
            at: at + 1,
        }
    } else {
        Lead { prefix, wide: false, reg: 0, index: 0, base: 0, at }
    }
}

/// The first field of the byte of operands.
pub open spec fn field_mod(b: u8) -> nat {
    b as nat / 64
}

/// The second field.
pub open spec fn field_reg(b: u8) -> nat {
    (b as nat / 8) % 8
}

/// The third field.
pub open spec fn field_rm(b: u8) -> nat {
    b as nat % 8
}

/// Four bytes as a signed number.
pub open spec fn signed_word(s: Seq<u8>, at: int) -> int {
    let n = le_value(s.subrange(at, at + 4)) as int;
    if n < 0x8000_0000 {
        n
    } else {
        n - 0x1_0000_0000
    }
}

/// A byte as a signed number.
pub open spec fn signed_byte(b: u8) -> int {
    if b < 0x80 {
        b as int
    } else {
        b - 0x100
    }
}

/// The place that a byte of operands and the byte behind it name, where they name a
/// base and an index of four or eight bytes.
pub open spec fn indexed_place(l: Lead, operands: u8, sib: u8) -> Option<Place> {
    let index = field_reg(sib) + l.index;
    if field_mod(operands) == 0 && field_rm(operands) == 4 && field_mod(sib) >= 2 && index != 4
        && field_rm(sib) != 5 {
        Some(
            Place {
                base: (field_rm(sib) + l.base) as int,
                index: Some(index as int),
                scale: if field_mod(sib) == 2 {
                    4
                } else {
                    8
                },
                distance: 0,
            },
        )
    } else {
        None
    }
}

/// An instruction with an operation of two bytes.
pub open spec fn read_two(s: Seq<u8>, l: Lead) -> Option<(Op, nat)> {
    let o = s[l.at + 1];
    let b = s[l.at + 2];
    let reg = (field_reg(b) + l.reg) as int;
    let rm = (field_rm(b) + l.base) as int;
    let direct = field_mod(b) == 3;
    let short = (l.at + 3) as nat;
    let long = (l.at + 4) as nat;
    if l.prefix == 0xF2 && direct && o == 0x10 {
        Some((Op::MoveVal { d: reg, s: rm }, short))
    } else if l.prefix == 0xF2 && direct && o == 0x58 {
        Some((Op::Arith { op: BinOp::Add, d: reg, l: reg, r: rm }, short))
    } else if l.prefix == 0xF2 && direct && o == 0x59 {
        Some((Op::Arith { op: BinOp::Mul, d: reg, l: reg, r: rm }, short))
    } else if l.prefix == 0xF2 && direct && o == 0x5C {
        Some((Op::Arith { op: BinOp::Sub, d: reg, l: reg, r: rm }, short))
    } else if l.prefix == 0xF2 && direct && o == 0x5E {
        Some((Op::Arith { op: BinOp::Div, d: reg, l: reg, r: rm }, short))
    } else if l.prefix == 0xF2 && direct && o == 0x5A {
        Some((Op::Narrow { d: reg, s: rm, keep: true }, short))
    } else if l.prefix == 0xF3 && direct && o == 0x5A {
        Some((Op::Widen { d: reg, s: rm }, short))
    } else if l.prefix == 0xF2 && !direct && o == 0x10 {
        match indexed_place(l, b, s[l.at + 3]) {
            Some(p) => Some((Op::LoadVal { d: reg, size: 8, from: p }, long)),
            None => None,
        }
    } else if l.prefix == 0xF2 && !direct && o == 0x11 {
        match indexed_place(l, b, s[l.at + 3]) {
            Some(p) => Some((Op::StoreVal { s: reg, size: 8, to: p }, long)),
            None => None,
        }
    } else if l.prefix == 0x66 && direct && o == 0x6E {
        Some(
            (
                Op::ToVal {
                    d: reg,
                    s: rm,
                    size: if l.wide {
                        8
                    } else {
                        4
                    },
                },
                short,
            ),
        )
    } else if l.prefix == 0x66 && direct && o == 0x7E {
        Some(
            (
                Op::FromVal {
                    d: rm,
                    s: reg,
                    size: if l.wide {
                        8
                    } else {
                        4
                    },
                },
                short,
            ),
        )
    } else if l.prefix == 0 && o == 0x8D {
        Some((Op::JumpGe { by: signed_word(s, l.at + 2) }, (l.at + 6) as nat))
    } else {
        None
    }
}

/// An instruction with an operation of one byte.
pub open spec fn read_one(s: Seq<u8>, l: Lead) -> Option<(Op, nat)> {
    let o = s[l.at];
    let b = s[l.at + 1];
    let reg = (field_reg(b) + l.reg) as int;
    let rm = (field_rm(b) + l.base) as int;
    let direct = field_mod(b) == 3;
    let low = (o % 8 + l.base) as int;
    let short = (l.at + 2) as nat;
    if l.prefix != 0 {
        None
    } else if 0x50 <= o < 0x58 {
        Some((Op::Push { s: low, sp: 4 }, (l.at + 1) as nat))
    } else if 0x58 <= o < 0x60 {
        Some((Op::Pop { d: low, sp: 4 }, (l.at + 1) as nat))
    } else if 0xB8 <= o < 0xC0 && l.wide {
        Some(
            (
                Op::SetInt {
                    d: low,
                    v: le_value(s.subrange(l.at + 1, l.at + 9)) as u64,
                },
                (l.at + 9) as nat,
            ),
        )
    } else if 0xB8 <= o < 0xC0 {
        Some(
            (
                Op::SetInt {
                    d: low,
                    v: le_value(s.subrange(l.at + 1, l.at + 5)) as u64,
                },
                (l.at + 5) as nat,
            ),
        )
    } else if o == 0xC3 {
        Some((Op::Return, (l.at + 1) as nat))
    } else if o == 0xE9 {
        Some((Op::Jump { by: signed_word(s, l.at + 1) }, (l.at + 5) as nat))
    } else if o == 0x89 && direct && l.wide {
        Some((Op::Move { d: rm, s: reg }, short))
    } else if o == 0x31 && direct && l.wide && reg == rm {
        Some((Op::SetInt { d: rm, v: 0 }, short))
    } else if o == 0x3B && direct && l.wide {
        Some((Op::Compare { a: reg, b: rm }, short))
    } else if o == 0xFF && direct && l.wide && field_reg(b) == 0 {
        Some((Op::Offset { d: rm, s: rm, by: 1 }, short))
    } else if o == 0x83 && direct && l.wide && field_reg(b) == 0 {
        Some((Op::Offset { d: rm, s: rm, by: signed_byte(s[l.at + 2]) }, (l.at + 3) as nat))
    } else if o == 0x83 && direct && l.wide && field_reg(b) == 5 {
        Some((Op::Offset { d: rm, s: rm, by: -signed_byte(s[l.at + 2]) }, (l.at + 3) as nat))
    } else if o == 0x8B && field_mod(b) == 2 && field_rm(b) != 4 && l.wide {
        Some(
            (
                Op::LoadInt {
                    d: reg,
                    size: 8,
                    from: Place {
                        base: rm,
                        index: None,
                        scale: 1,
                        distance: signed_word(s, l.at + 2),
                    },
                },
                (l.at + 6) as nat,
            ),
        )
    } else if o == 0x8B && !l.wide {
        match indexed_place(l, b, s[l.at + 2]) {
            Some(p) => Some((Op::LoadInt { d: reg, size: 4, from: p }, (l.at + 3) as nat)),
            None => None,
        }
    } else if o == 0x89 && !l.wide {
        match indexed_place(l, b, s[l.at + 2]) {
            Some(p) => Some((Op::StoreInt { s: reg, size: 4, to: p }, (l.at + 3) as nat)),
            None => None,
        }
    } else {
        None
    }
}

/// The instruction at the start of bytes, and the bytes that it takes.
pub open spec fn read_x86(s: Seq<u8>) -> Option<(Op, nat)> {
    let l = lead_of(s);
    let r = if s[l.at] == 0x0F {
        read_two(s, l)
    } else {
        read_one(s, l)
    };
    match r {
        Some((op, n)) => if n <= s.len() {
            Some((op, n))
        } else {
            None
        },
        None => None,
    }
}

/// The reading of bytes as a function.
#[verifier::opaque]
pub open spec fn x86() -> spec_fn(Seq<u8>) -> Option<(Op, nat)> {
    |s: Seq<u8>| read_x86(s)
}

// ─── Single instructions ─────────────────────────────────────────────────────

/// That an operation on two registers for values, behind what comes before it, is read
/// as an instruction.
#[verifier::opaque]
spec fn is_read_as(prefix: u8, opcode: u8, d: nat, s: nat, op: Op) -> bool {
    forall|t: Seq<u8>, l: Lead|
        l.prefix == prefix && t[l.at + 1] == opcode && field_mod(t[l.at + 2]) == 3 && field_reg(
            t[l.at + 2],
        ) + l.reg == d && field_rm(t[l.at + 2]) + l.base == s && l.at >= 0 ==> #[trigger] read_two(
            t,
            l,
        ) == Some((op, (l.at + 3) as nat))
}

/// What comes before the operation where registers are widened.
proof fn lemma_widened_lead(t: Seq<u8>, prefix: u8, d: nat, s: nat)
    requires
        d < 16,
        s < 16,
        prefix == 0xF2 || prefix == 0xF3,
        t[0] == prefix,
        t[1] == rex(false, d >= 8, false, s >= 8),
    ensures
        ({
            let l = lead_of(t);
            l.prefix == prefix && l.at == 2 && l.reg + d % 8 == d && l.base + s % 8 == s
        }),
{
}

/// An operation of two bytes, behind what comes before it.
proof fn lemma_read_two(t: Seq<u8>, op: Op, n: nat)
    requires
        t[lead_of(t).at] == 0x0F,
        read_two(t, lead_of(t)) == Some((op, n)),
        n <= t.len(),
    ensures
        x86()(t) == Some((op, n)),
{
    reveal(x86);
}

/// An operation on two registers, where it is read as an instruction.
proof fn lemma_operands(prefix: u8, opcode: u8, d: nat, s: nat, op: Op, t: Seq<u8>, l: Lead)
    requires
        is_read_as(prefix, opcode, d, s, op),
        l.prefix == prefix,
        l.at >= 0,
        t[l.at + 1] == opcode,
        t[l.at + 2] == modrm(d, s),
        l.reg + d % 8 == d,
        l.base + s % 8 == s,
    ensures
        read_two(t, l) == Some((op, (l.at + 3) as nat)),
{
    reveal(is_read_as);
    lemma_modrm(d, s);
}

proof fn lemma_sse(prefix: u8, opcode: u8, d: nat, s: nat, op: Op)
    requires
        d < 16,
        s < 16,
        prefix == 0xF2 || prefix == 0xF3,
        is_read_as(prefix, opcode, d, s, op),
    ensures
        spells(
            x86(),
            sse_code(prefix, opcode, d, s),
            seq![(op, sse_code(prefix, opcode, d, s).len())],
        ),
{
    let b = sse_code(prefix, opcode, d, s);
    assert forall|rest: Seq<u8>| #[trigger] x86()(b + rest) == Some((op, b.len())) by {
        lemma_sse_read(prefix, opcode, d, s, op, rest);
    }
    lemma_spells_one(x86(), b, op);
}

proof fn lemma_sse_read(prefix: u8, opcode: u8, d: nat, s: nat, op: Op, rest: Seq<u8>)
    requires
        d < 16,
        s < 16,
        prefix == 0xF2 || prefix == 0xF3,
        is_read_as(prefix, opcode, d, s, op),
    ensures
        x86()(sse_code(prefix, opcode, d, s) + rest) == Some(
            (op, sse_code(prefix, opcode, d, s).len()),
        ),
{
    let b = sse_code(prefix, opcode, d, s);
    let o = modrm(d, s);
    let t = b + rest;
    if d >= 8 || s >= 8 {
        let w = rex(false, d >= 8, false, s >= 8);
        assert(b =~= seq![prefix, w, 0x0Fu8, opcode, o]);
        assert(t[0] == prefix && t[1] == w && t[2] == 0x0F && t[3] == opcode && t[4] == o);
        lemma_widened_lead(t, prefix, d, s);
        lemma_operands(prefix, opcode, d, s, op, t, lead_of(t));
        lemma_read_two(t, op, 5);
    } else {
        assert(b =~= seq![prefix, 0x0Fu8, opcode, o]);
        assert(t[0] == prefix && t[1] == 0x0F && t[2] == opcode && t[3] == o);
        lemma_operands(prefix, opcode, d, s, op, t, lead_of(t));
        lemma_read_two(t, op, 4);
    }
}

proof fn lemma_modrm(r: nat, rm: nat)
    ensures
        field_mod(modrm(r, rm)) == 3,
        field_reg(modrm(r, rm)) == r % 8,
        field_rm(modrm(r, rm)) == rm % 8,
{
}

proof fn lemma_movd(opcode: u8, x: nat, op: Op)
    requires
        x < 16,
        (opcode == 0x6E && op == (Op::ToVal { d: x as int, s: 0, size: 4 })) || (opcode == 0x7E
            && op == (Op::FromVal { d: 0, s: x as int, size: 4 })),
    ensures
        spells(x86(), movd_code(opcode, x), seq![(op, movd_code(opcode, x).len())]),
{
    let b = movd_code(opcode, x);
    lemma_modrm(x, 0);
    reveal(x86);
    assert forall|rest: Seq<u8>| #[trigger] x86()(b + rest) == Some((op, b.len())) by {
        let t = b + rest;
        assert(t[0] == 0x66);
        if x >= 8 {
            assert(t[1] == 0x44);
            assert(t[2] == 0x0F);
            assert(t[3] == opcode);
            assert(t[4] == modrm(x, 0));
        } else {
            assert(t[1] == 0x0F);
            assert(t[2] == opcode);
            assert(t[3] == modrm(x, 0));
        }
    }
    lemma_spells_one(x86(), b, op);
}

/// The element at hand of what a register points to.
pub open spec fn element_of(base: int, scale: nat) -> Place {
    Place { base, index: Some(10), scale, distance: 0 }
}

proof fn lemma_load_double(x: nat)
    requires
        x < 16,
    ensures
        spells(
            x86(),
            load_double_code(x),
            seq![(Op::LoadVal { d: x as int, size: 8, from: element_of(0, 8) }, 6nat)],
        ),
{
    let b = load_double_code(x);
    let op = Op::LoadVal { d: x as int, size: 8, from: element_of(0, 8) };
    reveal(x86);
    assert forall|rest: Seq<u8>| #[trigger] x86()(b + rest) == Some((op, b.len())) by {
        let t = b + rest;
        assert(t[0] == 0xF2 && t[1] == rex(false, x >= 8, true, false) && t[2] == 0x0F && t[3]
            == 0x10 && t[4] == (x % 8) * 8 + 4 && t[5] == 0xD0);
    }
    lemma_spells_one(x86(), b, op);
}

proof fn lemma_store_double(x: nat)
    requires
        x < 16,
    ensures
        spells(
            x86(),
            store_double_code(x),
            seq![(Op::StoreVal { s: x as int, size: 8, to: element_of(14, 8) }, 6nat)],
        ),
{
    let b = store_double_code(x);
    let op = Op::StoreVal { s: x as int, size: 8, to: element_of(14, 8) };
    reveal(x86);
    assert forall|rest: Seq<u8>| #[trigger] x86()(b + rest) == Some((op, b.len())) by {
        let t = b + rest;
        assert(t[0] == 0xF2 && t[1] == rex(false, x >= 8, true, true) && t[2] == 0x0F && t[3]
            == 0x11 && t[4] == (x % 8) * 8 + 4 && t[5] == 0xD6);
    }
    lemma_spells_one(x86(), b, op);
}

proof fn lemma_move_double(d: nat, s: nat)
    requires
        d < 16,
        s < 16,
        d != s,
    ensures
        spells(
            x86(),
            move_code(d, s),
            seq![(Op::MoveVal { d: d as int, s: s as int }, 5nat)],
        ),
{
    let b = move_code(d, s);
    let op = Op::MoveVal { d: d as int, s: s as int };
    let w = rex(false, d >= 8, false, s >= 8);
    lemma_modrm(d, s);
    reveal(x86);
    assert forall|rest: Seq<u8>| #[trigger] x86()(b + rest) == Some((op, b.len())) by {
        let t = b + rest;
        assert(t[0] == 0xF2 && t[1] == w && t[2] == 0x0F && t[3] == 0x10 && t[4] == modrm(d, s));
        let l = lead_of(t);
        assert(l.at == 2 && l.prefix == 0xF2 && l.reg + d % 8 == d && l.base + s % 8 == s);
        assert(read_two(t, l) == Some((op, 5nat)));
    }
    lemma_spells_one(x86(), b, op);
}

/// A number of four bytes behind others.
proof fn lemma_word_behind(first: Seq<u8>, n: nat, rest: Seq<u8>)
    requires
        n < 0x1_0000_0000,
    ensures
        ({
            let t = first + le_bytes(n, 4) + rest;
            let at = first.len() as int;
            &&& le_bytes(n, 4).len() == 4
            &&& le_value(t.subrange(at, at + 4)) == n
            &&& forall|i: int| 0 <= i < first.len() ==> #[trigger] t[i] == first[i]
        }),
{
    law_le_round_trip(n, 4);
    lemma2_to64();
    let t = first + le_bytes(n, 4) + rest;
    let at = first.len() as int;
    assert(t.subrange(at, at + 4) =~= le_bytes(n, 4));
}

/// The pointer to an input.
pub open spec fn pointer_op(slot: nat) -> Op {
    Op::LoadInt {
        d: 0,
        size: 8,
        from: Place { base: 3, index: None, scale: 1, distance: 8 * slot as int },
    }
}

proof fn lemma_load_ptr(slot: nat)
    requires
        slot < 256,
    ensures
        spells(x86(), load_ptr_code(slot), seq![(pointer_op(slot), 7nat)]),
{
    let b = load_ptr_code(slot);
    law_le_round_trip(8 * slot, 4);
    reveal(x86);
    assert forall|rest: Seq<u8>| #[trigger] x86()(b + rest) == Some(
        (pointer_op(slot), b.len()),
    ) by {
        let first = seq![0x48u8, 0x8Bu8, 0x83u8];
        lemma_word_behind(first, 8 * slot, rest);
        let t = b + rest;
        assert(t =~= first + le_bytes(8 * slot, 4) + rest);
        assert(t[0] == 0x48 && t[1] == 0x8B && t[2] == 0x83);
    }
    lemma_spells_one(x86(), b, pointer_op(slot));
}

proof fn lemma_fixed(b: Seq<u8>, op: Op)
    requires
        (b == seq![0x42u8, 0x8Bu8, 0x04u8, 0x90u8] && op == (Op::LoadInt {
            d: 0,
            size: 4,
            from: element_of(0, 4),
        })) || (b == seq![0x43u8, 0x89u8, 0x04u8, 0x96u8] && op == (Op::StoreInt {
            s: 0,
            size: 4,
            to: element_of(14, 4),
        })) || (b == compare_code() && op == (Op::Compare { a: 10, b: 15 })) || (b == inc_code()
            && op == (Op::Offset { d: 10, s: 10, by: 1 })),
    ensures
        spells(x86(), b, seq![(op, b.len())]),
{
    reveal(x86);
    assert forall|rest: Seq<u8>| #[trigger] x86()(b + rest) == Some((op, b.len())) by {
        let t = b + rest;
        assert(t[0] == b[0] && t[1] == b[1] && t[2] == b[2]);
        if b.len() > 3 {
            assert(t[3] == b[3]);
        }
    }
    lemma_spells_one(x86(), b, op);
}

pub proof fn lemma_jge(distance: nat)
    requires
        distance < 0x8000_0000,
    ensures
        spells(x86(), jge_code(distance), seq![(Op::JumpGe { by: distance as int }, 6nat)]),
{
    let b = jge_code(distance);
    let op = Op::JumpGe { by: distance as int };
    law_le_round_trip(distance, 4);
    reveal(x86);
    assert forall|rest: Seq<u8>| #[trigger] x86()(b + rest) == Some((op, b.len())) by {
        let first = seq![0x0Fu8, 0x8Du8];
        lemma_word_behind(first, distance, rest);
        let t = b + rest;
        assert(t =~= first + le_bytes(distance, 4) + rest);
        assert(t[0] == 0x0F && t[1] == 0x8D);
    }
    lemma_spells_one(x86(), b, op);
}

pub proof fn lemma_jmp_back(distance: nat)
    requires
        0 < distance <= 0x8000_0000,
    ensures
        spells(
            x86(),
            jmp_back_code(distance),
            seq![(Op::Jump { by: -(distance as int) }, 5nat)],
        ),
{
    let b = jmp_back_code(distance);
    let n = (0x1_0000_0000 - distance) as nat;
    let op = Op::Jump { by: -(distance as int) };
    law_le_round_trip(n, 4);
    reveal(x86);
    assert forall|rest: Seq<u8>| #[trigger] x86()(b + rest) == Some((op, b.len())) by {
        let first = seq![0xE9u8];
        lemma_word_behind(first, n, rest);
        let t = b + rest;
        assert(t =~= first + le_bytes(n, 4) + rest);
        assert(t[0] == 0xE9);
    }
    lemma_spells_one(x86(), b, op);
}

proof fn lemma_set_word(v: u32)
    ensures
        spells(
            x86(),
            seq![0xB8u8] + le_bytes(v as nat, 4),
            seq![(Op::SetInt { d: 0, v: v as u64 }, 5nat)],
        ),
{
    let b = seq![0xB8u8] + le_bytes(v as nat, 4);
    let op = Op::SetInt { d: 0, v: v as u64 };
    law_le_round_trip(v as nat, 4);
    reveal(x86);
    assert forall|rest: Seq<u8>| #[trigger] x86()(b + rest) == Some((op, b.len())) by {
        let first = seq![0xB8u8];
        lemma_word_behind(first, v as nat, rest);
        let t = b + rest;
        assert(t =~= first + le_bytes(v as nat, 4) + rest);
        assert(t[0] == 0xB8);
    }
    lemma_spells_one(x86(), b, op);
}

proof fn lemma_set_long(v: u64)
    ensures
        spells(
            x86(),
            seq![0x48u8, 0xB8u8] + le_bytes(v as nat, 8),
            seq![(Op::SetInt { d: 0, v }, 10nat)],
        ),
{
    let first = seq![0x48u8, 0xB8u8];
    let b = first + le_bytes(v as nat, 8);
    let op = Op::SetInt { d: 0, v };
    law_le_round_trip(v as nat, 8);
    crate::bits::lemma_pow2_64();
    reveal(x86);
    assert forall|rest: Seq<u8>| #[trigger] x86()(b + rest) == Some((op, b.len())) by {
        let t = b + rest;
        assert(t.subrange(2, 10) =~= le_bytes(v as nat, 8));
        assert(t[0] == 0x48 && t[1] == 0xB8);
    }
    lemma_spells_one(x86(), b, op);
}

proof fn lemma_movq(x: nat)
    requires
        x < 16,
    ensures
        spells(
            x86(),
            seq![0x66u8, rex(true, x >= 8, false, false), 0x0Fu8, 0x6Eu8, modrm(x, 0)],
            seq![(Op::ToVal { d: x as int, s: 0, size: 8 }, 5nat)],
        ),
{
    let b = seq![0x66u8, rex(true, x >= 8, false, false), 0x0Fu8, 0x6Eu8, modrm(x, 0)];
    let op = Op::ToVal { d: x as int, s: 0, size: 8 };
    reveal(x86);
    assert forall|rest: Seq<u8>| #[trigger] x86()(b + rest) == Some((op, b.len())) by {
        let t = b + rest;
        assert(t[0] == b[0] && t[1] == b[1] && t[2] == b[2] && t[3] == b[3] && t[4] == b[4]);
    }
    lemma_spells_one(x86(), b, op);
}

/// The comparison and the count of a loop.
pub proof fn lemma_loop_pieces()
    ensures
        spells(x86(), compare_code(), seq![(Op::Compare { a: 10, b: 15 }, 3nat)]),
        spells(x86(), inc_code(), seq![(Op::Offset { d: 10, s: 10, by: 1 }, 3nat)]),
{
    lemma_fixed(compare_code(), Op::Compare { a: 10, b: 15 });
    lemma_fixed(inc_code(), Op::Offset { d: 10, s: 10, by: 1 });
}

// ─── The instructions of a program ───────────────────────────────────────────

/// The bytes of an operation on two registers for values.
pub open spec fn pair_len(d: nat, s: nat) -> nat {
    if d >= 8 || s >= 8 {
        5
    } else {
        4
    }
}

/// The machine instructions of an instruction.
pub open spec fn x86_ops(alloc: Seq<PReg>, i: Inst) -> Seq<(Op, nat)> {
    match i {
        Inst::Load { dst, input_idx, bits } => {
            let x = alloc[dst as int] as nat;
            seq![(pointer_op(input_idx as nat), 7nat)] + (if bits == 64 {
                seq![(Op::LoadVal { d: x as int, size: 8, from: element_of(0, 8) }, 6nat)]
            } else {
                seq![
                    (Op::LoadInt { d: 0, size: 4, from: element_of(0, 4) }, 4nat),
                    (Op::ToVal { d: x as int, s: 0, size: 4 }, pair_len(x, 0)),
                    (Op::Widen { d: x as int, s: x as int }, pair_len(x, x)),
                ]
            })
        },
        Inst::Const { dst, val, bits } => {
            let x = alloc[dst as int] as nat;
            if bits == 64 {
                seq![
                    (Op::SetInt { d: 0, v: val }, 10nat),
                    (Op::ToVal { d: x as int, s: 0, size: 8 }, 5nat),
                ]
            } else {
                seq![
                    (Op::SetInt { d: 0, v: f32_of_f64(val) as u64 }, 5nat),
                    (Op::ToVal { d: x as int, s: 0, size: 4 }, pair_len(x, 0)),
                    (Op::Widen { d: x as int, s: x as int }, pair_len(x, x)),
                ]
            }
        },
        Inst::BinOp { dst, op, lhs, rhs } => {
            let d = alloc[dst as int] as nat;
            let l = alloc[lhs as int] as nat;
            let r = alloc[rhs as int] as nat;
            (if d != l {
                seq![(Op::MoveVal { d: d as int, s: l as int }, 5nat)]
            } else {
                Seq::empty()
            }) + seq![(Op::Arith { op, d: d as int, l: d as int, r: r as int }, pair_len(d, r))]
        },
        Inst::Store { src, bits } => {
            let x = alloc[src as int] as nat;
            if bits == 64 {
                seq![(Op::StoreVal { s: x as int, size: 8, to: element_of(14, 8) }, 6nat)]
            } else {
                seq![
                    (Op::Narrow { d: x as int, s: x as int, keep: true }, pair_len(x, x)),
                    (Op::FromVal { d: 0, s: x as int, size: 4 }, pair_len(x, 0)),
                    (Op::StoreInt { s: 0, size: 4, to: element_of(14, 4) }, 4nat),
                ]
            }
        },
    }
}

/// The registers and the input that an instruction names exist.
pub open spec fn named_exist(alloc: Seq<PReg>, i: Inst) -> bool {
    match i {
        Inst::Load { dst, input_idx, .. } => alloc[dst as int] < 16 && input_idx < 256,
        Inst::Const { dst, .. } => alloc[dst as int] < 16,
        Inst::BinOp { dst, lhs, rhs, .. } => alloc[dst as int] < 16 && alloc[lhs as int] < 16
            && alloc[rhs as int] < 16,
        Inst::Store { src, .. } => alloc[src as int] < 16,
    }
}

proof fn lemma_load_spelled(alloc: Seq<PReg>, i: Inst)
    requires
        named_exist(alloc, i),
        i is Load,
    ensures
        spells(x86(), inst_code(alloc, i), x86_ops(alloc, i)),
{
    match i {
        Inst::Load { dst, input_idx, bits } => {
            let x = alloc[dst as int] as nat;
            lemma_load_ptr(input_idx as nat);
            if bits == 64 {
                lemma_load_double(x);
                lemma_spells_add(
                    x86(),
                    load_ptr_code(input_idx as nat),
                    seq![(pointer_op(input_idx as nat), 7nat)],
                    load_double_code(x),
                    seq![(Op::LoadVal { d: x as int, size: 8, from: element_of(0, 8) }, 6nat)],
                );
            } else {
                let load = seq![0x42u8, 0x8Bu8, 0x04u8, 0x90u8];
                let op1 = Op::LoadInt { d: 0, size: 4, from: element_of(0, 4) };
                let op2 = Op::ToVal { d: x as int, s: 0, size: 4 };
                let op3 = Op::Widen { d: x as int, s: x as int };
                lemma_fixed(load, op1);
                lemma_movd(0x6E, x, op2);
                assert(is_read_as(0xF3, 0x5A, x, x, op3)) by {
                    reveal(is_read_as);
                }
                lemma_sse(0xF3, 0x5A, x, x, op3);
                lemma_three(
                    load,
                    (op1, 4nat),
                    movd_code(0x6E, x),
                    (op2, pair_len(x, 0)),
                    sse_code(0xF3, 0x5A, x, x),
                    (op3, pair_len(x, x)),
                );
                lemma_spells_add(
                    x86(),
                    load_ptr_code(input_idx as nat),
                    seq![(pointer_op(input_idx as nat), 7nat)],
                    load_single_code(x),
                    seq![(op1, 4nat), (op2, pair_len(x, 0)), (op3, pair_len(x, x))],
                );
            }
        },
        _ => {},
    }
}

proof fn lemma_const_spelled(alloc: Seq<PReg>, i: Inst)
    requires
        named_exist(alloc, i),
        i is Const,
    ensures
        spells(x86(), inst_code(alloc, i), x86_ops(alloc, i)),
{
    match i {
        Inst::Const { dst, val, bits } => {
            let x = alloc[dst as int] as nat;
            if bits == 64 {
                let b1 = seq![0x48u8, 0xB8u8] + le_bytes(val as nat, 8);
                let b2 = seq![0x66u8, rex(true, x >= 8, false, false), 0x0Fu8, 0x6Eu8, modrm(x, 0)];
                let op1 = (Op::SetInt { d: 0, v: val }, 10nat);
                let op2 = (Op::ToVal { d: x as int, s: 0, size: 8 }, 5nat);
                lemma_set_long(val);
                lemma_movq(x);
                lemma_spells_add(x86(), b1, seq![op1], b2, seq![op2]);
                assert(seq![op1] + seq![op2] =~= seq![op1, op2]);
            } else {
                let v = f32_of_f64(val);
                let b1 = seq![0xB8u8] + le_bytes(v as nat, 4);
                let op1 = Op::SetInt { d: 0, v: v as u64 };
                let op2 = Op::ToVal { d: x as int, s: 0, size: 4 };
                let op3 = Op::Widen { d: x as int, s: x as int };
                lemma_set_word(v);
                lemma_movd(0x6E, x, op2);
                assert(is_read_as(0xF3, 0x5A, x, x, op3)) by {
                    reveal(is_read_as);
                }
                lemma_sse(0xF3, 0x5A, x, x, op3);
                lemma_three(
                    b1,
                    (op1, 5nat),
                    movd_code(0x6E, x),
                    (op2, pair_len(x, 0)),
                    sse_code(0xF3, 0x5A, x, x),
                    (op3, pair_len(x, x)),
                );
            }
        },
        _ => {},
    }
}

proof fn lemma_binop_spelled(alloc: Seq<PReg>, i: Inst)
    requires
        named_exist(alloc, i),
        i is BinOp,
    ensures
        spells(x86(), inst_code(alloc, i), x86_ops(alloc, i)),
{
    match i {
        Inst::BinOp { dst, op, lhs, rhs } => {
            let d = alloc[dst as int] as nat;
            let l = alloc[lhs as int] as nat;
            let r = alloc[rhs as int] as nat;
            let a = Op::Arith { op, d: d as int, l: d as int, r: r as int };
            match op {
                BinOp::Add => {},
                BinOp::Sub => {},
                BinOp::Mul => {},
                BinOp::Div => {},
            }
            assert(is_read_as(0xF2, op_byte(op), d, r, a)) by {
                reveal(is_read_as);
            }
            lemma_sse(0xF2, op_byte(op), d, r, a);
            let b2 = sse_code(0xF2, op_byte(op), d, r);
            let x2 = seq![(a, pair_len(d, r))];
            if d != l {
                lemma_move_double(d, l);
                lemma_spells_add(
                    x86(),
                    move_code(d, l),
                    seq![(Op::MoveVal { d: d as int, s: l as int }, 5nat)],
                    b2,
                    x2,
                );
            } else {
                lemma_spells_none(x86());
                lemma_spells_add(x86(), move_code(d, l), Seq::empty(), b2, x2);
            }
        },
        _ => {},
    }
}

proof fn lemma_store_spelled(alloc: Seq<PReg>, i: Inst)
    requires
        named_exist(alloc, i),
        i is Store,
    ensures
        spells(x86(), inst_code(alloc, i), x86_ops(alloc, i)),
{
    match i {
        Inst::Store { src, bits } => {
            let x = alloc[src as int] as nat;
            if bits == 64 {
                lemma_store_double(x);
            } else {
                let b3 = seq![0x43u8, 0x89u8, 0x04u8, 0x96u8];
                let op1 = Op::Narrow { d: x as int, s: x as int, keep: true };
                let op2 = Op::FromVal { d: 0, s: x as int, size: 4 };
                let op3 = Op::StoreInt { s: 0, size: 4, to: element_of(14, 4) };
                assert(is_read_as(0xF2, 0x5A, x, x, op1)) by {
                    reveal(is_read_as);
                }
                lemma_sse(0xF2, 0x5A, x, x, op1);
                lemma_movd(0x7E, x, op2);
                lemma_fixed(b3, op3);
                lemma_three(
                    sse_code(0xF2, 0x5A, x, x),
                    (op1, pair_len(x, x)),
                    movd_code(0x7E, x),
                    (op2, pair_len(x, 0)),
                    b3,
                    (op3, 4nat),
                );
            }
        },
        _ => {},
    }
}

/// The code of an instruction is read as its machine instructions.
pub proof fn lemma_inst_spelled(alloc: Seq<PReg>, i: Inst)
    requires
        named_exist(alloc, i),
    ensures
        spells(x86(), inst_code(alloc, i), x86_ops(alloc, i)),
{
    match i {
        Inst::Load { .. } => lemma_load_spelled(alloc, i),
        Inst::Const { .. } => lemma_const_spelled(alloc, i),
        Inst::BinOp { .. } => lemma_binop_spelled(alloc, i),
        Inst::Store { .. } => lemma_store_spelled(alloc, i),
    }
}

proof fn lemma_three(
    a: Seq<u8>,
    x: (Op, nat),
    b: Seq<u8>,
    y: (Op, nat),
    c: Seq<u8>,
    z: (Op, nat),
)
    requires
        spells(x86(), a, seq![x]),
        spells(x86(), b, seq![y]),
        spells(x86(), c, seq![z]),
    ensures
        spells(x86(), a + b + c, seq![x, y, z]),
{
    lemma_spells_add(x86(), a, seq![x], b, seq![y]);
    lemma_spells_add(x86(), a + b, seq![x] + seq![y], c, seq![z]);
    assert(seq![x] + seq![y] + seq![z] =~= seq![x, y, z]);
}

} // verus!
