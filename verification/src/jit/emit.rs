//! The assembly of programs for x86-64: a loop over the elements, with the
//! program as its body.
//!
//! In the loop `rbx` holds the inputs, `r14` the output, `r15` the number of
//! elements and `r10` the element at hand. Values are doubles in `xmm0` to
//! `xmm13`.

use crate::bytes::{le_bytes, write_bytes, write_u32_le, write_u64_le};
use crate::jit::bounds::{MAX_INPUTS, MAX_INSTS};
use crate::jit::ir::{BinOp, Inst, NtProgram, PReg};
use crate::jit::regalloc::{inst_in_range, vregs_in_range};
use crate::soft_float::{f32_from_f64, f32_of_f64};
use vstd::prelude::*;

verus! {

/// The machine for which code is made.
#[derive(Clone, Copy, Debug, PartialEq, Eq, Structural)]
pub enum Target {
    /// x86-64, with the calling convention of Windows or that of System V.
    X86_64 { windows: bool },
    AArch64,
    Other,
}

/// That a program can be assembled: its counts are within the limits, and its
/// registers exist.
pub open spec fn emittable(p: NtProgram) -> bool {
    &&& p.insts@.len() <= MAX_INSTS
    &&& vregs_in_range(p.insts@, p.alloc@.len())
    &&& forall|v: int| 0 <= v < p.alloc@.len() ==> #[trigger] p.alloc@[v] < 16
    &&& forall|k: int|
        0 <= k < p.insts@.len() ==> (#[trigger] p.insts@[k] matches Inst::Load { input_idx, .. }
            ==> input_idx < MAX_INPUTS)
}

/// Turns programs into machine code.
pub trait CodeEmitter {
    /// The code of a program for a machine. There is none for another machine
    /// than its own, nor for a program without instructions.
    spec fn code(prog: NtProgram, target: Target) -> Option<Seq<u8>>;

    fn emit(prog: &NtProgram, target: Target) -> (r: Option<Vec<u8>>)
        requires
            emittable(*prog),
        ensures
            match r {
                Some(c) => Self::code(*prog, target) == Some(c@),
                None => Self::code(*prog, target) is None,
            },
    ;
}

/// Makes no code for any machine.
pub struct FallbackEmitter;

impl CodeEmitter for FallbackEmitter {
    open spec fn code(prog: NtProgram, target: Target) -> Option<Seq<u8>> {
        None
    }

    fn emit(prog: &NtProgram, target: Target) -> (r: Option<Vec<u8>>) {
        None
    }
}

/// Makes code for x86-64.
pub struct X86_64Emitter;

impl CodeEmitter for X86_64Emitter {
    open spec fn code(prog: NtProgram, target: Target) -> Option<Seq<u8>> {
        match target {
            Target::X86_64 { windows } => if prog.insts@.len() > 0 {
                Some(kernel_code(prog, windows))
            } else {
                None
            },
            _ => None,
        }
    }

    fn emit(prog: &NtProgram, target: Target) -> (r: Option<Vec<u8>>) {
        emit_kernel_x86_64(prog, target)
    }
}

// ─── Instructions as bytes ───────────────────────────────────────────────────

/// A prefix that widens operands and registers.
pub open spec fn rex(w: bool, r: bool, x: bool, b: bool) -> u8 {
    (0x40 + (if w {
        8int
    } else {
        0
    }) + (if r {
        4int
    } else {
        0
    }) + (if x {
        2int
    } else {
        0
    }) + (if b {
        1int
    } else {
        0
    })) as u8
}

/// The byte that names two registers.
pub open spec fn modrm(r: nat, rm: nat) -> u8 {
    (0xC0 + (r % 8) * 8 + rm % 8) as u8
}

/// A prefix, where one of two registers needs it.
pub open spec fn rex_if(d: nat, s: nat) -> Seq<u8> {
    if d >= 8 || s >= 8 {
        seq![rex(false, d >= 8, false, s >= 8)]
    } else {
        Seq::empty()
    }
}

/// Saves registers, and moves the arguments to where the loop has them.
pub open spec fn prologue_code(windows: bool) -> Seq<u8> {
    seq![
        0x55u8, 0x48u8, 0x89u8, 0xE5u8, 0x53u8, 0x41u8, 0x56u8, 0x41u8, 0x57u8, 0x48u8, 0x83u8,
        0xECu8, 0x08u8,
    ] + (if windows {
        seq![0x48u8, 0x89u8, 0xCBu8, 0x49u8, 0x89u8, 0xD6u8, 0x4Du8, 0x89u8, 0xC7u8]
    } else {
        seq![0x48u8, 0x89u8, 0xFBu8, 0x49u8, 0x89u8, 0xF6u8, 0x49u8, 0x89u8, 0xD7u8]
    }) + seq![0x4Du8, 0x31u8, 0xD2u8]
}

/// Restores registers, and returns.
pub open spec fn epilogue_code() -> Seq<u8> {
    seq![0x48u8, 0x83u8, 0xC4u8, 0x08u8, 0x41u8, 0x5Fu8, 0x41u8, 0x5Eu8, 0x5Bu8, 0x5Du8, 0xC3u8]
}

/// `cmp r10, r15`
pub open spec fn compare_code() -> Seq<u8> {
    seq![0x4Du8, 0x3Bu8, 0xD7u8]
}

/// `inc r10`
pub open spec fn inc_code() -> Seq<u8> {
    seq![0x49u8, 0xFFu8, 0xC2u8]
}

/// `mov rax, [rbx + 8 * slot]`
pub open spec fn load_ptr_code(slot: nat) -> Seq<u8> {
    seq![0x48u8, 0x8Bu8, 0x83u8] + le_bytes(8 * slot, 4)
}

/// `movsd x, [rax + 8 * r10]`
pub open spec fn load_double_code(x: nat) -> Seq<u8> {
    seq![
        0xF2u8,
        rex(false, x >= 8, true, false),
        0x0Fu8,
        0x10u8,
        ((x % 8) * 8 + 4) as u8,
        0xD0u8,
    ]
}

/// `movsd [r14 + 8 * r10], x`
pub open spec fn store_double_code(x: nat) -> Seq<u8> {
    seq![
        0xF2u8,
        rex(false, x >= 8, true, true),
        0x0Fu8,
        0x11u8,
        ((x % 8) * 8 + 4) as u8,
        0xD6u8,
    ]
}

/// `movd x, eax`, or back with another operation code.
pub open spec fn movd_code(opcode: u8, x: nat) -> Seq<u8> {
    seq![0x66u8] + (if x >= 8 {
        seq![0x44u8]
    } else {
        Seq::empty()
    }) + seq![0x0Fu8, opcode, modrm(x, 0)]
}

/// An operation on two doubles, or a conversion.
pub open spec fn sse_code(prefix: u8, opcode: u8, d: nat, s: nat) -> Seq<u8> {
    seq![prefix] + rex_if(d, s) + seq![0x0Fu8, opcode, modrm(d, s)]
}

/// `mov eax, [rax + 4 * r10]`, `movd x, eax`, `cvtss2sd x, x`
pub open spec fn load_single_code(x: nat) -> Seq<u8> {
    seq![0x42u8, 0x8Bu8, 0x04u8, 0x90u8] + movd_code(0x6E, x) + sse_code(0xF3, 0x5A, x, x)
}

/// `cvtsd2ss x, x`, `movd eax, x`, `mov [r14 + 4 * r10], eax`
pub open spec fn store_single_code(x: nat) -> Seq<u8> {
    sse_code(0xF2, 0x5A, x, x) + movd_code(0x7E, x) + seq![0x43u8, 0x89u8, 0x04u8, 0x96u8]
}

/// `mov rax, v`, `movq x, rax`
pub open spec fn set_double_code(x: nat, v: u64) -> Seq<u8> {
    seq![0x48u8, 0xB8u8] + le_bytes(v as nat, 8) + seq![
        0x66u8,
        rex(true, x >= 8, false, false),
        0x0Fu8,
        0x6Eu8,
        modrm(x, 0),
    ]
}

/// `mov eax, v`, `movd x, eax`, `cvtss2sd x, x`
pub open spec fn set_single_code(x: nat, v: u32) -> Seq<u8> {
    seq![0xB8u8] + le_bytes(v as nat, 4) + movd_code(0x6E, x) + sse_code(0xF3, 0x5A, x, x)
}

/// `movsd d, s`, where they differ.
pub open spec fn move_code(d: nat, s: nat) -> Seq<u8> {
    if d != s {
        seq![0xF2u8, rex(false, d >= 8, false, s >= 8), 0x0Fu8, 0x10u8, modrm(d, s)]
    } else {
        Seq::empty()
    }
}

/// The code of an operation on doubles.
pub open spec fn op_byte(op: BinOp) -> u8 {
    match op {
        BinOp::Add => 0x58,
        BinOp::Sub => 0x5C,
        BinOp::Mul => 0x59,
        BinOp::Div => 0x5E,
    }
}

/// The code of an instruction.
pub open spec fn inst_code(alloc: Seq<PReg>, i: Inst) -> Seq<u8> {
    match i {
        Inst::Load { dst, input_idx, bits } => load_ptr_code(input_idx as nat) + (if bits == 64 {
            load_double_code(alloc[dst as int] as nat)
        } else {
            load_single_code(alloc[dst as int] as nat)
        }),
        Inst::Const { dst, val, bits } => if bits == 64 {
            set_double_code(alloc[dst as int] as nat, val)
        } else {
            set_single_code(alloc[dst as int] as nat, f32_of_f64(val))
        },
        Inst::BinOp { dst, op, lhs, rhs } => move_code(
            alloc[dst as int] as nat,
            alloc[lhs as int] as nat,
        ) + sse_code(0xF2, op_byte(op), alloc[dst as int] as nat, alloc[rhs as int] as nat),
        Inst::Store { src, bits } => if bits == 64 {
            store_double_code(alloc[src as int] as nat)
        } else {
            store_single_code(alloc[src as int] as nat)
        },
    }
}

/// The code of the first `k` instructions.
pub open spec fn body_code(alloc: Seq<PReg>, insts: Seq<Inst>, k: nat) -> Seq<u8>
    decreases k,
{
    if k == 0 {
        Seq::empty()
    } else {
        body_code(alloc, insts, (k - 1) as nat) + inst_code(alloc, insts[k - 1])
    }
}

/// `jge` over so many bytes.
pub open spec fn jge_code(distance: nat) -> Seq<u8> {
    seq![0x0Fu8, 0x8Du8] + le_bytes(distance, 4)
}

/// `jmp` back over so many bytes.
pub open spec fn jmp_back_code(distance: nat) -> Seq<u8> {
    seq![0xE9u8] + le_bytes((0x1_0000_0000 - distance) as nat, 4)
}

/// The loop: it ends where all elements are done, runs the body, counts, and
/// starts again.
pub open spec fn loop_code(body: Seq<u8>) -> Seq<u8> {
    compare_code() + jge_code((body.len() + 8) as nat) + body + inc_code() + jmp_back_code(
        (body.len() + 17) as nat,
    )
}

/// The code of a program.
pub open spec fn kernel_code(p: NtProgram, windows: bool) -> Seq<u8> {
    prologue_code(windows) + loop_code(body_code(p.alloc@, p.insts@, p.insts@.len()))
        + epilogue_code()
}

/// The jumps of a loop: the first, over its distance, leads behind the loop; the
/// last, back over its distance, leads to its start.
pub proof fn law_loop_jumps(body: Seq<u8>)
    ensures
        compare_code().len() + jge_code((body.len() + 8) as nat).len() + (body.len() + 8) == loop_code(
            body,
        ).len(),
        loop_code(body).len() - (body.len() + 17) == 0,
{
    crate::bytes::law_le_round_trip((body.len() + 8) as nat, 4);
    crate::bytes::law_le_round_trip((0x1_0000_0000 - (body.len() + 17)) as nat, 4);
}

proof fn lemma_inst_len(alloc: Seq<PReg>, i: Inst)
    ensures
        inst_code(alloc, i).len() <= 32,
{
    match i {
        Inst::Load { input_idx, .. } => {
            crate::bytes::law_le_round_trip(8 * input_idx as nat, 4);
        },
        Inst::Const { val, .. } => {
            crate::bytes::law_le_round_trip(val as nat, 8);
            crate::bytes::law_le_round_trip(f32_of_f64(val) as nat, 4);
        },
        _ => {},
    }
}

pub proof fn lemma_body_len(alloc: Seq<PReg>, insts: Seq<Inst>, k: nat)
    ensures
        body_code(alloc, insts, k).len() <= 32 * k,
    decreases k,
{
    if k > 0 {
        lemma_body_len(alloc, insts, (k - 1) as nat);
        lemma_inst_len(alloc, insts[k - 1]);
    }
}

// ─── The assembler ───────────────────────────────────────────────────────────

struct Assembler {
    buf: Vec<u8>,
}

fn rex_byte(w: bool, r: bool, x: bool, b: bool) -> (v: u8)
    ensures
        v == rex(w, r, x, b),
{
    let w8: u8 = if w {
        8
    } else {
        0
    };
    let r4: u8 = if r {
        4
    } else {
        0
    };
    let x2: u8 = if x {
        2
    } else {
        0
    };
    let b1: u8 = if b {
        1
    } else {
        0
    };
    0x40 + w8 + r4 + x2 + b1
}

fn modrm_byte(r: usize, rm: usize) -> (v: u8)
    ensures
        v == modrm(r as nat, rm as nat),
{
    (0xC0 + (r % 8) * 8 + rm % 8) as u8
}

impl Assembler {
    fn push(&mut self, s: &[u8])
        ensures
            final(self).buf@ == old(self).buf@ + s@,
    {
        write_bytes(&mut self.buf, s);
    }

    fn prologue(&mut self, windows: bool)
        ensures
            final(self).buf@ == old(self).buf@ + prologue_code(windows),
    {
        let ghost before = self.buf@;
        let save: [u8; 13] = [
            0x55, 0x48, 0x89, 0xE5, 0x53, 0x41, 0x56, 0x41, 0x57, 0x48, 0x83, 0xEC, 0x08,
        ];
        self.push(save.as_slice());
        let args: [u8; 9] = if windows {
            [0x48, 0x89, 0xCB, 0x49, 0x89, 0xD6, 0x4D, 0x89, 0xC7]
        } else {
            [0x48, 0x89, 0xFB, 0x49, 0x89, 0xF6, 0x49, 0x89, 0xD7]
        };
        self.push(args.as_slice());
        let zero: [u8; 3] = [0x4D, 0x31, 0xD2];
        self.push(zero.as_slice());
        assert(self.buf@ =~= before + prologue_code(windows));
    }

    fn epilogue(&mut self)
        ensures
            final(self).buf@ == old(self).buf@ + epilogue_code(),
    {
        let ghost before = self.buf@;
        let code: [u8; 11] = [
            0x48, 0x83, 0xC4, 0x08, 0x41, 0x5F, 0x41, 0x5E, 0x5B, 0x5D, 0xC3,
        ];
        self.push(code.as_slice());
        assert(self.buf@ =~= before + epilogue_code());
    }

    fn compare(&mut self)
        ensures
            final(self).buf@ == old(self).buf@ + compare_code(),
    {
        let ghost before = self.buf@;
        let code: [u8; 3] = [0x4D, 0x3B, 0xD7];
        self.push(code.as_slice());
        assert(self.buf@ =~= before + compare_code());
    }

    fn inc(&mut self)
        ensures
            final(self).buf@ == old(self).buf@ + inc_code(),
    {
        let ghost before = self.buf@;
        let code: [u8; 3] = [0x49, 0xFF, 0xC2];
        self.push(code.as_slice());
        assert(self.buf@ =~= before + inc_code());
    }

    /// A jump whose distance is set later, and where it is set.
    fn jge_placeholder(&mut self) -> (site: usize)
        requires
            old(self).buf@.len() + 2 <= usize::MAX,
        ensures
            final(self).buf@ == old(self).buf@ + jge_code(0),
            site == old(self).buf@.len() + 2,
    {
        let ghost before = self.buf@;
        let site: usize = self.buf.len() + 2;
        let code: [u8; 2] = [0x0F, 0x8D];
        self.push(code.as_slice());
        write_u32_le(&mut self.buf, 0);
        assert(self.buf@ =~= before + jge_code(0));
        site
    }

    /// Sets the distance of the jump at `site` so that it leads to the end.
    fn patch_jge(&mut self, site: usize)
        requires
            site + 4 <= old(self).buf@.len() <= 0x7FFF_FFFF,
        ensures
            final(self).buf@ == old(self).buf@.subrange(0, site as int) + le_bytes(
                (old(self).buf@.len() - (site + 4)) as nat,
                4,
            ) + old(self).buf@.skip(site + 4),
    {
        let rel: u32 = (self.buf.len() - (site + 4)) as u32;
        patch_word(&mut self.buf, site, rel);
    }

    /// A jump back to `top`.
    fn jmp_back(&mut self, top: usize)
        requires
            top <= old(self).buf@.len() <= 0x7FFF_FFF0,
        ensures
            final(self).buf@ == old(self).buf@ + jmp_back_code(
                (old(self).buf@.len() + 5 - top) as nat,
            ),
    {
        let ghost before = self.buf@;
        let distance: u64 = (self.buf.len() + 5 - top) as u64;
        let code: [u8; 1] = [0xE9];
        self.push(code.as_slice());
        let rel: u64 = 0x1_0000_0000 - distance;
        write_u32_le(&mut self.buf, rel as u32);
        assert(self.buf@ =~= before + jmp_back_code(distance as nat));
    }

    fn load_input_ptr(&mut self, slot: usize)
        requires
            slot < MAX_INPUTS,
        ensures
            final(self).buf@ == old(self).buf@ + load_ptr_code(slot as nat),
    {
        let ghost before = self.buf@;
        let code: [u8; 3] = [0x48, 0x8B, 0x83];
        self.push(code.as_slice());
        write_u32_le(&mut self.buf, (8 * slot) as u32);
        assert(self.buf@ =~= before + load_ptr_code(slot as nat));
    }

    fn load_double(&mut self, x: usize)
        ensures
            final(self).buf@ == old(self).buf@ + load_double_code(x as nat),
    {
        let ghost before = self.buf@;
        let code: [u8; 6] = [
            0xF2,
            rex_byte(false, x >= 8, true, false),
            0x0F,
            0x10,
            ((x % 8) * 8 + 4) as u8,
            0xD0,
        ];
        self.push(code.as_slice());
        assert(self.buf@ =~= before + load_double_code(x as nat));
    }

    fn store_double(&mut self, x: usize)
        ensures
            final(self).buf@ == old(self).buf@ + store_double_code(x as nat),
    {
        let ghost before = self.buf@;
        let code: [u8; 6] = [
            0xF2,
            rex_byte(false, x >= 8, true, true),
            0x0F,
            0x11,
            ((x % 8) * 8 + 4) as u8,
            0xD6,
        ];
        self.push(code.as_slice());
        assert(self.buf@ =~= before + store_double_code(x as nat));
    }

    fn movd(&mut self, opcode: u8, x: usize)
        ensures
            final(self).buf@ == old(self).buf@ + movd_code(opcode, x as nat),
    {
        let ghost before = self.buf@;
        self.buf.push(0x66);
        if x >= 8 {
            self.buf.push(0x44);
        }
        let code: [u8; 3] = [0x0F, opcode, modrm_byte(x, 0)];
        self.push(code.as_slice());
        assert(self.buf@ =~= before + movd_code(opcode, x as nat));
    }

    fn sse(&mut self, prefix: u8, opcode: u8, d: usize, s: usize)
        ensures
            final(self).buf@ == old(self).buf@ + sse_code(prefix, opcode, d as nat, s as nat),
    {
        let ghost before = self.buf@;
        self.buf.push(prefix);
        if d >= 8 || s >= 8 {
            self.buf.push(rex_byte(false, d >= 8, false, s >= 8));
        }
        let code: [u8; 3] = [0x0F, opcode, modrm_byte(d, s)];
        self.push(code.as_slice());
        assert(self.buf@ =~= before + sse_code(prefix, opcode, d as nat, s as nat));
    }

    fn load_single(&mut self, x: usize)
        ensures
            final(self).buf@ == old(self).buf@ + load_single_code(x as nat),
    {
        let ghost before = self.buf@;
        let code: [u8; 4] = [0x42, 0x8B, 0x04, 0x90];
        self.push(code.as_slice());
        self.movd(0x6E, x);
        self.sse(0xF3, 0x5A, x, x);
        assert(self.buf@ =~= before + load_single_code(x as nat));
    }

    fn store_single(&mut self, x: usize)
        ensures
            final(self).buf@ == old(self).buf@ + store_single_code(x as nat),
    {
        let ghost before = self.buf@;
        self.sse(0xF2, 0x5A, x, x);
        self.movd(0x7E, x);
        let code: [u8; 4] = [0x43, 0x89, 0x04, 0x96];
        self.push(code.as_slice());
        assert(self.buf@ =~= before + store_single_code(x as nat));
    }

    fn set_double(&mut self, x: usize, v: u64)
        ensures
            final(self).buf@ == old(self).buf@ + set_double_code(x as nat, v),
    {
        let ghost before = self.buf@;
        let code: [u8; 2] = [0x48, 0xB8];
        self.push(code.as_slice());
        write_u64_le(&mut self.buf, v);
        let code: [u8; 5] = [
            0x66,
            rex_byte(true, x >= 8, false, false),
            0x0F,
            0x6E,
            modrm_byte(x, 0),
        ];
        self.push(code.as_slice());
        assert(self.buf@ =~= before + set_double_code(x as nat, v));
    }

    fn set_single(&mut self, x: usize, v: u32)
        ensures
            final(self).buf@ == old(self).buf@ + set_single_code(x as nat, v),
    {
        let ghost before = self.buf@;
        self.buf.push(0xB8);
        write_u32_le(&mut self.buf, v);
        self.movd(0x6E, x);
        self.sse(0xF3, 0x5A, x, x);
        assert(self.buf@ =~= before + set_single_code(x as nat, v));
    }

    fn move_double(&mut self, d: usize, s: usize)
        ensures
            final(self).buf@ == old(self).buf@ + move_code(d as nat, s as nat),
    {
        let ghost before = self.buf@;
        if d != s {
            let code: [u8; 5] = [
                0xF2,
                rex_byte(false, d >= 8, false, s >= 8),
                0x0F,
                0x10,
                modrm_byte(d, s),
            ];
            self.push(code.as_slice());
        }
        assert(self.buf@ =~= before + move_code(d as nat, s as nat));
    }

    fn inst(&mut self, alloc: &Vec<PReg>, i: Inst)
        requires
            inst_in_range(i, alloc@.len()),
            i matches Inst::Load { input_idx, .. } ==> input_idx < MAX_INPUTS,
        ensures
            final(self).buf@ == old(self).buf@ + inst_code(alloc@, i),
    {
        let ghost before = self.buf@;
        match i {
            Inst::Load { dst, input_idx, bits } => {
                self.load_input_ptr(input_idx);
                if bits == 64 {
                    self.load_double(alloc[dst]);
                } else {
                    self.load_single(alloc[dst]);
                }
            },
            Inst::Const { dst, val, bits } => {
                if bits == 64 {
                    self.set_double(alloc[dst], val);
                } else {
                    self.set_single(alloc[dst], f32_from_f64(val));
                }
            },
            Inst::BinOp { dst, op, lhs, rhs } => {
                self.move_double(alloc[dst], alloc[lhs]);
                let code: u8 = match op {
                    BinOp::Add => 0x58,
                    BinOp::Sub => 0x5C,
                    BinOp::Mul => 0x59,
                    BinOp::Div => 0x5E,
                };
                self.sse(0xF2, code, alloc[dst], alloc[rhs]);
            },
            Inst::Store { src, bits } => {
                if bits == 64 {
                    self.store_double(alloc[src]);
                } else {
                    self.store_single(alloc[src]);
                }
            },
        }
        assert(self.buf@ =~= before + inst_code(alloc@, i));
    }
}

/// Writes a number over the four bytes at `site`.
pub fn patch_word(buf: &mut Vec<u8>, site: usize, v: u32)
    requires
        site + 4 <= old(buf)@.len(),
    ensures
        final(buf)@ == old(buf)@.subrange(0, site as int) + le_bytes(v as nat, 4) + old(
            buf,
        )@.skip(site + 4),
{
    let ghost before = buf@;
    let n: usize = buf.len();
    let mut word: Vec<u8> = Vec::new();
    write_u32_le(&mut word, v);
    proof {
        crate::bytes::law_le_round_trip(v as nat, 4);
        assert(word@ =~= le_bytes(v as nat, 4));
    }
    let mut i: usize = 0;
    while i < 4
        invariant
            i <= 4,
            n == buf@.len(),
            n == before.len(),
            site + 4 <= n,
            word@.len() == 4,
            forall|j: int|
                0 <= j < n ==> #[trigger] buf@[j] == if site <= j < site + i {
                    word@[j - site]
                } else {
                    before[j]
                },
        decreases 4 - i,
    {
        buf.set(site + i, word[i]);
        i = i + 1;
    }
    assert(buf@ =~= before.subrange(0, site as int) + le_bytes(v as nat, 4) + before.skip(
        site + 4,
    ));
}

/// The code of a program for x86-64. There is none for another machine, nor for
/// a program without instructions.
pub fn emit_kernel_x86_64(prog: &NtProgram, target: Target) -> (r: Option<Vec<u8>>)
    requires
        emittable(*prog),
    ensures
        match r {
            Some(c) => X86_64Emitter::code(*prog, target) == Some(c@),
            None => X86_64Emitter::code(*prog, target) is None,
        },
{
    let windows: bool = match target {
        Target::X86_64 { windows } => windows,
        _ => return None,
    };
    if prog.insts.len() == 0 {
        return None;
    }
    let mut e = Assembler { buf: Vec::with_capacity(512) };
    let ghost head = prologue_code(windows);
    e.prologue(windows);
    assert(e.buf@ =~= head);
    let top: usize = e.buf.len();
    e.compare();
    let site: usize = e.jge_placeholder();
    let ghost start = e.buf@;
    proof {
        crate::bytes::law_le_round_trip(0, 4);
        assert(start =~= head + compare_code() + jge_code(0));
        assert(start.len() == site + 4);
    }
    let n: usize = prog.insts.len();
    let mut k: usize = 0;
    assert(e.buf@ =~= start + body_code(prog.alloc@, prog.insts@, 0));
    while k < n
        invariant
            k <= n,
            n == prog.insts@.len(),
            emittable(*prog),
            e.buf@ == start + body_code(prog.alloc@, prog.insts@, k as nat),
        decreases n - k,
    {
        let i: Inst = prog.insts[k];
        assert(inst_in_range(prog.insts@[k as int], prog.alloc@.len()));
        e.inst(&prog.alloc, i);
        assert(e.buf@ =~= start + body_code(prog.alloc@, prog.insts@, (k + 1) as nat));
        k = k + 1;
    }
    let ghost body = body_code(prog.alloc@, prog.insts@, n as nat);
    proof {
        lemma_body_len(prog.alloc@, prog.insts@, n as nat);
    }
    e.inc();
    e.jmp_back(top);
    let ghost whole = e.buf@;
    let ghost back = jmp_back_code((body.len() + 17) as nat);
    proof {
        crate::bytes::law_le_round_trip((0x1_0000_0000 - (body.len() + 17)) as nat, 4);
        crate::bytes::law_le_round_trip((body.len() + 8) as nat, 4);
        assert(whole =~= start + body + inc_code() + back);
    }
    e.patch_jge(site);
    proof {
        assert(whole.subrange(0, site as int) =~= head + compare_code() + seq![0x0Fu8, 0x8Du8]);
        assert(whole.skip(site + 4) =~= body + inc_code() + back);
        assert(e.buf@ =~= head + loop_code(body));
    }
    e.epilogue();
    assert(e.buf@ =~= kernel_code(*prog, windows));
    Some(e.buf)
}

} // verus!
