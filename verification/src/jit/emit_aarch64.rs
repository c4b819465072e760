//! The assembly of programs for AArch64: a loop over the elements, with the
//! program as its body.
//!
//! In the loop `x19` holds the inputs, `x20` the output, `x21` the number of
//! elements and `x22` the element at hand; `x0` and `x9` are scratch. Values are
//! doubles in `d0` to `d13`. What a callee has to keep of these, `x19` to `x22`
//! and `d8` to `d15`, is saved and restored.

use crate::bytes::{law_le_round_trip, le_bytes, write_u32_le};
use crate::jit::bounds::MAX_INPUTS;
use crate::jit::emit::{emittable, patch_word, CodeEmitter, Target};
use crate::jit::ir::{BinOp, Inst, NtProgram, PReg};
use crate::jit::regalloc::inst_in_range;
use crate::soft_float::{f32_from_f64, f32_of_f64};
use vstd::prelude::*;

verus! {

/// An instruction as bytes.
pub open spec fn word(w: u32) -> Seq<u8> {
    le_bytes(w as nat, 4)
}

/// Instructions as bytes.
pub open spec fn words(ws: Seq<u32>) -> Seq<u8>
    decreases ws.len(),
{
    if ws.len() == 0 {
        Seq::empty()
    } else {
        words(ws.drop_last()) + word(ws.last())
    }
}

/// The assembler.
#[derive(Debug)]
pub struct AArch64Assembler {
    pub buf: Vec<u8>,
}

/// Saves the frame, `x19` to `x22` and `d8` to `d15` on the stack, and moves the
/// arguments to where the loop has them.
pub open spec fn prologue_words() -> Seq<u32> {
    seq![
        0xA9B97BFDu32,  // stp x29, x30, [sp, #-112]!
        0x910003FDu32,  // mov x29, sp
        0xA90153F3u32,  // stp x19, x20, [sp, #16]
        0xA9025BF5u32,  // stp x21, x22, [sp, #32]
        0x6D0327E8u32,  // stp d8, d9, [sp, #48]
        0x6D042FEAu32,  // stp d10, d11, [sp, #64]
        0x6D0537ECu32,  // stp d12, d13, [sp, #80]
        0x6D063FEEu32,  // stp d14, d15, [sp, #96]
        0xAA0003F3u32,  // mov x19, x0
        0xAA0103F4u32,  // mov x20, x1
        0xAA0203F5u32,  // mov x21, x2
        0xAA1F03F6u32,  // mov x22, xzr
    ]
}

/// Restores what was saved, and returns.
pub open spec fn epilogue_words() -> Seq<u32> {
    seq![
        0x6D463FEEu32,  // ldp d14, d15, [sp, #96]
        0x6D4537ECu32,  // ldp d12, d13, [sp, #80]
        0x6D442FEAu32,  // ldp d10, d11, [sp, #64]
        0x6D4327E8u32,  // ldp d8, d9, [sp, #48]
        0xA9425BF5u32,  // ldp x21, x22, [sp, #32]
        0xA94153F3u32,  // ldp x19, x20, [sp, #16]
        0xA8C77BFDu32,  // ldp x29, x30, [sp], #112
        0xD65F03C0u32,  // ret
    ]
}

/// `b.ge` over so many instructions.
pub open spec fn bge_word(distance: u32) -> u32 {
    0x5400000Au32 | ((distance & 0x7FFFFu32) << 5u32)
}

/// `b` from one place in the code to another.
pub open spec fn branch_word(from: nat, to: nat) -> u32 {
    let distance: u32 = if to >= from {
        (((to - from) / 4) as u32)
    } else {
        0u32.wrapping_sub(((from - to) / 4) as u32)
    };
    0x14000000u32 | (distance & 0x03FF_FFFFu32)
}

/// Sixteen bits of a constant.
pub open spec fn chunk(v: u64, shift: u32) -> u32 {
    ((v >> shift) & 0xFFFFu64) as u32
}

/// Sets `x9` in steps of 16 bits, of which the upper ones may be left out, and
/// moves it to a register for values.
pub open spec fn set_double_words(dreg: u32, v: u64) -> Seq<u32> {
    seq![0xD2800000u32 | (chunk(v, 0) << 5u32) | 9u32] + (if v >> 16u32 != 0 {
        seq![0xF2A00000u32 | (chunk(v, 16) << 5u32) | 9u32]
    } else {
        Seq::empty()
    }) + (if v >> 32u32 != 0 {
        seq![0xF2C00000u32 | (chunk(v, 32) << 5u32) | 9u32]
    } else {
        Seq::empty()
    }) + (if v >> 48u32 != 0 {
        seq![0xF2E00000u32 | (chunk(v, 48) << 5u32) | 9u32]
    } else {
        Seq::empty()
    }) + seq![0x9E670120u32 | (9u32 << 5u32) | dreg]
}

/// Sets `w9` in steps of 16 bits, of which the upper one may be left out, moves
/// it to a register for values, and widens it.
pub open spec fn set_single_words(dreg: u32, v: u32) -> Seq<u32> {
    seq![0x52800000u32 | ((v & 0xFFFFu32) << 5u32) | 9u32] + (if v >> 16u32 != 0 {
        seq![0x72A00000u32 | (((v >> 16u32) & 0xFFFFu32) << 5u32) | 9u32]
    } else {
        Seq::empty()
    }) + seq![0x1E270120u32 | (9u32 << 5u32) | dreg, 0x1E22C000u32 | (dreg << 5u32) | dreg]
}

/// The 16-bit steps of a constant make it up; those that may be left out are
/// zero.
pub proof fn law_chunks_make_constant(v: u64)
    ensures
        chunk(v, 0) as u64 | ((chunk(v, 16) as u64) << 16u64) | ((chunk(v, 32) as u64) << 32u64)
            | ((chunk(v, 48) as u64) << 48u64) == v,
        v >> 16u32 == 0 ==> chunk(v, 16) == 0 && chunk(v, 32) == 0 && chunk(v, 48) == 0,
        v >> 32u32 == 0 ==> chunk(v, 32) == 0 && chunk(v, 48) == 0,
        v >> 48u32 == 0 ==> chunk(v, 48) == 0,
{
    assert((((v >> 0u32) & 0xFFFFu64) as u32) as u64 | (((((v >> 16u32) & 0xFFFFu64) as u32)
        as u64) << 16u64) | (((((v >> 32u32) & 0xFFFFu64) as u32) as u64) << 32u64) | (((((v
        >> 48u32) & 0xFFFFu64) as u32) as u64) << 48u64) == v && (v >> 16u32 == 0 ==> (((v
        >> 16u32) & 0xFFFFu64) as u32) == 0 && (((v >> 32u32) & 0xFFFFu64) as u32) == 0 && (((v
        >> 48u32) & 0xFFFFu64) as u32) == 0) && (v >> 32u32 == 0 ==> (((v >> 32u32) & 0xFFFFu64)
        as u32) == 0 && (((v >> 48u32) & 0xFFFFu64) as u32) == 0) && (v >> 48u32 == 0 ==> (((v
        >> 48u32) & 0xFFFFu64) as u32) == 0)) by (bit_vector);
}

proof fn lemma_words_push(ws: Seq<u32>, w: u32)
    ensures
        words(ws.push(w)) == words(ws) + word(w),
{
    assert(ws.push(w).drop_last() =~= ws);
}

proof fn lemma_words_len(ws: Seq<u32>)
    ensures
        words(ws).len() == 4 * ws.len(),
    decreases ws.len(),
{
    if ws.len() > 0 {
        lemma_words_len(ws.drop_last());
        law_le_round_trip(ws.last() as nat, 4);
    }
}

proof fn lemma_words_add(a: Seq<u32>, b: Seq<u32>)
    ensures
        words(a + b) == words(a) + words(b),
    decreases b.len(),
{
    if b.len() == 0 {
        assert(a + b =~= a);
        assert(words(a) + words(b) =~= words(a));
    } else {
        lemma_words_add(a, b.drop_last());
        assert((a + b).drop_last() =~= a + b.drop_last());
        assert(words(a) + words(b.drop_last()) + word(b.last()) =~= words(a) + words(b));
    }
}

impl AArch64Assembler {
    /// An assembler without code.
    pub fn new() -> (r: Self)
        ensures
            r.buf@ == Seq::<u8>::empty(),
    {
        AArch64Assembler { buf: Vec::with_capacity(512) }
    }

    fn emit_u32(&mut self, insn: u32)
        ensures
            final(self).buf@ == old(self).buf@ + word(insn),
    {
        write_u32_le(&mut self.buf, insn);
    }

    fn emit_all(&mut self, ws: &[u32])
        ensures
            final(self).buf@ == old(self).buf@ + words(ws@),
    {
        let ghost before = self.buf@;
        let n: usize = ws.len();
        let mut i: usize = 0;
        assert(before + words(ws@.take(0)) =~= before);
        while i < n
            invariant
                i <= n,
                n == ws@.len(),
                self.buf@ == before + words(ws@.take(i as int)),
            decreases n - i,
        {
            self.emit_u32(ws[i]);
            proof {
                assert(ws@.take(i as int + 1) =~= ws@.take(i as int).push(ws@[i as int]));
                lemma_words_push(ws@.take(i as int), ws@[i as int]);
                assert(before + words(ws@.take(i as int)) + word(ws@[i as int]) =~= before + words(
                    ws@.take(i as int + 1),
                ));
            }
            i = i + 1;
        }
        assert(ws@.take(n as int) =~= ws@);
    }

    /// Saves registers, and moves the arguments to where the loop has them.
    pub fn prologue(&mut self)
        ensures
            final(self).buf@ == old(self).buf@ + words(prologue_words()),
    {
        let ws: [u32; 12] = [
            0xA9B97BFD, 0x910003FD, 0xA90153F3, 0xA9025BF5, 0x6D0327E8, 0x6D042FEA, 0x6D0537EC,
            0x6D063FEE, 0xAA0003F3, 0xAA0103F4, 0xAA0203F5, 0xAA1F03F6,
        ];
        assert(ws@ =~= prologue_words());
        self.emit_all(ws.as_slice());
    }

    /// Restores registers, and returns.
    pub fn epilogue(&mut self)
        ensures
            final(self).buf@ == old(self).buf@ + words(epilogue_words()),
    {
        let ws: [u32; 8] = [
            0x6D463FEE, 0x6D4537EC, 0x6D442FEA, 0x6D4327E8, 0xA9425BF5, 0xA94153F3, 0xA8C77BFD,
            0xD65F03C0,
        ];
        assert(ws@ =~= epilogue_words());
        self.emit_all(ws.as_slice());
    }

    /// The place where the code ends.
    pub fn record_label(&self) -> (r: usize)
        ensures
            r == self.buf@.len(),
    {
        self.buf.len()
    }

    /// `cmp x22, x21`
    pub fn cmp_loop(&mut self)
        ensures
            final(self).buf@ == old(self).buf@ + word(0xEB1502DF),
    {
        self.emit_u32(0xEB1502DF);
    }

    /// `b.ge` with a distance that is set later, and where it stands.
    pub fn bge_placeholder(&mut self) -> (site: usize)
        ensures
            final(self).buf@ == old(self).buf@ + word(0x5400000A),
            site == old(self).buf@.len(),
    {
        let site: usize = self.buf.len();
        self.emit_u32(0x5400000A);
        site
    }

    /// Sets the distance of the `b.ge` at `site` so that it leads to the end.
    pub fn patch_bcond(&mut self, site: usize)
        requires
            site + 4 <= old(self).buf@.len(),
        ensures
            final(self).buf@ == old(self).buf@.subrange(0, site as int) + word(
                bge_word(((old(self).buf@.len() - site) / 4) as u32),
            ) + old(self).buf@.skip(site + 4),
    {
        let distance: u32 = ((self.buf.len() - site) / 4) as u32;
        let insn: u32 = 0x5400000A | ((distance & 0x7FFFF) << 5);
        patch_word(&mut self.buf, site, insn);
    }

    /// `add x22, x22, #1`
    pub fn inc_loop_ctr(&mut self)
        ensures
            final(self).buf@ == old(self).buf@ + word(0x910006D6),
    {
        self.emit_u32(0x910006D6);
    }

    /// `b` to a place in the code.
    pub fn branch_back(&mut self, loop_top: usize)
        ensures
            final(self).buf@ == old(self).buf@ + word(
                branch_word(old(self).buf@.len(), loop_top as nat),
            ),
    {
        let at: usize = self.buf.len();
        let distance: u32 = if loop_top >= at {
            ((loop_top - at) / 4) as u32
        } else {
            0u32.wrapping_sub(((at - loop_top) / 4) as u32)
        };
        self.emit_u32(0x14000000 | (distance & 0x03FF_FFFF));
    }

    /// `ldr x0, [x19, #slot * 8]`
    pub fn load_input_ptr(&mut self, slot: usize)
        requires
            slot * 8 <= usize::MAX,
        ensures
            final(self).buf@ == old(self).buf@ + word(load_ptr_word(slot as u32)),
    {
        let imm12: u32 = slot as u32;
        self.emit_u32(0xF9400000 | (imm12 << 10) | (19u32 << 5) | 0);
    }

    /// `ldr d, [x0, x22, lsl #3]`
    pub fn ldr_f64(&mut self, dreg: u32)
        ensures
            final(self).buf@ == old(self).buf@ + words(ldr_f64_words(dreg)),
    {
        let ws: [u32; 1] = [0xFC607800u32 | (22u32 << 16u32) | (0u32 << 5u32) | dreg];
        assert(ws@ =~= ldr_f64_words(dreg));
        self.emit_all(ws.as_slice());
    }

    /// `ldr s, [x0, x22, lsl #2]`, and `fcvt d, s`
    pub fn ldr_f32_to_f64(&mut self, dreg: u32)
        ensures
            final(self).buf@ == old(self).buf@ + words(ldr_f32_to_f64_words(dreg)),
    {
        let ws: [u32; 2] = [0xBC607800u32 | (22u32 << 16u32) | (0u32 << 5u32) | dreg, 0x1E22C000u32 | (dreg << 5u32) | dreg];
        assert(ws@ =~= ldr_f32_to_f64_words(dreg));
        self.emit_all(ws.as_slice());
    }

    /// `str d, [x20, x22, lsl #3]`
    pub fn str_f64(&mut self, dreg: u32)
        ensures
            final(self).buf@ == old(self).buf@ + words(str_f64_words(dreg)),
    {
        let ws: [u32; 1] = [0xFC207800u32 | (22u32 << 16u32) | (20u32 << 5u32) | dreg];
        assert(ws@ =~= str_f64_words(dreg));
        self.emit_all(ws.as_slice());
    }

    /// `fcvt s, d`, and `str s, [x20, x22, lsl #2]`
    pub fn str_f32(&mut self, dreg: u32)
        ensures
            final(self).buf@ == old(self).buf@ + words(str_f32_words(dreg)),
    {
        let ws: [u32; 2] = [0x1E624000u32 | (dreg << 5u32) | dreg, 0xBC207800u32 | (22u32 << 16u32) | (20u32 << 5u32) | dreg];
        assert(ws@ =~= str_f32_words(dreg));
        self.emit_all(ws.as_slice());
    }

    /// `fmov d, n`
    pub fn fmov_dd(&mut self, dst: u32, src: u32)
        ensures
            final(self).buf@ == old(self).buf@ + words(fmov_dd_words(dst, src)),
    {
        let ws: [u32; 1] = [0x1E604000u32 | (src << 5u32) | dst];
        assert(ws@ =~= fmov_dd_words(dst, src));
        self.emit_all(ws.as_slice());
    }

    /// `fadd d, n, m`
    pub fn fadd(&mut self, dst: u32, lhs: u32, rhs: u32)
        ensures
            final(self).buf@ == old(self).buf@ + words(fadd_words(dst, lhs, rhs)),
    {
        let ws: [u32; 1] = [0x1E602800u32 | (rhs << 16u32) | (lhs << 5u32) | dst];
        assert(ws@ =~= fadd_words(dst, lhs, rhs));
        self.emit_all(ws.as_slice());
    }

    /// `fsub d, n, m`
    pub fn fsub(&mut self, dst: u32, lhs: u32, rhs: u32)
        ensures
            final(self).buf@ == old(self).buf@ + words(fsub_words(dst, lhs, rhs)),
    {
        let ws: [u32; 1] = [0x1E603800u32 | (rhs << 16u32) | (lhs << 5u32) | dst];
        assert(ws@ =~= fsub_words(dst, lhs, rhs));
        self.emit_all(ws.as_slice());
    }

    /// `fmul d, n, m`
    pub fn fmul(&mut self, dst: u32, lhs: u32, rhs: u32)
        ensures
            final(self).buf@ == old(self).buf@ + words(fmul_words(dst, lhs, rhs)),
    {
        let ws: [u32; 1] = [0x1E600800u32 | (rhs << 16u32) | (lhs << 5u32) | dst];
        assert(ws@ =~= fmul_words(dst, lhs, rhs));
        self.emit_all(ws.as_slice());
    }

    /// `fdiv d, n, m`
    pub fn fdiv(&mut self, dst: u32, lhs: u32, rhs: u32)
        ensures
            final(self).buf@ == old(self).buf@ + words(fdiv_words(dst, lhs, rhs)),
    {
        let ws: [u32; 1] = [0x1E601800u32 | (rhs << 16u32) | (lhs << 5u32) | dst];
        assert(ws@ =~= fdiv_words(dst, lhs, rhs));
        self.emit_all(ws.as_slice());
    }

    /// `fmadd d, n, m, a`: the product of `n` and `m`, added to `a`
    pub fn fmadd(&mut self, dst: u32, n: u32, m: u32, a: u32)
        ensures
            final(self).buf@ == old(self).buf@ + words(fmadd_words(dst, n, m, a)),
    {
        let ws: [u32; 1] = [0x1F400000u32 | (m << 16u32) | (a << 10u32) | (n << 5u32) | dst];
        assert(ws@ =~= fmadd_words(dst, n, m, a));
        self.emit_all(ws.as_slice());
    }

    /// Sets a double.
    pub fn fmov_imm64(&mut self, dreg: u32, bits: u64)
        ensures
            final(self).buf@ == old(self).buf@ + words(set_double_words(dreg, bits)),
    {
        let mut ws: Vec<u32> = Vec::new();
        ws.push(0xD2800000u32 | ((((bits >> 0u32) & 0xFFFFu64) as u32) << 5u32) | 9u32);
        if bits >> 16u32 != 0 {
            ws.push(0xF2A00000u32 | ((((bits >> 16u32) & 0xFFFFu64) as u32) << 5u32) | 9u32);
        }
        if bits >> 32u32 != 0 {
            ws.push(0xF2C00000u32 | ((((bits >> 32u32) & 0xFFFFu64) as u32) << 5u32) | 9u32);
        }
        if bits >> 48u32 != 0 {
            ws.push(0xF2E00000u32 | ((((bits >> 48u32) & 0xFFFFu64) as u32) << 5u32) | 9u32);
        }
        ws.push(0x9E670120u32 | (9u32 << 5u32) | dreg);
        assert(ws@ =~= set_double_words(dreg, bits));
        self.emit_all(ws.as_slice());
    }

    /// Sets a double to the value of a single.
    pub fn fmov_imm32(&mut self, dreg: u32, f32_bits: u32)
        ensures
            final(self).buf@ == old(self).buf@ + words(set_single_words(dreg, f32_bits)),
    {
        let mut ws: Vec<u32> = Vec::new();
        ws.push(0x52800000u32 | ((f32_bits & 0xFFFFu32) << 5u32) | 9u32);
        if f32_bits >> 16u32 != 0 {
            ws.push(0x72A00000u32 | (((f32_bits >> 16u32) & 0xFFFFu32) << 5u32) | 9u32);
        }
        ws.push(0x1E270120u32 | (9u32 << 5u32) | dreg);
        ws.push(0x1E22C000u32 | (dreg << 5u32) | dreg);
        assert(ws@ =~= set_single_words(dreg, f32_bits));
        self.emit_all(ws.as_slice());
    }

    /// Compares, and leaves the loop where all elements are done.
    fn loop_head(&mut self) -> (site: usize)
        ensures
            final(self).buf@ == old(self).buf@ + word(0xEB1502DF) + word(0x5400000A),
            site == (old(self).buf@ + word(0xEB1502DF)).len(),
    {
        self.cmp_loop();
        self.bge_placeholder()
    }

    fn inst(&mut self, alloc: &Vec<PReg>, i: Inst)
        requires
            inst_in_range(i, alloc@.len()),
            i matches Inst::Load { input_idx, .. } ==> input_idx < MAX_INPUTS,
        ensures
            final(self).buf@ == old(self).buf@ + words(inst_words(alloc@, i)),
    {
        let ghost before = self.buf@;
        match i {
            Inst::Load { dst, input_idx, bits } => {
                let dreg: u32 = alloc[dst] as u32;
                self.load_input_ptr(input_idx);
                let ghost ptr = seq![load_ptr_word(input_idx as u32)];
                proof {
                    lemma_words_push(Seq::empty(), load_ptr_word(input_idx as u32));
                    assert(Seq::<u32>::empty().push(load_ptr_word(input_idx as u32)) =~= ptr);
                    assert(words(ptr) =~= word(load_ptr_word(input_idx as u32)));
                    lemma_words_add(ptr, ldr_f64_words(dreg));
                    lemma_words_add(ptr, ldr_f32_to_f64_words(dreg));
                }
                if bits == 64 {
                    self.ldr_f64(dreg);
                } else {
                    self.ldr_f32_to_f64(dreg);
                }
            },
            Inst::Const { dst, val, bits } => {
                let dreg: u32 = alloc[dst] as u32;
                if bits == 64 {
                    self.fmov_imm64(dreg, val);
                } else {
                    self.fmov_imm32(dreg, f32_from_f64(val));
                }
            },
            Inst::BinOp { dst, op, lhs, rhs } => {
                let d: u32 = alloc[dst] as u32;
                let l: u32 = alloc[lhs] as u32;
                let r: u32 = alloc[rhs] as u32;
                match op {
                    BinOp::Add => self.fadd(d, l, r),
                    BinOp::Sub => self.fsub(d, l, r),
                    BinOp::Mul => self.fmul(d, l, r),
                    BinOp::Div => self.fdiv(d, l, r),
                }
            },
            Inst::Store { src, bits } => {
                let dreg: u32 = alloc[src] as u32;
                if bits == 64 {
                    self.str_f64(dreg);
                } else {
                    self.str_f32(dreg);
                }
            },
        }
        assert(self.buf@ =~= before + words(inst_words(alloc@, i)));
    }
}

/// Loads the pointer to an input.
pub open spec fn load_ptr_word(slot: u32) -> u32 {
    0xF9400000u32 | (slot << 10u32) | (19u32 << 5u32) | 0u32
}

/// `ldr d, [x0, x22, lsl #3]`
pub open spec fn ldr_f64_words(dreg: u32) -> Seq<u32> {
    seq![0xFC607800u32 | (22u32 << 16u32) | (0u32 << 5u32) | dreg]
}

/// `ldr s, [x0, x22, lsl #2]`, and `fcvt d, s`
pub open spec fn ldr_f32_to_f64_words(dreg: u32) -> Seq<u32> {
    seq![0xBC607800u32 | (22u32 << 16u32) | (0u32 << 5u32) | dreg, 0x1E22C000u32 | (dreg << 5u32) | dreg]
}

/// `str d, [x20, x22, lsl #3]`
pub open spec fn str_f64_words(dreg: u32) -> Seq<u32> {
    seq![0xFC207800u32 | (22u32 << 16u32) | (20u32 << 5u32) | dreg]
}

/// `fcvt s, d`, and `str s, [x20, x22, lsl #2]`
pub open spec fn str_f32_words(dreg: u32) -> Seq<u32> {
    seq![0x1E624000u32 | (dreg << 5u32) | dreg, 0xBC207800u32 | (22u32 << 16u32) | (20u32 << 5u32) | dreg]
}

/// The field of `n` bits of a word from bit `at` on.
pub open spec fn field(w: u32, at: u32, n: u32) -> u32 {
    (w >> at) & ((1u32 << n) - 1) as u32
}

/// That a word loads or stores a register for values at the element of `base`
/// whose number is in `x22`: the index is shifted left by `size`, the logarithm
/// of an element's bytes.
pub open spec fn is_element_access(w: u32, load: bool, size: u32, base: u32, reg: u32) -> bool {
    &&& field(w, 30, 2) == size
    &&& field(w, 24, 6) == 0x3C
    &&& field(w, 22, 2) == if load {
        1u32
    } else {
        0
    }
    &&& field(w, 21, 1) == 1
    &&& field(w, 16, 5) == 22
    &&& field(w, 13, 3) == 3
    &&& field(w, 12, 1) == 1
    &&& field(w, 10, 2) == 2
    &&& field(w, 5, 5) == base
    &&& field(w, 0, 5) == reg
}

/// Values are loaded from the element at hand of an input, and stored to the
/// element at hand of the output.
pub proof fn law_accesses_reach_elements(dreg: u32)
    requires
        dreg < 32,
    ensures
        is_element_access(ldr_f64_words(dreg)[0], true, 3, 0, dreg),
        is_element_access(ldr_f32_to_f64_words(dreg)[0], true, 2, 0, dreg),
        is_element_access(str_f64_words(dreg)[0], false, 3, 20, dreg),
        is_element_access(str_f32_words(dreg)[1], false, 2, 20, dreg),
{
    let a = ldr_f64_words(dreg)[0];
    let b = ldr_f32_to_f64_words(dreg)[0];
    let c = str_f64_words(dreg)[0];
    let d = str_f32_words(dreg)[1];
    assert(is_element_access(a, true, 3, 0, dreg)) by (bit_vector)
        requires
            dreg < 32,
            a == 0xFC607800u32 | (22u32 << 16u32) | (0u32 << 5u32) | dreg,
    ;
    assert(is_element_access(b, true, 2, 0, dreg)) by (bit_vector)
        requires
            dreg < 32,
            b == 0xBC607800u32 | (22u32 << 16u32) | (0u32 << 5u32) | dreg,
    ;
    assert(is_element_access(c, false, 3, 20, dreg)) by (bit_vector)
        requires
            dreg < 32,
            c == 0xFC207800u32 | (22u32 << 16u32) | (20u32 << 5u32) | dreg,
    ;
    assert(is_element_access(d, false, 2, 20, dreg)) by (bit_vector)
        requires
            dreg < 32,
            d == 0xBC207800u32 | (22u32 << 16u32) | (20u32 << 5u32) | dreg,
    ;
}

/// `fmov d, n`
pub open spec fn fmov_dd_words(dst: u32, src: u32) -> Seq<u32> {
    seq![0x1E604000u32 | (src << 5u32) | dst]
}

/// `fadd d, n, m`
pub open spec fn fadd_words(dst: u32, lhs: u32, rhs: u32) -> Seq<u32> {
    seq![0x1E602800u32 | (rhs << 16u32) | (lhs << 5u32) | dst]
}

/// `fsub d, n, m`
pub open spec fn fsub_words(dst: u32, lhs: u32, rhs: u32) -> Seq<u32> {
    seq![0x1E603800u32 | (rhs << 16u32) | (lhs << 5u32) | dst]
}

/// `fmul d, n, m`
pub open spec fn fmul_words(dst: u32, lhs: u32, rhs: u32) -> Seq<u32> {
    seq![0x1E600800u32 | (rhs << 16u32) | (lhs << 5u32) | dst]
}

/// `fdiv d, n, m`
pub open spec fn fdiv_words(dst: u32, lhs: u32, rhs: u32) -> Seq<u32> {
    seq![0x1E601800u32 | (rhs << 16u32) | (lhs << 5u32) | dst]
}

/// `fmadd d, n, m, a`: the product of `n` and `m`, added to `a`
pub open spec fn fmadd_words(dst: u32, n: u32, m: u32, a: u32) -> Seq<u32> {
    seq![0x1F400000u32 | (m << 16u32) | (a << 10u32) | (n << 5u32) | dst]
}

// ─── Kernels ─────────────────────────────────────────────────────────────────

/// The code of an instruction.
pub open spec fn inst_words(alloc: Seq<PReg>, i: Inst) -> Seq<u32> {
    match i {
        Inst::Load { dst, input_idx, bits } => seq![load_ptr_word(input_idx as u32)] + (if bits
            == 64 {
            ldr_f64_words(alloc[dst as int] as u32)
        } else {
            ldr_f32_to_f64_words(alloc[dst as int] as u32)
        }),
        Inst::Const { dst, val, bits } => if bits == 64 {
            set_double_words(alloc[dst as int] as u32, val)
        } else {
            set_single_words(alloc[dst as int] as u32, f32_of_f64(val))
        },
        Inst::BinOp { dst, op, lhs, rhs } => {
            let d = alloc[dst as int] as u32;
            let l = alloc[lhs as int] as u32;
            let r = alloc[rhs as int] as u32;
            match op {
                BinOp::Add => fadd_words(d, l, r),
                BinOp::Sub => fsub_words(d, l, r),
                BinOp::Mul => fmul_words(d, l, r),
                BinOp::Div => fdiv_words(d, l, r),
            }
        },
        Inst::Store { src, bits } => if bits == 64 {
            str_f64_words(alloc[src as int] as u32)
        } else {
            str_f32_words(alloc[src as int] as u32)
        },
    }
}

/// The code of the first `k` instructions.
pub open spec fn body_words(alloc: Seq<PReg>, insts: Seq<Inst>, k: nat) -> Seq<u32>
    decreases k,
{
    if k == 0 {
        Seq::empty()
    } else {
        body_words(alloc, insts, (k - 1) as nat) + inst_words(alloc, insts[k - 1])
    }
}

/// The code of a program: a loop that ends where all elements are done, runs the
/// body, counts, and starts again.
pub open spec fn kernel_words(p: NtProgram) -> Seq<u32> {
    let body = body_words(p.alloc@, p.insts@, p.insts@.len());
    let top = 4 * prologue_words().len();
    let jump = top + 4 * (body.len() + 3);
    prologue_words() + seq![0xEB1502DFu32, bge_word((body.len() + 3) as u32)] + body + seq![
        0x910006D6u32,
        branch_word(jump, top),
    ] + epilogue_words()
}

/// Makes code for AArch64.
pub struct AArch64CodeEmitter;

impl CodeEmitter for AArch64CodeEmitter {
    open spec fn code(prog: NtProgram, target: Target) -> Option<Seq<u8>> {
        if target == Target::AArch64 && prog.insts@.len() > 0 {
            Some(words(kernel_words(prog)))
        } else {
            None
        }
    }

    fn emit(prog: &NtProgram, target: Target) -> (r: Option<Vec<u8>>) {
        emit_kernel_aarch64(prog, target)
    }
}

proof fn lemma_words_two(a: u32, b: u32)
    ensures
        words(seq![a, b]) == word(a) + word(b),
{
    lemma_words_push(Seq::empty(), a);
    lemma_words_push(seq![a], b);
    assert(Seq::<u32>::empty().push(a) =~= seq![a]);
    assert(seq![a].push(b) =~= seq![a, b]);
    assert(words(Seq::<u32>::empty()) + word(a) =~= word(a));
}

/// The code of a program for AArch64. There is none for another machine, nor for
/// a program without instructions.
pub fn emit_kernel_aarch64(prog: &NtProgram, target: Target) -> (r: Option<Vec<u8>>)
    requires
        emittable(*prog),
    ensures
        match r {
            Some(c) => AArch64CodeEmitter::code(*prog, target) == Some(c@),
            None => AArch64CodeEmitter::code(*prog, target) is None,
        },
{
    match target {
        Target::AArch64 => {},
        _ => return None,
    }
    if prog.insts.len() == 0 {
        return None;
    }
    let mut e = AArch64Assembler::new();
    e.prologue();
    let ghost head = words(prologue_words());
    proof {
        assert(e.buf@ =~= head);
        lemma_words_len(prologue_words());
        law_le_round_trip(0xEB1502DFu32 as nat, 4);
        law_le_round_trip(0x5400000Au32 as nat, 4);
    }
    let top: usize = e.record_label();
    let site: usize = e.loop_head();
    let ghost start = e.buf@;
    let n: usize = prog.insts.len();
    let mut k: usize = 0;
    assert(e.buf@ =~= start + words(body_words(prog.alloc@, prog.insts@, 0)));
    while k < n
        invariant
            k <= n,
            n == prog.insts@.len(),
            emittable(*prog),
            e.buf@ == start + words(body_words(prog.alloc@, prog.insts@, k as nat)),
        decreases n - k,
    {
        let i: Inst = prog.insts[k];
        assert(inst_in_range(prog.insts@[k as int], prog.alloc@.len()));
        e.inst(&prog.alloc, i);
        proof {
            lemma_words_add(
                body_words(prog.alloc@, prog.insts@, k as nat),
                inst_words(prog.alloc@, prog.insts@[k as int]),
            );
            assert(e.buf@ =~= start + words(
                body_words(prog.alloc@, prog.insts@, (k + 1) as nat),
            ));
        }
        k = k + 1;
    }
    let ghost body = body_words(prog.alloc@, prog.insts@, n as nat);
    let ghost jump = (top + 4 * (body.len() + 3)) as nat;
    proof {
        lemma_words_len(body);
        law_le_round_trip(0x910006D6u32 as nat, 4);
        law_le_round_trip(branch_word(jump, top as nat) as nat, 4);
    }
    e.inc_loop_ctr();
    assert(e.buf@.len() == jump);
    e.branch_back(top);
    let ghost whole = e.buf@;
    let ghost tail = words(body) + word(0x910006D6) + word(branch_word(jump, top as nat));
    e.patch_bcond(site);
    proof {
        assert(whole =~= start + tail);
        assert(whole.subrange(0, site as int) =~= head + word(0xEB1502DF));
        assert(whole.skip(site + 4) =~= tail);
        assert((whole.len() - site) / 4 == body.len() + 3);
        let enter = seq![0xEB1502DFu32, bge_word((body.len() + 3) as u32)];
        let leave = seq![0x910006D6u32, branch_word(jump, top as nat)];
        lemma_words_two(0xEB1502DFu32, bge_word((body.len() + 3) as u32));
        lemma_words_two(0x910006D6u32, branch_word(jump, top as nat));
        lemma_words_add(prologue_words(), enter);
        lemma_words_add(prologue_words() + enter, body);
        lemma_words_add(prologue_words() + enter + body, leave);
        lemma_words_add(prologue_words() + enter + body + leave, epilogue_words());
        assert(e.buf@ =~= words(prologue_words() + enter + body + leave));
    }
    e.epilogue();
    assert(e.buf@ =~= words(kernel_words(*prog)));
    Some(e.buf)
}

} // verus!
