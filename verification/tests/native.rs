//! Native code: lowering, registers, checks, and assembled bytes.

use numtoy::graph::{ArenaGraph, Node};
use numtoy::ir::{flat_var, Expr};
use numtoy::jit::backend::{native_backend, KernelBackend};
use numtoy::jit::bounds::{
    alloc_guarded_buffer, check_program, verify_guard_zone, BoundsReport, GuardViolation,
};
use numtoy::jit::emit::{CodeEmitter, FallbackEmitter, Target, X86_64Emitter};
use numtoy::jit::emit_aarch64::{AArch64Assembler, AArch64CodeEmitter};
use numtoy::jit::ir::{try_lower, BinOp, Inst, LiveInterval, NtProgram};
use numtoy::jit::regalloc::{compute_intervals, linear_scan_alloc};
use numtoy::jit::try_compile;
use numtoy::soft_float::FloatOp;
use numtoy::types::{DataType, Scalar};

fn unit(op: FloatOp, a: u64, b: u64) -> u64 {
    let x = f64::from_bits(a);
    let y = f64::from_bits(b);
    match op {
        FloatOp::Add => (x + y).to_bits(),
        FloatOp::Sub => (x - y).to_bits(),
        FloatOp::Mul => (x * y).to_bits(),
        FloatOp::Div => (x / y).to_bits(),
        FloatOp::Pow10 => 10f64.powi(a as i32).to_bits(),
    }
}

fn var(id: usize, d: DataType) -> Expr {
    flat_var(id, "v", d, 2, vec![0u8; 16], None, false)
}

fn double(id: usize) -> Expr {
    var(id, DataType::Float(64))
}

fn constant(v: f64) -> Expr {
    Expr::new_const(Scalar::DynamicFloat(v.to_bits()))
}

fn lower(e: &Expr) -> Option<NtProgram> {
    try_lower(&ArenaGraph::from_expr(e), &unit)
}

const SYSV: Target = Target::X86_64 { windows: false };

/// Runs a program on physical registers.
fn run(p: &NtProgram, inputs: &[f64]) -> f64 {
    let mut regs = [f64::NAN; 16];
    for i in &p.insts {
        match *i {
            Inst::Load { dst, input_idx, .. } => regs[p.alloc[dst]] = inputs[input_idx],
            Inst::Const { dst, val, .. } => regs[p.alloc[dst]] = f64::from_bits(val),
            Inst::BinOp { dst, op, lhs, rhs } => {
                let d = p.alloc[dst];
                regs[d] = regs[p.alloc[lhs]];
                let r = regs[p.alloc[rhs]];
                match op {
                    BinOp::Add => regs[d] += r,
                    BinOp::Sub => regs[d] -= r,
                    BinOp::Mul => regs[d] *= r,
                    BinOp::Div => regs[d] /= r,
                }
            }
            Inst::Store { src, .. } => return regs[p.alloc[src]],
        }
    }
    unreachable!()
}

#[test]
fn programs_have_one_width() {
    let single = |id: usize| var(id, DataType::Float(32));
    assert_eq!(lower(&single(1).add(single(2))).unwrap().bits, 32);
    assert_eq!(lower(&double(1).add(double(2))).unwrap().bits, 64);
    assert!(lower(&double(1).add(single(2))).is_none());
    assert!(lower(&single(1).mul(double(2))).is_none());
}

#[test]
fn graphs_are_lowered_in_order() {
    let e = double(5).add(constant(2.0)).mul(double(7));
    let p = lower(&e).unwrap();
    assert_eq!(
        p.insts,
        vec![
            Inst::Load { dst: 0, input_idx: 0, bits: 64 },
            Inst::Const { dst: 1, val: 2.0f64.to_bits(), bits: 64 },
            Inst::BinOp { dst: 2, op: BinOp::Add, lhs: 0, rhs: 1 },
            Inst::Load { dst: 3, input_idx: 1, bits: 64 },
            Inst::BinOp { dst: 4, op: BinOp::Mul, lhs: 2, rhs: 3 },
            Inst::Store { src: 4, bits: 64 },
        ]
    );
    assert_eq!(p.num_vregs, 5);
    assert_eq!(p.num_inputs, 2);
    assert_eq!(p.output_vreg, 4);
    assert_eq!(p.alloc, vec![0, 1, 2, 0, 1]);
    assert!(p.bounds.structurally_valid);
    assert_eq!(run(&p, &[3.0, 4.0]), 20.0);
}

#[test]
fn shared_nodes_are_lowered_once() {
    let mut g = ArenaGraph::new();
    let x = ArenaGraph::from_expr(&double(1)).nodes.remove(0);
    let n = g.push(x);
    let sum = g.push(Node::Add(n, n));
    g.root = g.push(Node::Mul(sum, sum));
    let p = try_lower(&g, &unit).unwrap();
    assert_eq!(p.insts.len(), 4);
    assert_eq!(run(&p, &[3.0]), 36.0);
}

#[test]
fn inputs_are_found_by_id() {
    let e = double(1).sub(double(2)).div(double(1));
    let p = lower(&e).unwrap();
    assert_eq!(p.num_inputs, 2);
    assert_eq!(run(&p, &[8.0, 2.0]), 0.75);
}

#[test]
fn only_standard_floats_are_lowered() {
    assert!(lower(&var(1, DataType::Float(32))).is_some());
    assert!(lower(&var(1, DataType::Float(16))).is_none());
    assert!(lower(&var(1, DataType::Int(32))).is_none());
    let stolen = flat_var(1, "v", DataType::Float(32), 2, vec![0u8; 8], None, true);
    assert!(lower(&stolen).is_none());
    let mixed = double(1).add(var(2, DataType::Int(8)));
    assert!(lower(&mixed).is_none());
}

#[test]
fn pressure_and_limits_refuse_programs() {
    // A chain that keeps every operand live until the end.
    let mut e = double(20);
    for i in (0..20).rev() {
        e = double(i).add(e);
    }
    assert!(lower(&e).is_none());
    let mut long = ArenaGraph::from_expr(&double(0));
    for _ in 0..4095 {
        long.root = long.push(Node::Add(long.root, 0));
    }
    assert!(try_lower(&long, &unit).is_none());
}

#[test]
fn intervals_reach_from_definition_to_last_use() {
    let insts = vec![
        Inst::Load { dst: 0, input_idx: 0, bits: 64 },
        Inst::Load { dst: 1, input_idx: 1, bits: 64 },
        Inst::BinOp { dst: 2, op: BinOp::Add, lhs: 0, rhs: 1 },
        Inst::Store { src: 2, bits: 64 },
    ];
    let iv = compute_intervals(&insts, 3);
    assert_eq!(
        iv,
        vec![
            LiveInterval { vreg: 0, start: 0, end: 2 },
            LiveInterval { vreg: 1, start: 1, end: 2 },
            LiveInterval { vreg: 2, start: 2, end: 3 },
        ]
    );
    assert_eq!(linear_scan_alloc(&iv, 3), Some(vec![0, 1, 2]));
    let crowded: Vec<LiveInterval> =
        (0..15).map(|v| LiveInterval { vreg: v, start: v, end: 20 }).collect();
    assert_eq!(linear_scan_alloc(&crowded, 15), None);
    assert!(linear_scan_alloc(&crowded[..14].to_vec(), 15).is_some());
}

fn program(insts: Vec<Inst>, num_vregs: usize, bits: u32) -> NtProgram {
    NtProgram {
        insts,
        num_vregs,
        num_inputs: 0,
        output_vreg: 0,
        bits,
        alloc: vec![0; num_vregs],
        intervals: vec![],
        bounds: BoundsReport::empty(),
    }
}

#[test]
fn checks_name_the_first_violation() {
    let text = |p: &NtProgram| {
        let r = check_program(p);
        assert!(!r.structurally_valid);
        r.first_violation.unwrap()
    };
    let store = Inst::Store { src: 0, bits: 64 };
    assert_eq!(text(&program(vec![], 0, 64)), "kernel has zero instructions");
    assert_eq!(
        text(&program(vec![store; 4097], 1, 64)),
        "instruction count 4097 exceeds MAX_INSTS (4096)"
    );
    let mut p = program(vec![store], 1, 64);
    p.num_inputs = 300;
    assert_eq!(text(&p), "input count 300 exceeds MAX_INPUTS (256)");
    let mut p = program(vec![store], 1, 64);
    p.alloc = vec![];
    assert_eq!(text(&p), "alloc table length (0) != num_vregs (1)");
    let bad = Inst::Store { src: 7, bits: 64 };
    assert_eq!(
        text(&program(vec![store, bad], 1, 64)),
        "instruction 1 references out-of-range VReg (num_vregs=1)"
    );
    assert_eq!(
        text(&program(vec![store], 1, 16)),
        "unsupported element bit width 16 (only 32 or 64 allowed)"
    );
}

#[test]
fn divisions_may_yield_not_a_number() {
    let p = lower(&double(1).div(double(2)).add(double(1))).unwrap();
    assert_eq!(p.bounds.overflow_sites, vec![2]);
    assert_eq!(p.bounds.nan_vregs, vec![2, 4]);
}

#[test]
fn guards_hold_and_tell() {
    let (mut buf, start) = alloc_guarded_buffer(10);
    assert_eq!(buf.len(), 138);
    assert_eq!(start, 64);
    assert!(buf[64..74].iter().all(|b| *b == 0));
    assert_eq!(verify_guard_zone(&buf, 10), Ok(()));
    buf[70] = 9;
    assert_eq!(verify_guard_zone(&buf, 10), Ok(()));
    buf[75] = 1;
    assert_eq!(
        verify_guard_zone(&buf, 10),
        Err(GuardViolation::Trailing { index: 1, got: 1 })
    );
    buf[3] = 2;
    assert_eq!(
        verify_guard_zone(&buf, 10),
        Err(GuardViolation::Leading { index: 3, got: 2 })
    );
}

#[test]
fn x86_code_is_a_loop() {
    let p = lower(&double(1).add(double(2))).unwrap();
    let code = X86_64Emitter::emit(&p, SYSV).unwrap();
    let expected: Vec<u8> = vec![
        0x55, 0x48, 0x89, 0xE5, 0x53, 0x41, 0x56, 0x41, 0x57, 0x48, 0x83, 0xEC, 0x08, // save
        0x48, 0x89, 0xFB, 0x49, 0x89, 0xF6, 0x49, 0x89, 0xD7, // arguments
        0x4D, 0x31, 0xD2, // xor r10, r10
        0x4D, 0x3B, 0xD7, // cmp r10, r15
        0x0F, 0x8D, 49, 0, 0, 0, // jge
        0x48, 0x8B, 0x83, 0, 0, 0, 0, // mov rax, [rbx]
        0xF2, 0x42, 0x0F, 0x10, 0x04, 0xD0, // movsd xmm0, [rax + r10*8]
        0x48, 0x8B, 0x83, 8, 0, 0, 0, // mov rax, [rbx + 8]
        0xF2, 0x42, 0x0F, 0x10, 0x0C, 0xD0, // movsd xmm1, [rax + r10*8]
        0xF2, 0x40, 0x0F, 0x10, 0xD0, // movsd xmm2, xmm0
        0xF2, 0x0F, 0x58, 0xD1, // addsd xmm2, xmm1
        0xF2, 0x43, 0x0F, 0x11, 0x14, 0xD6, // movsd [r14 + r10*8], xmm2
        0x49, 0xFF, 0xC2, // inc r10
        0xE9, 0xC6, 0xFF, 0xFF, 0xFF, // jmp
        0x48, 0x83, 0xC4, 0x08, 0x41, 0x5F, 0x41, 0x5E, 0x5B, 0x5D, 0xC3, // restore
    ];
    assert_eq!(code, expected);
    let windows = X86_64Emitter::emit(&p, Target::X86_64 { windows: true }).unwrap();
    assert_eq!(windows[13..22], [0x48, 0x89, 0xCB, 0x49, 0x89, 0xD6, 0x4D, 0x89, 0xC7]);
    assert!(X86_64Emitter::emit(&p, Target::AArch64).is_none());
    assert!(FallbackEmitter::emit(&p, SYSV).is_none());
}

#[test]
fn x86_singles_are_widened_and_narrowed() {
    let p = lower(&var(1, DataType::Float(32)).mul(constant(0.5))).unwrap();
    let code = X86_64Emitter::emit(&p, SYSV).unwrap();
    let has = |s: &[u8]| code.windows(s.len()).any(|w| w == s);
    assert!(has(&[0x42, 0x8B, 0x04, 0x90, 0x66, 0x0F, 0x6E, 0xC0, 0xF3, 0x0F, 0x5A, 0xC0]));
    assert!(has(&[0xB8, 0x00, 0x00, 0x00, 0x3F]));
    assert!(has(&[0xF2, 0x0F, 0x5A, 0xD2, 0x66, 0x0F, 0x7E, 0xD0, 0x43, 0x89, 0x04, 0x96]));
}

fn words(code: &[u8]) -> Vec<u32> {
    code.chunks(4).map(|c| u32::from_le_bytes([c[0], c[1], c[2], c[3]])).collect()
}

#[test]
fn aarch64_instructions_are_words() {
    let mut a = AArch64Assembler::new();
    a.fadd(1, 2, 3);
    a.fsub(1, 2, 3);
    a.fmul(1, 2, 3);
    a.fdiv(1, 2, 3);
    a.fmov_dd(4, 5);
    a.fmadd(1, 2, 3, 4);
    a.ldr_f64(6);
    a.str_f64(7);
    a.cmp_loop();
    a.inc_loop_ctr();
    a.load_input_ptr(2);
    assert_eq!(
        words(&a.buf),
        vec![
            0x1E632841, 0x1E633841, 0x1E630841, 0x1E631841, 0x1E6040A4, 0x1F431041, 0xFC767806,
            0xFC367A87, 0xEB1502DF, 0x910006D6, 0xF9400A60,
        ]
    );
    let mut a = AArch64Assembler::new();
    a.ldr_f32_to_f64(1);
    a.str_f32(1);
    assert_eq!(words(&a.buf), vec![0xBC767801, 0x1E22C021, 0x1E624021, 0xBC367A81]);
}

#[test]
fn aarch64_constants_are_set_in_steps() {
    let mut a = AArch64Assembler::new();
    a.fmov_imm64(0, 0x3FF0_0000_0000_0000);
    assert_eq!(
        words(&a.buf),
        vec![0xD2800009, 0xF2A00009, 0xF2C00009, 0xF2E7FE09, 0x9E670120]
    );
    let mut a = AArch64Assembler::new();
    a.fmov_imm64(2, 0x1234);
    assert_eq!(words(&a.buf), vec![0xD2824689, 0x9E670122]);
    let mut a = AArch64Assembler::new();
    a.fmov_imm32(1, 0x3F80_0000);
    assert_eq!(words(&a.buf), vec![0x52800009, 0x72A7F009, 0x1E270121, 0x1E22C021]);
}

#[test]
fn aarch64_branches_reach_their_targets() {
    let mut a = AArch64Assembler::new();
    let top = a.record_label();
    let site = a.bge_placeholder();
    a.fadd(0, 0, 0);
    a.branch_back(top);
    a.patch_bcond(site);
    assert_eq!(words(&a.buf), vec![0x5400006A, 0x1E602800, 0x17FFFFFE]);
}

#[test]
fn aarch64_code_is_a_loop() {
    let p = lower(&double(1).add(double(2))).unwrap();
    let code = words(&AArch64CodeEmitter::emit(&p, Target::AArch64).unwrap());
    let mut a = AArch64Assembler::new();
    a.prologue();
    let n = a.buf.len() / 4;
    assert_eq!(code[..n], words(&a.buf)[..]);
    assert_eq!(code[n], 0xEB1502DF);
    assert_eq!(code[n + 1], 0x5400000A | (9 << 5));
    assert_eq!(code[n + 2..n + 4], [0xF9400260, 0xFC767800]);
    assert_eq!(code[n + 4..n + 6], [0xF9400660, 0xFC767801]);
    assert_eq!(code[n + 6], 0x1E612802);
    assert_eq!(code[n + 7], 0xFC367A82);
    assert_eq!(code[n + 8], 0x910006D6);
    assert_eq!(code[n + 9], 0x17FFFFF7);
    let mut a = AArch64Assembler::new();
    a.epilogue();
    assert_eq!(code[n + 10..], words(&a.buf)[..]);
    assert!(AArch64CodeEmitter::emit(&p, SYSV).is_none());
}

#[test]
fn aarch64_elements_are_reached_by_their_index() {
    let mut a = AArch64Assembler::new();
    a.str_f64(5);
    a.ldr_f64(31);
    a.ldr_f32_to_f64(2);
    a.str_f32(3);
    let code = words(&a.buf);
    assert_eq!(code[0], 0xFC367A85);
    for w in [code[0], code[1], code[2], code[5]] {
        assert_eq!((w >> 12) & 1, 1);
        assert_eq!((w >> 13) & 7, 3);
        assert_eq!((w >> 16) & 31, 22);
    }
}

#[test]
fn programs_without_instructions_have_no_code() {
    let empty = NtProgram {
        insts: vec![],
        num_vregs: 0,
        num_inputs: 0,
        output_vreg: 0,
        bits: 64,
        alloc: vec![],
        intervals: vec![],
        bounds: BoundsReport::empty(),
    };
    assert!(X86_64Emitter::emit(&empty, SYSV).is_none());
    assert!(X86_64Emitter::emit(&empty, Target::X86_64 { windows: true }).is_none());
    assert!(AArch64CodeEmitter::emit(&empty, Target::AArch64).is_none());
    assert!(native_backend(SYSV).emit(&empty, SYSV).is_none());
    assert!(native_backend(Target::AArch64).emit(&empty, Target::AArch64).is_none());
}

#[test]
fn backends_have_names() {
    assert_eq!(native_backend(SYSV).name(), "x86_64");
    assert_eq!(native_backend(Target::AArch64).name(), "aarch64");
    let p = lower(&double(1)).unwrap();
    assert!(native_backend(SYSV).emit(&p, SYSV).is_some());
    assert!(native_backend(Target::AArch64).emit(&p, SYSV).is_none());
}

#[test]
fn compilation_gives_code_or_nothing() {
    let e = double(1).add(double(2));
    let p = lower(&e).unwrap();
    let g = ArenaGraph::from_expr(&e);
    assert_eq!(try_compile(&g, SYSV, &unit), X86_64Emitter::emit(&p, SYSV));
    let g = ArenaGraph::from_expr(&var(1, DataType::Int(8)));
    assert!(try_compile(&g, SYSV, &unit).is_none());
}
