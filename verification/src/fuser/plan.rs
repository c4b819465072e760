//! Kernels as straight-line plans: for each element a list of instructions,
//! each of which yields one word, and the stores that end it.

use crate::bits::{limb_count, signed_value};
use crate::elements::wide_value_scalar;
use crate::fuser::helpers::{
    coded_type, dtype_code, half_word, loaded, type_code, wide_result, wide_word, ArithOp,
};
use crate::fuser::kernel::{expr_views, op_reads_below, op_value, FusedOp, MicroKernel};
use crate::fuser::truncate::{f64_saturated, half_128, saturate_i64, saturate_words};
use crate::fuser::words;
use crate::fuser::words::{extended_wide, shifted_left, shifted_right, word_of, word_result};
use crate::ir::{Expr, ExprView};
use crate::limbs::count_limbs;
use crate::soft_float::{float_answer, F64Bits, FloatOp};
use crate::types::{
    codable, dtype_width, exponent_width, limbs_scalar, scalar_double, scalar_limbs, DataType,
};
use std::collections::HashMap;
use vstd::arithmetic::div_mod::*;
use vstd::arithmetic::power2::*;
use vstd::prelude::*;

verus! {

// ─── Instructions ────────────────────────────────────────────────────────────

/// The place of a value among those of a plan.
pub type ValueId = usize;

/// An instruction, which yields one word. A double is the word of its bits.
#[derive(Debug, Clone, Copy, PartialEq, Eq, Structural)]
pub enum PlanInst {
    /// A constant integer.
    IntConst(u64),
    /// A constant double.
    FloatConst(F64Bits),
    /// A limb of the current element of an input.
    LoadLimb { input: usize, width: u32, limb: u32 },
    /// The double that two limbs stand for.
    Decode {
        limb0: ValueId,
        limb1: ValueId,
        code: u32,
        bits: u32,
        e: u32,
        scale: u32,
        steal: u8,
    },
    /// Arithmetic on doubles.
    FloatArith { op: ArithOp, l: ValueId, r: ValueId },
    /// Wrapping arithmetic on words, signed for division.
    IntArith { op: ArithOp, l: ValueId, r: ValueId },
    /// A shift to the left.
    ShiftLeft { v: ValueId, amount: u32 },
    /// A shift to the right that repeats the sign.
    ShiftRight { v: ValueId, amount: u32 },
    /// A word of wrapping arithmetic on two words.
    WideArith {
        op: ArithOp,
        l0: ValueId,
        l1: ValueId,
        r0: ValueId,
        r1: ValueId,
        limb: u32,
    },
    /// A limb of the code of a double.
    Encode { val: ValueId, code: u32, bits: u32, e: u32, scale: u32, steal: u8, limb: u32 },
}

/// A store of a value as a limb of the current element of the output.
#[derive(Debug, Clone, Copy, PartialEq, Eq, Structural)]
pub struct PlanStore {
    pub val: ValueId,
    pub width: u32,
    pub limb: u32,
}

/// What a kernel does for each element.
#[derive(Debug)]
pub struct KernelPlan {
    pub insts: Vec<PlanInst>,
    pub stores: Vec<PlanStore>,
}

/// The operation on doubles.
pub open spec fn float_op(op: ArithOp) -> FloatOp {
    match op {
        ArithOp::Add => FloatOp::Add,
        ArithOp::Sub => FloatOp::Sub,
        ArithOp::Mul => FloatOp::Mul,
        ArithOp::Div => FloatOp::Div,
    }
}

/// A limb of the code of a double.
pub open spec fn encoded_limb<F: Fn(FloatOp, u64, u64) -> u64>(
    f: F,
    v: u64,
    d: DataType,
    scale: Option<u32>,
    steal_sign: bool,
    limb: u32,
) -> u64 {
    let limbs = scalar_limbs(wide_value_scalar(f, v, d, scale), steal_sign);
    if limb < limbs.len() {
        limbs[limb as int]
    } else {
        0
    }
}

/// The word that an instruction yields for element `i`, given the values before
/// it and the input buffers.
pub open spec fn inst_value<F: Fn(FloatOp, u64, u64) -> u64>(
    f: F,
    inst: PlanInst,
    vals: Seq<u64>,
    bufs: Seq<Seq<u8>>,
    i: nat,
) -> u64 {
    match inst {
        PlanInst::IntConst(v) => v,
        PlanInst::FloatConst(v) => v,
        PlanInst::LoadLimb { input, width, limb } => loaded(bufs[input as int], i, width, limb),
        PlanInst::Decode { limb0, limb1, code, bits, e, scale, steal } => scalar_double(
            f,
            limbs_scalar(
                seq![vals[limb0 as int], vals[limb1 as int]],
                coded_type(code, bits, e),
                Some(scale),
                steal != 0,
            ),
        ),
        PlanInst::FloatArith { op, l, r } => float_answer(
            f,
            float_op(op),
            vals[l as int],
            vals[r as int],
        ),
        PlanInst::IntArith { op, l, r } => word_result(op, vals[l as int], vals[r as int]),
        PlanInst::ShiftLeft { v, amount } => shifted_left(vals[v as int], amount),
        PlanInst::ShiftRight { v, amount } => shifted_right(vals[v as int], amount),
        PlanInst::WideArith { op, l0, l1, r0, r1, limb } => half_word(
            wide_result(
                op,
                wide_word(vals[l0 as int], vals[l1 as int]),
                wide_word(vals[r0 as int], vals[r1 as int]),
            ),
            limb,
        ),
        PlanInst::Encode { val, code, bits, e, scale, steal, limb } => encoded_limb(
            f,
            vals[val as int],
            coded_type(code, bits, e),
            Some(scale),
            steal != 0,
            limb,
        ),
    }
}

/// The words that a list of instructions yields for element `i`.
pub open spec fn run_values<F: Fn(FloatOp, u64, u64) -> u64>(
    f: F,
    insts: Seq<PlanInst>,
    bufs: Seq<Seq<u8>>,
    i: nat,
) -> Seq<u64>
    decreases insts.len(),
{
    if insts.len() == 0 {
        Seq::empty()
    } else {
        let vals = run_values(f, insts.drop_last(), bufs, i);
        vals.push(inst_value(f, insts.last(), vals, bufs, i))
    }
}

/// That an instruction reads none but the first `n` values and `inputs` inputs.
pub open spec fn reads_before(inst: PlanInst, n: nat, inputs: nat) -> bool {
    match inst {
        PlanInst::IntConst(_) => true,
        PlanInst::FloatConst(_) => true,
        PlanInst::LoadLimb { input, .. } => input < inputs,
        PlanInst::Decode { limb0, limb1, .. } => limb0 < n && limb1 < n,
        PlanInst::FloatArith { l, r, .. } => l < n && r < n,
        PlanInst::IntArith { l, r, .. } => l < n && r < n,
        PlanInst::ShiftLeft { v, amount } => v < n && amount < 64,
        PlanInst::ShiftRight { v, amount } => v < n && amount < 64,
        PlanInst::WideArith { l0, l1, r0, r1, .. } => l0 < n && l1 < n && r0 < n && r1 < n,
        PlanInst::Encode { val, .. } => val < n,
    }
}

/// That every instruction of a list reads values before it alone.
pub open spec fn insts_wf(insts: Seq<PlanInst>, inputs: nat) -> bool {
    forall|k: int| 0 <= k < insts.len() ==> reads_before(#[trigger] insts[k], k as nat, inputs)
}

impl KernelPlan {
    /// That the instructions read values before them and that the stores write
    /// values that are there.
    pub open spec fn wf(&self, inputs: nat) -> bool {
        &&& insts_wf(self.insts@, inputs)
        &&& forall|k: int|
            0 <= k < self.stores@.len() ==> (#[trigger] self.stores@[k]).val < self.insts@.len()
    }
}

// ─── Running lists of instructions ───────────────────────────────────────────

/// As many words as instructions.
pub proof fn lemma_run_len<F: Fn(FloatOp, u64, u64) -> u64>(
    f: F,
    insts: Seq<PlanInst>,
    bufs: Seq<Seq<u8>>,
    i: nat,
)
    ensures
        run_values(f, insts, bufs, i).len() == insts.len(),
    decreases insts.len(),
{
    if insts.len() > 0 {
        lemma_run_len(f, insts.drop_last(), bufs, i);
    }
}

/// One more instruction adds its word.
pub proof fn lemma_run_push<F: Fn(FloatOp, u64, u64) -> u64>(
    f: F,
    insts: Seq<PlanInst>,
    x: PlanInst,
    bufs: Seq<Seq<u8>>,
    i: nat,
)
    ensures
        run_values(f, insts.push(x), bufs, i) == run_values(f, insts, bufs, i).push(
            inst_value(f, x, run_values(f, insts, bufs, i), bufs, i),
        ),
        run_values(f, insts, bufs, i).len() == insts.len(),
{
    assert(insts.push(x).drop_last() =~= insts);
    lemma_run_len(f, insts, bufs, i);
}

/// More instructions do not change the words before them.
pub proof fn lemma_run_prefix<F: Fn(FloatOp, u64, u64) -> u64>(
    f: F,
    few: Seq<PlanInst>,
    many: Seq<PlanInst>,
    bufs: Seq<Seq<u8>>,
    i: nat,
)
    requires
        few.len() <= many.len(),
        many.take(few.len() as int) == few,
    ensures
        run_values(f, many, bufs, i).len() == many.len(),
        run_values(f, few, bufs, i).len() == few.len(),
        forall|k: int|
            0 <= k < few.len() ==> #[trigger] run_values(f, many, bufs, i)[k] == run_values(
                f,
                few,
                bufs,
                i,
            )[k],
    decreases many.len(),
{
    lemma_run_len(f, few, bufs, i);
    lemma_run_len(f, many, bufs, i);
    if many.len() > few.len() {
        assert(many.drop_last().take(few.len() as int) =~= few) by {
            assert forall|k: int| 0 <= k < few.len() implies many.drop_last()[k] == few[k] by {
                assert(many.take(few.len() as int)[k] == many[k]);
            }
        }
        lemma_run_prefix(f, few, many.drop_last(), bufs, i);
        lemma_run_len(f, many.drop_last(), bufs, i);
    } else {
        assert(many =~= few) by {
            assert(many.take(few.len() as int) =~= many);
        }
    }
}

/// A prefix of a prefix is a prefix.
proof fn lemma_prefix_chain(a: Seq<PlanInst>, b: Seq<PlanInst>, c: Seq<PlanInst>)
    requires
        a.len() <= b.len() <= c.len(),
        b.take(a.len() as int) == a,
        c.take(b.len() as int) == b,
    ensures
        c.take(a.len() as int) == a,
{
    assert forall|k: int| 0 <= k < a.len() implies c[k] == a[k] by {
        assert(b.take(a.len() as int)[k] == b[k]);
        assert(c.take(b.len() as int)[k] == c[k]);
    }
    assert(c.take(a.len() as int) =~= a);
}

/// Adds an instruction and gives the place of its value.
fn emit(insts: &mut Vec<PlanInst>, x: PlanInst, Ghost(inputs): Ghost<nat>) -> (id: ValueId)
    requires
        insts_wf(old(insts)@, inputs),
        reads_before(x, old(insts)@.len(), inputs),
    ensures
        id == old(insts)@.len(),
        final(insts)@ == old(insts)@.push(x),
        insts_wf(final(insts)@, inputs),
        final(insts)@.take(old(insts)@.len() as int) == old(insts)@,
{
    let id: usize = insts.len();
    insts.push(x);
    assert(insts@.take(old(insts)@.len() as int) =~= old(insts)@);
    id
}

// ─── What a packed kernel computes ───────────────────────────────────────────

/// The value of an operation in one of the three modes.
pub enum OpVal {
    Float(u64),
    Int64(u64),
    Int128(nat),
}

/// The value of an operation, by the places of its words.
#[derive(Debug, Clone, Copy, PartialEq, Eq, Structural)]
pub enum OpResult {
    Float(ValueId),
    Int64(ValueId),
    Int128(ValueId, ValueId),
}

/// That a result lies among the first `n` values and has the variant of its
/// mode.
pub open spec fn result_in(r: OpResult, n: nat, float_mode: bool, max_bits: u32) -> bool {
    match r {
        OpResult::Float(v) => float_mode && v < n,
        OpResult::Int64(v) => !float_mode && max_bits <= 64 && v < n,
        OpResult::Int128(l, h) => !float_mode && max_bits > 64 && l < n && h < n,
    }
}

/// The value at the places of a result.
pub open spec fn result_val(r: OpResult, vals: Seq<u64>) -> OpVal {
    match r {
        OpResult::Float(v) => OpVal::Float(vals[v as int]),
        OpResult::Int64(v) => OpVal::Int64(vals[v as int]),
        OpResult::Int128(l, h) => OpVal::Int128(wide_word(vals[l as int], vals[h as int])),
    }
}

/// The width under which an input was packed.
pub open spec fn original_width(widths: Map<usize, u32>, id: usize, current: u32) -> u32 {
    if widths.contains_key(id) {
        widths[id]
    } else {
        current
    }
}

/// The exponent width that goes with a type.
pub open spec fn plan_exponent(d: DataType) -> u32 {
    match d {
        DataType::ScalableFloat(_, e) => e,
        DataType::Float(b) => if b <= 16 {
            5
        } else if b <= 32 {
            8
        } else {
            11
        },
        _ => 0,
    }
}

/// That an input can be read in a mode.
pub open spec fn input_ready(
    var: ExprView,
    widths: Map<usize, u32>,
    float_mode: bool,
) -> bool {
    match var {
        ExprView::Variable { id, dtype, steal_sign, .. } => {
            let w = original_width(widths, id, dtype_width(dtype));
            &&& w <= u32::MAX - 63
            &&& dtype_width(dtype) >= 1
            &&& float_mode ==> codable(
                coded_type(type_code(dtype), w, plan_exponent(dtype)),
                steal_sign,
            )
        },
        _ => false,
    }
}

/// The value of element `i` of an input.
pub open spec fn packed_input<F: Fn(FloatOp, u64, u64) -> u64>(
    f: F,
    var: ExprView,
    widths: Map<usize, u32>,
    float_mode: bool,
    max_bits: u32,
    buf: Seq<u8>,
    i: nat,
) -> OpVal {
    match var {
        ExprView::Variable { id, dtype, scale, steal_sign, .. } => {
            let current = dtype_width(dtype);
            let w = original_width(widths, id, current);
            let low = loaded(buf, i, w, 0);
            let high = loaded(buf, i, w, 1);
            if float_mode {
                let second = if limb_count(w as nat) > 1 {
                    high
                } else {
                    0
                };
                let s = plan_scale(scale);
                OpVal::Float(
                    scalar_double(
                        f,
                        limbs_scalar(
                            seq![low, second],
                            coded_type(type_code(dtype), w, plan_exponent(dtype)),
                            Some(s),
                            steal_sign,
                        ),
                    ),
                )
            } else if max_bits <= 64 {
                OpVal::Int64(
                    if current < 64 {
                        word_of(signed_value(low as nat, current as nat))
                    } else {
                        low
                    },
                )
            } else {
                OpVal::Int128(extended_wide(wide_word(low, high), current as nat))
            }
        },
        _ => OpVal::Float(0),
    }
}

/// A constant in a mode.
pub open spec fn packed_const(v: u64, float_mode: bool, max_bits: u32) -> OpVal {
    if float_mode {
        OpVal::Float(v)
    } else if max_bits <= 64 {
        OpVal::Int64(word_of(f64_saturated(v, 0x8000_0000_0000_0000)))
    } else {
        OpVal::Int128(
            (f64_saturated(v, half_128())
                % 0x1_0000_0000_0000_0000_0000_0000_0000_0000int) as nat,
        )
    }
}

/// An operation on two values of one mode.
pub open spec fn arith_val<F: Fn(FloatOp, u64, u64) -> u64>(
    f: F,
    op: ArithOp,
    l: OpVal,
    r: OpVal,
) -> OpVal {
    match (l, r) {
        (OpVal::Float(a), OpVal::Float(b)) => OpVal::Float(float_answer(f, float_op(op), a, b)),
        (OpVal::Int64(a), OpVal::Int64(b)) => OpVal::Int64(word_result(op, a, b)),
        (OpVal::Int128(a), OpVal::Int128(b)) => OpVal::Int128(wide_result(op, a, b) as nat),
        _ => arbitrary(),
    }
}

/// The value of a fused operation for element `i` of packed inputs.
pub open spec fn packed_value<F: Fn(FloatOp, u64, u64) -> u64>(
    f: F,
    op: FusedOp,
    inputs: Seq<ExprView>,
    widths: Map<usize, u32>,
    float_mode: bool,
    max_bits: u32,
    bufs: Seq<Seq<u8>>,
    i: nat,
) -> OpVal
    decreases op,
{
    match op {
        FusedOp::Input(k) => packed_input(
            f,
            inputs[k as int],
            widths,
            float_mode,
            max_bits,
            bufs[k as int],
            i,
        ),
        FusedOp::ConstVal(v) => packed_const(v, float_mode, max_bits),
        FusedOp::Add(l, r) => arith_val(
            f,
            ArithOp::Add,
            packed_value(f, *l, inputs, widths, float_mode, max_bits, bufs, i),
            packed_value(f, *r, inputs, widths, float_mode, max_bits, bufs, i),
        ),
        FusedOp::Sub(l, r) => arith_val(
            f,
            ArithOp::Sub,
            packed_value(f, *l, inputs, widths, float_mode, max_bits, bufs, i),
            packed_value(f, *r, inputs, widths, float_mode, max_bits, bufs, i),
        ),
        FusedOp::Mul(l, r) => arith_val(
            f,
            ArithOp::Mul,
            packed_value(f, *l, inputs, widths, float_mode, max_bits, bufs, i),
            packed_value(f, *r, inputs, widths, float_mode, max_bits, bufs, i),
        ),
        FusedOp::Div(l, r) => arith_val(
            f,
            ArithOp::Div,
            packed_value(f, *l, inputs, widths, float_mode, max_bits, bufs, i),
            packed_value(f, *r, inputs, widths, float_mode, max_bits, bufs, i),
        ),
    }
}

// ─── Compilation ─────────────────────────────────────────────────────────────

/// Repeats the sign of a number of two words whose width is given.
fn sign_extend_128<F: Fn(FloatOp, u64, u64) -> u64>(
    insts: &mut Vec<PlanInst>,
    low: ValueId,
    high: ValueId,
    current_bit_width: u32,
    f: &F,
    Ghost(inputs): Ghost<nat>,
) -> (r: (ValueId, ValueId))
    requires
        insts_wf(old(insts)@, inputs),
        low < old(insts)@.len(),
        high < old(insts)@.len(),
        current_bit_width >= 1,
    ensures
        insts_wf(final(insts)@, inputs),
        final(insts)@.len() >= old(insts)@.len(),
        final(insts)@.take(old(insts)@.len() as int) == old(insts)@,
        r.0 < final(insts)@.len(),
        r.1 < final(insts)@.len(),
        forall|bufs: Seq<Seq<u8>>, i: nat|
            ({
                let before = run_values(*f, old(insts)@, bufs, i);
                let after = #[trigger] run_values(*f, final(insts)@, bufs, i);
                wide_word(after[r.0 as int], after[r.1 as int]) == extended_wide(
                    wide_word(before[low as int], before[high as int]),
                    current_bit_width as nat,
                )
            }),
{
    let ghost s0 = insts@;
    if current_bit_width <= 64 {
        let amount: u32 = 64 - current_bit_width;
        let x0: PlanInst = PlanInst::ShiftLeft { v: low, amount };
        let temp: usize = emit(insts, x0, Ghost(inputs));
        let ghost s1 = insts@;
        let x1: PlanInst = PlanInst::ShiftRight { v: temp, amount };
        let low_extended: usize = emit(insts, x1, Ghost(inputs));
        let ghost s2 = insts@;
        let x2: PlanInst = PlanInst::ShiftRight { v: low_extended, amount: 63 };
        let high_extended: usize = emit(insts, x2, Ghost(inputs));
        proof {
            lemma_prefix_chain(s0, s1, s2);
            lemma_prefix_chain(s0, s2, insts@);
            assert forall|bufs: Seq<Seq<u8>>, i: nat|
                ({
                    let before = run_values(*f, s0, bufs, i);
                    let after = #[trigger] run_values(*f, insts@, bufs, i);
                    wide_word(after[low_extended as int], after[high_extended as int])
                        == extended_wide(
                        wide_word(before[low as int], before[high as int]),
                        current_bit_width as nat,
                    )
                }) by {
                lemma_run_push(*f, s0, x0, bufs, i);
                lemma_run_push(*f, s1, x1, bufs, i);
                lemma_run_push(*f, s2, x2, bufs, i);
                let before = run_values(*f, s0, bufs, i);
                let lo = before[low as int];
                let hi = before[high as int];
                let c = current_bit_width as nat;
                words::lemma_shift_pair(lo, c);
                words::lemma_signed_low_word(lo, hi, c);
                words::lemma_wide_of_word(shifted_right(shifted_left(lo, amount), amount));
            }
        }
        (low_extended, high_extended)
    } else if current_bit_width < 128 {
        let amount: u32 = 128 - current_bit_width;
        let x0: PlanInst = PlanInst::ShiftLeft { v: high, amount };
        let temp: usize = emit(insts, x0, Ghost(inputs));
        let ghost s1 = insts@;
        let x1: PlanInst = PlanInst::ShiftRight { v: temp, amount };
        let high_extended: usize = emit(insts, x1, Ghost(inputs));
        proof {
            lemma_prefix_chain(s0, s1, insts@);
            assert forall|bufs: Seq<Seq<u8>>, i: nat|
                ({
                    let before = run_values(*f, s0, bufs, i);
                    let after = #[trigger] run_values(*f, insts@, bufs, i);
                    wide_word(after[low as int], after[high_extended as int]) == extended_wide(
                        wide_word(before[low as int], before[high as int]),
                        current_bit_width as nat,
                    )
                }) by {
                lemma_run_push(*f, s0, x0, bufs, i);
                lemma_run_push(*f, s1, x1, bufs, i);
                let before = run_values(*f, s0, bufs, i);
                let lo = before[low as int];
                let hi = before[high as int];
                let c = current_bit_width as nat;
                let d = (c - 64) as nat;
                words::lemma_shift_pair(hi, d);
                words::lemma_signed_high_word(lo, hi, c);
                words::lemma_signed_fits(hi as nat, d);
                words::lemma_wide_of_high(lo, signed_value(hi as nat, d));
            }
        }
        (low, high_extended)
    } else {
        assert(insts@.take(s0.len() as int) =~= s0);
        (low, high)
    }
}

/// The instructions that load one element of an input.
fn compile_input<F: Fn(FloatOp, u64, u64) -> u64>(
    insts: &mut Vec<PlanInst>,
    idx: usize,
    inputs: &Vec<Expr>,
    is_float_mode: bool,
    max_bits: u32,
    widths: &HashMap<usize, u32>,
    f: &F,
) -> (r: OpResult)
    requires
        idx < inputs@.len(),
        insts_wf(old(insts)@, inputs@.len()),
        input_ready(inputs@[idx as int]@, widths@, is_float_mode),
    ensures
        insts_wf(final(insts)@, inputs@.len()),
        final(insts)@.len() >= old(insts)@.len(),
        final(insts)@.take(old(insts)@.len() as int) == old(insts)@,
        result_in(r, final(insts)@.len(), is_float_mode, max_bits),
        forall|bufs: Seq<Seq<u8>>, i: nat|
            result_val(r, #[trigger] run_values(*f, final(insts)@, bufs, i)) == packed_input(
                *f,
                inputs@[idx as int]@,
                widths@,
                is_float_mode,
                max_bits,
                bufs[idx as int],
                i,
            ),
{
    broadcast use vstd::std_specs::hash::group_hash_axioms;

    let ghost n = inputs@.len();
    let ghost s0 = insts@;
    let (id, dtype, scale, steal_sign) = match &inputs[idx] {
        Expr::Variable { id, dtype, scale, steal_sign, .. } => (
            *id,
            *dtype,
            match *scale {
                Some(s) => s,
                None => 1u32,
            },
            *steal_sign,
        ),
        _ => (0, DataType::DynamicFloat, 0u32, false),
    };
    let current: u32 = dtype.bit_width();
    let width: u32 = match widths.get(&id) {
        Some(w) => *w,
        None => current,
    };
    let ghost var = inputs@[idx as int]@;
    assert(width == original_width(widths@, id, current));
    let x0: PlanInst = PlanInst::LoadLimb { input: idx, width, limb: 0 };
    let low: usize = emit(insts, x0, Ghost(n));
    let ghost s1 = insts@;
    if is_float_mode {
        let e: u32 = match dtype {
            DataType::ScalableFloat(_, e) => e,
            DataType::Float(b) => {
                if b <= 16 {
                    5
                } else if b <= 32 {
                    8
                } else {
                    11
                }
            },
            _ => 0,
        };
        let k: usize = count_limbs(width);
        let x1: PlanInst = if k > 1 {
            PlanInst::LoadLimb { input: idx, width, limb: 1 }
        } else {
            PlanInst::IntConst(0)
        };
        let second: usize = emit(insts, x1, Ghost(n));
        let ghost s2 = insts@;
        let steal: u8 = if steal_sign {
            1
        } else {
            0
        };
        let x2: PlanInst = PlanInst::Decode {
            limb0: low,
            limb1: second,
            code: dtype_code(dtype),
            bits: width,
            e,
            scale,
            steal,
        };
        let v: usize = emit(insts, x2, Ghost(n));
        proof {
            lemma_prefix_chain(s0, s1, s2);
            lemma_prefix_chain(s0, s2, insts@);
            assert forall|bufs: Seq<Seq<u8>>, i: nat|
                result_val(
                    OpResult::Float(v),
                    #[trigger] run_values(*f, insts@, bufs, i),
                ) == packed_input(
                    *f,
                    var,
                    widths@,
                    is_float_mode,
                    max_bits,
                    bufs[idx as int],
                    i,
                ) by {
                lemma_run_push(*f, s0, x0, bufs, i);
                lemma_run_push(*f, s1, x1, bufs, i);
                lemma_run_push(*f, s2, x2, bufs, i);
            }
        }
        OpResult::Float(v)
    } else if max_bits <= 64 {
        if current < 64 {
            let amount: u32 = 64 - current;
            let x1: PlanInst = PlanInst::ShiftLeft { v: low, amount };
            let temp: usize = emit(insts, x1, Ghost(n));
            let ghost s2 = insts@;
            let x2: PlanInst = PlanInst::ShiftRight { v: temp, amount };
            let v: usize = emit(insts, x2, Ghost(n));
            proof {
                lemma_prefix_chain(s0, s1, s2);
                lemma_prefix_chain(s0, s2, insts@);
                assert forall|bufs: Seq<Seq<u8>>, i: nat|
                    result_val(
                        OpResult::Int64(v),
                        #[trigger] run_values(*f, insts@, bufs, i),
                    ) == packed_input(
                        *f,
                        var,
                        widths@,
                        is_float_mode,
                        max_bits,
                        bufs[idx as int],
                        i,
                    ) by {
                    lemma_run_push(*f, s0, x0, bufs, i);
                    lemma_run_push(*f, s1, x1, bufs, i);
                    lemma_run_push(*f, s2, x2, bufs, i);
                    words::lemma_shift_pair(loaded(bufs[idx as int], i, width, 0), current as nat);
                }
            }
            OpResult::Int64(v)
        } else {
            proof {
                assert forall|bufs: Seq<Seq<u8>>, i: nat|
                    result_val(
                        OpResult::Int64(low),
                        #[trigger] run_values(*f, insts@, bufs, i),
                    ) == packed_input(
                        *f,
                        var,
                        widths@,
                        is_float_mode,
                        max_bits,
                        bufs[idx as int],
                        i,
                    ) by {
                    lemma_run_push(*f, s0, x0, bufs, i);
                }
            }
            OpResult::Int64(low)
        }
    } else {
        let x1: PlanInst = PlanInst::LoadLimb { input: idx, width, limb: 1 };
        let high: usize = emit(insts, x1, Ghost(n));
        let ghost s2 = insts@;
        let (l, h) = sign_extend_128(insts, low, high, current, f, Ghost(n));
        proof {
            lemma_prefix_chain(s0, s1, s2);
            lemma_prefix_chain(s0, s2, insts@);
            assert forall|bufs: Seq<Seq<u8>>, i: nat|
                result_val(
                    OpResult::Int128(l, h),
                    #[trigger] run_values(*f, insts@, bufs, i),
                ) == packed_input(
                    *f,
                    var,
                    widths@,
                    is_float_mode,
                    max_bits,
                    bufs[idx as int],
                    i,
                ) by {
                lemma_run_push(*f, s0, x0, bufs, i);
                lemma_run_push(*f, s1, x1, bufs, i);
            }
        }
        OpResult::Int128(l, h)
    }
}

/// The instructions of a constant.
fn compile_const<F: Fn(FloatOp, u64, u64) -> u64>(
    insts: &mut Vec<PlanInst>,
    val: F64Bits,
    is_float_mode: bool,
    max_bits: u32,
    f: &F,
    Ghost(n): Ghost<nat>,
) -> (r: OpResult)
    requires
        insts_wf(old(insts)@, n),
    ensures
        insts_wf(final(insts)@, n),
        final(insts)@.len() >= old(insts)@.len(),
        final(insts)@.take(old(insts)@.len() as int) == old(insts)@,
        result_in(r, final(insts)@.len(), is_float_mode, max_bits),
        forall|bufs: Seq<Seq<u8>>, i: nat|
            result_val(r, #[trigger] run_values(*f, final(insts)@, bufs, i)) == packed_const(
                val,
                is_float_mode,
                max_bits,
            ),
{
    let ghost s0 = insts@;
    if is_float_mode || max_bits <= 64 {
        let x0: PlanInst = if is_float_mode {
            PlanInst::FloatConst(val)
        } else {
            let c: i64 = saturate_i64(val);
            proof {
                crate::types::int_codec::lemma_i64_as_u64(c);
            }
            PlanInst::IntConst(c as u64)
        };
        let v: usize = emit(insts, x0, Ghost(n));
        let r: OpResult = if is_float_mode {
            OpResult::Float(v)
        } else {
            OpResult::Int64(v)
        };
        proof {
            assert forall|bufs: Seq<Seq<u8>>, i: nat|
                result_val(r, #[trigger] run_values(*f, insts@, bufs, i)) == packed_const(
                    val,
                    is_float_mode,
                    max_bits,
                ) by {
                lemma_run_push(*f, s0, x0, bufs, i);
            }
        }
        r
    } else {
        let (lo, hi) = saturate_words(val);
        let x0: PlanInst = PlanInst::IntConst(lo);
        let l: usize = emit(insts, x0, Ghost(n));
        let ghost s1 = insts@;
        let x1: PlanInst = PlanInst::IntConst(hi);
        let h: usize = emit(insts, x1, Ghost(n));
        proof {
            lemma_prefix_chain(s0, s1, insts@);
            assert forall|bufs: Seq<Seq<u8>>, i: nat|
                result_val(
                    OpResult::Int128(l, h),
                    #[trigger] run_values(*f, insts@, bufs, i),
                ) == packed_const(val, is_float_mode, max_bits) by {
                lemma_run_push(*f, s0, x0, bufs, i);
                lemma_run_push(*f, s1, x1, bufs, i);
            }
        }
        OpResult::Int128(l, h)
    }
}

/// The two words of a number below `2^128`.
proof fn lemma_halves(n: int)
    requires
        0 <= n < 0x1_0000_0000_0000_0000_0000_0000_0000_0000int,
    ensures
        wide_word(half_word(n, 0), half_word(n, 1)) == n,
{
    let q = n / 0x1_0000_0000_0000_0000;
    assert(0 <= q < 0x1_0000_0000_0000_0000);
    lemma_small_mod(q as nat, 0x1_0000_0000_0000_0000);
    lemma_fundamental_div_mod(n, 0x1_0000_0000_0000_0000);
}

/// Results on 128 bits take no more than 128 bits.
proof fn lemma_wide_range(op: ArithOp, l: nat, r: nat)
    requires
        l < 0x1_0000_0000_0000_0000_0000_0000_0000_0000int,
    ensures
        0 <= wide_result(op, l, r) < 0x1_0000_0000_0000_0000_0000_0000_0000_0000int,
{
    let m = 0x1_0000_0000_0000_0000_0000_0000_0000_0000int;
    lemma_mod_bound((l + r) as int, m);
    lemma_mod_bound(l - r, m);
    lemma_mod_bound((l * r) as int, m);
    if r > 0 {
        lemma_div_nonincreasing(l as int, r as int);
        lemma_div_pos_is_pos(l as int, r as int);
    }
}

/// The instructions of an operation on two results of one mode.
fn compile_arith<F: Fn(FloatOp, u64, u64) -> u64>(
    insts: &mut Vec<PlanInst>,
    op: ArithOp,
    l: OpResult,
    r: OpResult,
    is_float_mode: bool,
    max_bits: u32,
    f: &F,
    Ghost(n): Ghost<nat>,
) -> (res: OpResult)
    requires
        insts_wf(old(insts)@, n),
        result_in(l, old(insts)@.len(), is_float_mode, max_bits),
        result_in(r, old(insts)@.len(), is_float_mode, max_bits),
    ensures
        insts_wf(final(insts)@, n),
        final(insts)@.len() >= old(insts)@.len(),
        final(insts)@.take(old(insts)@.len() as int) == old(insts)@,
        result_in(res, final(insts)@.len(), is_float_mode, max_bits),
        forall|bufs: Seq<Seq<u8>>, i: nat|
            result_val(res, #[trigger] run_values(*f, final(insts)@, bufs, i)) == arith_val(
                *f,
                op,
                result_val(l, run_values(*f, old(insts)@, bufs, i)),
                result_val(r, run_values(*f, old(insts)@, bufs, i)),
            ),
{
    let ghost s0 = insts@;
    match (l, r) {
        (OpResult::Int128(ll, lh), OpResult::Int128(rl, rh)) => {
            let x0: PlanInst = PlanInst::WideArith {
                op,
                l0: ll,
                l1: lh,
                r0: rl,
                r1: rh,
                limb: 0,
            };
            let low: usize = emit(insts, x0, Ghost(n));
            let ghost s1 = insts@;
            let x1: PlanInst = PlanInst::WideArith {
                op,
                l0: ll,
                l1: lh,
                r0: rl,
                r1: rh,
                limb: 1,
            };
            let high: usize = emit(insts, x1, Ghost(n));
            proof {
                lemma_prefix_chain(s0, s1, insts@);
                assert forall|bufs: Seq<Seq<u8>>, i: nat|
                    result_val(
                        OpResult::Int128(low, high),
                        #[trigger] run_values(*f, insts@, bufs, i),
                    ) == arith_val(
                        *f,
                        op,
                        result_val(l, run_values(*f, s0, bufs, i)),
                        result_val(r, run_values(*f, s0, bufs, i)),
                    ) by {
                    lemma_run_push(*f, s0, x0, bufs, i);
                    lemma_run_push(*f, s1, x1, bufs, i);
                    let before = run_values(*f, s0, bufs, i);
                    let a = wide_word(before[ll as int], before[lh as int]);
                    let b = wide_word(before[rl as int], before[rh as int]);
                    lemma_wide_range(op, a, b);
                    lemma_halves(wide_result(op, a, b));
                }
            }
            OpResult::Int128(low, high)
        },
        (OpResult::Float(a), OpResult::Float(b)) => {
            let x0: PlanInst = PlanInst::FloatArith { op, l: a, r: b };
            let v: usize = emit(insts, x0, Ghost(n));
            proof {
                assert forall|bufs: Seq<Seq<u8>>, i: nat|
                    result_val(
                        OpResult::Float(v),
                        #[trigger] run_values(*f, insts@, bufs, i),
                    ) == arith_val(
                        *f,
                        op,
                        result_val(l, run_values(*f, s0, bufs, i)),
                        result_val(r, run_values(*f, s0, bufs, i)),
                    ) by {
                    lemma_run_push(*f, s0, x0, bufs, i);
                }
            }
            OpResult::Float(v)
        },
        (OpResult::Int64(a), OpResult::Int64(b)) => {
            let x0: PlanInst = PlanInst::IntArith { op, l: a, r: b };
            let v: usize = emit(insts, x0, Ghost(n));
            proof {
                assert forall|bufs: Seq<Seq<u8>>, i: nat|
                    result_val(
                        OpResult::Int64(v),
                        #[trigger] run_values(*f, insts@, bufs, i),
                    ) == arith_val(
                        *f,
                        op,
                        result_val(l, run_values(*f, s0, bufs, i)),
                        result_val(r, run_values(*f, s0, bufs, i)),
                    ) by {
                    lemma_run_push(*f, s0, x0, bufs, i);
                }
            }
            OpResult::Int64(v)
        },
        _ => l,
    }
}

/// The instructions of a fused operation over packed inputs.
pub fn compile_packed_op<F: Fn(FloatOp, u64, u64) -> u64>(
    insts: &mut Vec<PlanInst>,
    op: &FusedOp,
    inputs: &Vec<Expr>,
    is_float_mode: bool,
    max_bits: u32,
    original_bit_widths: &HashMap<usize, u32>,
    f: &F,
) -> (r: OpResult)
    requires
        insts_wf(old(insts)@, inputs@.len()),
        op_reads_below(*op, inputs@.len()),
        forall|k: int|
            0 <= k < inputs@.len() ==> input_ready(
                (#[trigger] inputs@[k])@,
                original_bit_widths@,
                is_float_mode,
            ),
    ensures
        insts_wf(final(insts)@, inputs@.len()),
        final(insts)@.len() >= old(insts)@.len(),
        final(insts)@.take(old(insts)@.len() as int) == old(insts)@,
        result_in(r, final(insts)@.len(), is_float_mode, max_bits),
        forall|bufs: Seq<Seq<u8>>, i: nat|
            result_val(r, #[trigger] run_values(*f, final(insts)@, bufs, i)) == packed_value(
                *f,
                *op,
                expr_views(inputs@),
                original_bit_widths@,
                is_float_mode,
                max_bits,
                bufs,
                i,
            ),
    decreases *op,
{
    match op {
        FusedOp::Input(idx) => compile_input(
            insts,
            *idx,
            inputs,
            is_float_mode,
            max_bits,
            original_bit_widths,
            f,
        ),
        FusedOp::ConstVal(val) => compile_const(
            insts,
            *val,
            is_float_mode,
            max_bits,
            f,
            Ghost(inputs@.len()),
        ),
        FusedOp::Add(left, right) => {
            let ghost s0 = insts@;
            let l: OpResult = compile_packed_op(
                insts,
                left,
                inputs,
                is_float_mode,
                max_bits,
                original_bit_widths,
                f,
            );
            let ghost s1 = insts@;
            let r: OpResult = compile_packed_op(
                insts,
                right,
                inputs,
                is_float_mode,
                max_bits,
                original_bit_widths,
                f,
            );
            let ghost s2 = insts@;
            let res: OpResult = compile_arith(
                insts,
                ArithOp::Add,
                l,
                r,
                is_float_mode,
                max_bits,
                f,
                Ghost(inputs@.len()),
            );
            proof {
                lemma_prefix_chain(s0, s1, s2);
                lemma_prefix_chain(s0, s2, insts@);
                lemma_left_kept(*f, l, s1, s2, is_float_mode, max_bits);
            }
            res
        },
        FusedOp::Sub(left, right) => {
            let ghost s0 = insts@;
            let l: OpResult = compile_packed_op(
                insts,
                left,
                inputs,
                is_float_mode,
                max_bits,
                original_bit_widths,
                f,
            );
            let ghost s1 = insts@;
            let r: OpResult = compile_packed_op(
                insts,
                right,
                inputs,
                is_float_mode,
                max_bits,
                original_bit_widths,
                f,
            );
            let ghost s2 = insts@;
            let res: OpResult = compile_arith(
                insts,
                ArithOp::Sub,
                l,
                r,
                is_float_mode,
                max_bits,
                f,
                Ghost(inputs@.len()),
            );
            proof {
                lemma_prefix_chain(s0, s1, s2);
                lemma_prefix_chain(s0, s2, insts@);
                lemma_left_kept(*f, l, s1, s2, is_float_mode, max_bits);
            }
            res
        },
        FusedOp::Mul(left, right) => {
            let ghost s0 = insts@;
            let l: OpResult = compile_packed_op(
                insts,
                left,
                inputs,
                is_float_mode,
                max_bits,
                original_bit_widths,
                f,
            );
            let ghost s1 = insts@;
            let r: OpResult = compile_packed_op(
                insts,
                right,
                inputs,
                is_float_mode,
                max_bits,
                original_bit_widths,
                f,
            );
            let ghost s2 = insts@;
            let res: OpResult = compile_arith(
                insts,
                ArithOp::Mul,
                l,
                r,
                is_float_mode,
                max_bits,
                f,
                Ghost(inputs@.len()),
            );
            proof {
                lemma_prefix_chain(s0, s1, s2);
                lemma_prefix_chain(s0, s2, insts@);
                lemma_left_kept(*f, l, s1, s2, is_float_mode, max_bits);
            }
            res
        },
        FusedOp::Div(left, right) => {
            let ghost s0 = insts@;
            let l: OpResult = compile_packed_op(
                insts,
                left,
                inputs,
                is_float_mode,
                max_bits,
                original_bit_widths,
                f,
            );
            let ghost s1 = insts@;
            let r: OpResult = compile_packed_op(
                insts,
                right,
                inputs,
                is_float_mode,
                max_bits,
                original_bit_widths,
                f,
            );
            let ghost s2 = insts@;
            let res: OpResult = compile_arith(
                insts,
                ArithOp::Div,
                l,
                r,
                is_float_mode,
                max_bits,
                f,
                Ghost(inputs@.len()),
            );
            proof {
                lemma_prefix_chain(s0, s1, s2);
                lemma_prefix_chain(s0, s2, insts@);
                lemma_left_kept(*f, l, s1, s2, is_float_mode, max_bits);
            }
            res
        },
    }
}

/// A result keeps its value when instructions are added.
proof fn lemma_left_kept<F: Fn(FloatOp, u64, u64) -> u64>(
    f: F,
    l: OpResult,
    s1: Seq<PlanInst>,
    s2: Seq<PlanInst>,
    float_mode: bool,
    max_bits: u32,
)
    requires
        s1.len() <= s2.len(),
        s2.take(s1.len() as int) == s1,
        result_in(l, s1.len(), float_mode, max_bits),
    ensures
        forall|bufs: Seq<Seq<u8>>, i: nat|
            result_val(l, #[trigger] run_values(f, s2, bufs, i)) == result_val(
                l,
                run_values(f, s1, bufs, i),
            ),
{
    assert forall|bufs: Seq<Seq<u8>>, i: nat|
        result_val(l, #[trigger] run_values(f, s2, bufs, i)) == result_val(
            l,
            run_values(f, s1, bufs, i),
        ) by {
        lemma_run_prefix(f, s1, s2, bufs, i);
    }
}

// ─── Whole kernels ───────────────────────────────────────────────────────────

/// What a store writes: a limb of the current element of the output.
pub struct StoreVal {
    pub width: u32,
    pub limb: u32,
    pub val: u64,
}

/// What the stores of a plan write for element `i`.
pub open spec fn stored_values<F: Fn(FloatOp, u64, u64) -> u64>(
    f: F,
    insts: Seq<PlanInst>,
    stores: Seq<PlanStore>,
    bufs: Seq<Seq<u8>>,
    i: nat,
) -> Seq<StoreVal> {
    Seq::new(
        stores.len(),
        |k: int|
            StoreVal {
                width: stores[k].width,
                limb: stores[k].limb,
                val: run_values(f, insts, bufs, i)[stores[k].val as int],
            },
    )
}

/// The low word of an integer value.
pub open spec fn low_word(v: OpVal) -> u64 {
    match v {
        OpVal::Float(x) => x,
        OpVal::Int64(x) => x,
        OpVal::Int128(n) => half_word(n as int, 0),
    }
}

/// The high word of an integer value, the sign of one word where there is but
/// one.
pub open spec fn high_word(v: OpVal) -> u64 {
    match v {
        OpVal::Float(x) => 0,
        OpVal::Int64(x) => shifted_right(x, 63),
        OpVal::Int128(n) => half_word(n as int, 1),
    }
}

/// What is stored for a value: in float mode the limbs of its code under the
/// type of the output, with a sign bit, else its low words, at most two.
pub open spec fn output_stores<F: Fn(FloatOp, u64, u64) -> u64>(
    f: F,
    v: OpVal,
    out: DataType,
    scale: Option<u32>,
) -> Seq<StoreVal> {
    let w = dtype_width(out);
    match v {
        OpVal::Float(x) => Seq::new(
            limb_count(w as nat),
            |l: int|
                StoreVal {
                    width: w,
                    limb: l as u32,
                    val: encoded_limb(f, x, out, Some(plan_scale(scale)), false, l as u32),
                },
        ),
        _ => if w <= 64 {
            seq![StoreVal { width: w, limb: 0, val: low_word(v) }]
        } else {
            seq![
                StoreVal { width: w, limb: 0, val: low_word(v) },
                StoreVal { width: w, limb: 1, val: high_word(v) },
            ]
        },
    }
}

/// A scale, one where none is given.
pub open spec fn plan_scale(scale: Option<u32>) -> u32 {
    match scale {
        Some(s) => s,
        None => 1,
    }
}

/// The words of a number of two words.
proof fn lemma_word_halves(lo: u64, hi: u64)
    ensures
        half_word(wide_word(lo, hi) as int, 0) == lo,
        half_word(wide_word(lo, hi) as int, 1) == hi,
{
    let n = wide_word(lo, hi) as int;
    lemma_fundamental_div_mod_converse(n, 0x1_0000_0000_0000_0000, hi as int, lo as int);
    lemma_small_mod(hi as nat, 0x1_0000_0000_0000_0000);
}

/// The exponent width that goes with the type of an output.
fn output_exponent(d: DataType) -> (e: u32)
    ensures
        d matches DataType::ScalableFloat(_, x) ==> x == e,
{
    match d {
        DataType::ScalableFloat(_, e) => e,
        DataType::Float(b) => exponent_width(b),
        _ => 11,
    }
}

/// The plan of a kernel over packed inputs, whose output is of type `out`.
/// Integers are computed in one word for up to `compute_bits` of 64, in two
/// above. On a zero divisor an integer division has no result: the machine
/// stops there.
pub fn compile_packed_kernel<F: Fn(FloatOp, u64, u64) -> u64>(
    kernel: &MicroKernel,
    is_float_mode: bool,
    compute_bits: u32,
    out: DataType,
    out_scale: Option<u32>,
    original_bit_widths: &HashMap<usize, u32>,
    f: &F,
) -> (r: KernelPlan)
    requires
        kernel.wf(),
        dtype_width(out) <= u32::MAX - 63,
        forall|k: int|
            0 <= k < kernel.inputs@.len() ==> input_ready(
                (#[trigger] kernel.inputs@[k])@,
                original_bit_widths@,
                is_float_mode,
            ),
    ensures
        r.wf(kernel.inputs@.len()),
        forall|bufs: Seq<Seq<u8>>, i: nat|
            #[trigger] stored_values(*f, r.insts@, r.stores@, bufs, i) == output_stores(
                *f,
                packed_value(
                    *f,
                    kernel.op,
                    expr_views(kernel.inputs@),
                    original_bit_widths@,
                    is_float_mode,
                    compute_bits,
                    bufs,
                    i,
                ),
                out,
                out_scale,
            ),
{
    let mut insts: Vec<PlanInst> = Vec::new();
    let mut stores: Vec<PlanStore> = Vec::new();
    let ghost n = kernel.inputs@.len();
    let res: OpResult = compile_packed_op(
        &mut insts,
        &kernel.op,
        &kernel.inputs,
        is_float_mode,
        compute_bits,
        original_bit_widths,
        f,
    );
    let w: u32 = out.bit_width();
    let ghost s0 = insts@;
    match res {
        OpResult::Float(v) => {
            let k: usize = count_limbs(w);
            let code: u32 = dtype_code(out);
            let e: u32 = output_exponent(out);
            let scale: u32 = match out_scale {
                Some(s) => s,
                None => 1,
            };
            proof {
                crate::fuser::helpers::law_type_code(out, e);
                assert(insts@.take(s0.len() as int) =~= s0);
            }
            let mut limb: u32 = 0;
            while (limb as usize) < k
                invariant
                    k as nat == limb_count(w as nat),
                    w <= u32::MAX - 63,
                    limb <= k,
                    w == dtype_width(out),
                    code == type_code(out),
                    coded_type(code, w, e) == out,
                    scale == plan_scale(out_scale),
                    v < s0.len(),
                    s0.len() <= insts@.len(),
                    insts@.take(s0.len() as int) == s0,
                    insts_wf(insts@, n),
                    stores@.len() == limb,
                    forall|j: int|
                        0 <= j < limb ==> (#[trigger] stores@[j]).val < insts@.len()
                            && stores@[j].width == w && stores@[j].limb == j,
                    forall|bufs: Seq<Seq<u8>>, i: nat, j: int|
                        0 <= j < limb ==> #[trigger] run_values(
                            *f,
                            insts@,
                            bufs,
                            i,
                        )[stores@[j].val as int] == encoded_limb(
                            *f,
                            run_values(*f, s0, bufs, i)[v as int],
                            out,
                            Some(scale),
                            false,
                            j as u32,
                        ),
                decreases k - limb,
            {
                let ghost s1 = insts@;
                let ghost t1 = stores@;
                let x: PlanInst = PlanInst::Encode { val: v, code, bits: w, e, scale, steal: 0, limb };
                let id: usize = emit(&mut insts, x, Ghost(n));
                stores.push(PlanStore { val: id, width: w, limb });
                proof {
                    lemma_prefix_chain(s0, s1, insts@);
                    assert forall|bufs: Seq<Seq<u8>>, i: nat, j: int|
                        0 <= j < limb + 1 implies #[trigger] run_values(
                        *f,
                        insts@,
                        bufs,
                        i,
                    )[stores@[j].val as int] == encoded_limb(
                        *f,
                        run_values(*f, s0, bufs, i)[v as int],
                        out,
                        Some(scale),
                        false,
                        j as u32,
                    ) by {
                        lemma_run_push(*f, s1, x, bufs, i);
                        lemma_run_prefix(*f, s0, s1, bufs, i);
                        if j < limb {
                            assert(stores@[j] == t1[j]);
                            assert(run_values(*f, s1, bufs, i)[t1[j].val as int] == encoded_limb(
                                *f,
                                run_values(*f, s0, bufs, i)[v as int],
                                out,
                                Some(scale),
                                false,
                                j as u32,
                            ));
                        }
                    }
                }
                limb = limb + 1;
            }
            proof {
                assert forall|bufs: Seq<Seq<u8>>, i: nat|
                    #[trigger] stored_values(*f, insts@, stores@, bufs, i) == output_stores(
                        *f,
                        packed_value(
                            *f,
                            kernel.op,
                            expr_views(kernel.inputs@),
                            original_bit_widths@,
                            is_float_mode,
                            compute_bits,
                            bufs,
                            i,
                        ),
                        out,
                        out_scale,
                    ) by {
                    let v0 = run_values(*f, s0, bufs, i);
                    assert(result_val(res, v0) == OpVal::Float(v0[v as int]));
                    let a = stored_values(*f, insts@, stores@, bufs, i);
                    let b = output_stores(
                        *f,
                        OpVal::Float(v0[v as int]),
                        out,
                        out_scale,
                    );
                    assert(a.len() == b.len());
                    assert forall|j: int| 0 <= j < a.len() implies a[j] == b[j] by {
                        assert(run_values(*f, insts@, bufs, i)[stores@[j].val as int]
                            == encoded_limb(
                            *f,
                            v0[v as int],
                            out,
                            Some(scale),
                            false,
                            j as u32,
                        ));
                    }
                    assert(a =~= b);
                }
            }
        },
        OpResult::Int64(v) => {
            stores.push(PlanStore { val: v, width: w, limb: 0 });
            if w > 64 {
                let x: PlanInst = PlanInst::ShiftRight { v, amount: 63 };
                let h: usize = emit(&mut insts, x, Ghost(n));
                stores.push(PlanStore { val: h, width: w, limb: 1 });
            }
            proof {
                assert forall|bufs: Seq<Seq<u8>>, i: nat|
                    #[trigger] stored_values(*f, insts@, stores@, bufs, i) == output_stores(
                        *f,
                        packed_value(
                            *f,
                            kernel.op,
                            expr_views(kernel.inputs@),
                            original_bit_widths@,
                            is_float_mode,
                            compute_bits,
                            bufs,
                            i,
                        ),
                        out,
                        out_scale,
                    ) by {
                    let v0 = run_values(*f, s0, bufs, i);
                    assert(result_val(res, v0) == OpVal::Int64(v0[v as int]));
                    lemma_run_push(*f, s0, PlanInst::ShiftRight { v, amount: 63 }, bufs, i);
                    assert(stored_values(*f, insts@, stores@, bufs, i) =~= output_stores(
                        *f,
                        OpVal::Int64(v0[v as int]),
                        out,
                        out_scale,
                    ));
                }
            }
        },
        OpResult::Int128(l, h) => {
            stores.push(PlanStore { val: l, width: w, limb: 0 });
            if w > 64 {
                stores.push(PlanStore { val: h, width: w, limb: 1 });
            }
            proof {
                assert forall|bufs: Seq<Seq<u8>>, i: nat|
                    #[trigger] stored_values(*f, insts@, stores@, bufs, i) == output_stores(
                        *f,
                        packed_value(
                            *f,
                            kernel.op,
                            expr_views(kernel.inputs@),
                            original_bit_widths@,
                            is_float_mode,
                            compute_bits,
                            bufs,
                            i,
                        ),
                        out,
                        out_scale,
                    ) by {
                    let v0 = run_values(*f, s0, bufs, i);
                    let n0 = wide_word(v0[l as int], v0[h as int]);
                    assert(result_val(res, v0) == OpVal::Int128(n0));
                    lemma_word_halves(v0[l as int], v0[h as int]);
                    assert(stored_values(*f, insts@, stores@, bufs, i) =~= output_stores(
                        *f,
                        OpVal::Int128(n0),
                        out,
                        out_scale,
                    ));
                }
            }
        },
    }
    KernelPlan { insts, stores }
}

// ─── Kernels over doubles ────────────────────────────────────────────────────

/// The doubles at element `i` of inputs that are plain arrays of doubles.
pub open spec fn double_elements(bufs: Seq<Seq<u8>>, n: nat, i: nat) -> Seq<u64> {
    Seq::new(n, |k: int| loaded(bufs[k], i, 64, 0))
}

/// The instructions of a fused operation over arrays of doubles.
fn compile_op<F: Fn(FloatOp, u64, u64) -> u64>(
    insts: &mut Vec<PlanInst>,
    op: &FusedOp,
    f: &F,
    Ghost(n): Ghost<nat>,
) -> (v: ValueId)
    requires
        insts_wf(old(insts)@, n),
        op_reads_below(*op, n),
    ensures
        insts_wf(final(insts)@, n),
        final(insts)@.len() >= old(insts)@.len(),
        final(insts)@.take(old(insts)@.len() as int) == old(insts)@,
        v < final(insts)@.len(),
        forall|bufs: Seq<Seq<u8>>, i: nat|
            #[trigger] run_values(*f, final(insts)@, bufs, i)[v as int] == op_value(
                *f,
                *op,
                double_elements(bufs, n, i),
            ),
    decreases *op,
{
    let ghost s0 = insts@;
    match op {
        FusedOp::Input(idx) => {
            let x: PlanInst = PlanInst::LoadLimb { input: *idx, width: 64, limb: 0 };
            let v: usize = emit(insts, x, Ghost(n));
            proof {
                assert forall|bufs: Seq<Seq<u8>>, i: nat|
                    #[trigger] run_values(*f, insts@, bufs, i)[v as int] == op_value(
                        *f,
                        *op,
                        double_elements(bufs, n, i),
                    ) by {
                    lemma_run_push(*f, s0, x, bufs, i);
                }
            }
            v
        },
        FusedOp::ConstVal(val) => {
            let x: PlanInst = PlanInst::FloatConst(*val);
            let v: usize = emit(insts, x, Ghost(n));
            proof {
                assert forall|bufs: Seq<Seq<u8>>, i: nat|
                    #[trigger] run_values(*f, insts@, bufs, i)[v as int] == op_value(
                        *f,
                        *op,
                        double_elements(bufs, n, i),
                    ) by {
                    lemma_run_push(*f, s0, x, bufs, i);
                }
            }
            v
        },
        FusedOp::Add(left, right) => {
            let l: usize = compile_op(insts, left, f, Ghost(n));
            let ghost s1 = insts@;
            let r: usize = compile_op(insts, right, f, Ghost(n));
            compile_float_arith(insts, ArithOp::Add, l, r, left, right, f, Ghost(n), Ghost(s0), Ghost(s1))
        },
        FusedOp::Sub(left, right) => {
            let l: usize = compile_op(insts, left, f, Ghost(n));
            let ghost s1 = insts@;
            let r: usize = compile_op(insts, right, f, Ghost(n));
            compile_float_arith(insts, ArithOp::Sub, l, r, left, right, f, Ghost(n), Ghost(s0), Ghost(s1))
        },
        FusedOp::Mul(left, right) => {
            let l: usize = compile_op(insts, left, f, Ghost(n));
            let ghost s1 = insts@;
            let r: usize = compile_op(insts, right, f, Ghost(n));
            compile_float_arith(insts, ArithOp::Mul, l, r, left, right, f, Ghost(n), Ghost(s0), Ghost(s1))
        },
        FusedOp::Div(left, right) => {
            let l: usize = compile_op(insts, left, f, Ghost(n));
            let ghost s1 = insts@;
            let r: usize = compile_op(insts, right, f, Ghost(n));
            compile_float_arith(insts, ArithOp::Div, l, r, left, right, f, Ghost(n), Ghost(s0), Ghost(s1))
        },
    }
}

/// The instruction of an operation on two doubles, after those of its operands.
fn compile_float_arith<F: Fn(FloatOp, u64, u64) -> u64>(
    insts: &mut Vec<PlanInst>,
    op: ArithOp,
    l: ValueId,
    r: ValueId,
    left: &FusedOp,
    right: &FusedOp,
    f: &F,
    Ghost(n): Ghost<nat>,
    Ghost(s0): Ghost<Seq<PlanInst>>,
    Ghost(s1): Ghost<Seq<PlanInst>>,
) -> (v: ValueId)
    requires
        insts_wf(old(insts)@, n),
        s0.len() <= s1.len() <= old(insts)@.len(),
        s1.take(s0.len() as int) == s0,
        old(insts)@.take(s1.len() as int) == s1,
        l < s1.len(),
        r < old(insts)@.len(),
        forall|bufs: Seq<Seq<u8>>, i: nat|
            #[trigger] run_values(*f, s1, bufs, i)[l as int] == op_value(
                *f,
                *left,
                double_elements(bufs, n, i),
            ),
        forall|bufs: Seq<Seq<u8>>, i: nat|
            #[trigger] run_values(*f, old(insts)@, bufs, i)[r as int] == op_value(
                *f,
                *right,
                double_elements(bufs, n, i),
            ),
    ensures
        insts_wf(final(insts)@, n),
        final(insts)@.len() >= s0.len(),
        final(insts)@.take(s0.len() as int) == s0,
        v < final(insts)@.len(),
        forall|bufs: Seq<Seq<u8>>, i: nat|
            #[trigger] run_values(*f, final(insts)@, bufs, i)[v as int] == float_answer(
                *f,
                float_op(op),
                op_value(*f, *left, double_elements(bufs, n, i)),
                op_value(*f, *right, double_elements(bufs, n, i)),
            ),
{
    let ghost s2 = insts@;
    let x: PlanInst = PlanInst::FloatArith { op, l, r };
    let v: usize = emit(insts, x, Ghost(n));
    proof {
        lemma_prefix_chain(s0, s1, s2);
        lemma_prefix_chain(s0, s2, insts@);
        assert forall|bufs: Seq<Seq<u8>>, i: nat|
            #[trigger] run_values(*f, insts@, bufs, i)[v as int] == float_answer(
                *f,
                float_op(op),
                op_value(*f, *left, double_elements(bufs, n, i)),
                op_value(*f, *right, double_elements(bufs, n, i)),
            ) by {
            lemma_run_push(*f, s2, x, bufs, i);
            lemma_run_prefix(*f, s1, s2, bufs, i);
            assert(run_values(*f, s1, bufs, i)[l as int] == op_value(
                *f,
                *left,
                double_elements(bufs, n, i),
            ));
        }
    }
    v
}

/// The plan of a kernel over arrays of doubles.
pub fn compile_kernel<F: Fn(FloatOp, u64, u64) -> u64>(kernel: &MicroKernel, f: &F) -> (r:
    KernelPlan)
    requires
        kernel.wf(),
    ensures
        r.wf(kernel.inputs@.len()),
        forall|bufs: Seq<Seq<u8>>, i: nat|
            #[trigger] stored_values(*f, r.insts@, r.stores@, bufs, i) == seq![
                StoreVal {
                    width: 64,
                    limb: 0,
                    val: op_value(
                        *f,
                        kernel.op,
                        double_elements(bufs, kernel.inputs@.len(), i),
                    ),
                },
            ],
{
    let mut insts: Vec<PlanInst> = Vec::new();
    let v: usize = compile_op(&mut insts, &kernel.op, f, Ghost(kernel.inputs@.len()));
    let mut stores: Vec<PlanStore> = Vec::new();
    stores.push(PlanStore { val: v, width: 64, limb: 0 });
    proof {
        let n = kernel.inputs@.len();
        assert forall|bufs: Seq<Seq<u8>>, i: nat|
            #[trigger] stored_values(*f, insts@, stores@, bufs, i) == seq![
                StoreVal {
                    width: 64,
                    limb: 0,
                    val: op_value(*f, kernel.op, double_elements(bufs, n, i)),
                },
            ] by {
            assert(run_values(*f, insts@, bufs, i)[v as int] == op_value(
                *f,
                kernel.op,
                double_elements(bufs, n, i),
            ));
            assert(stored_values(*f, insts@, stores@, bufs, i) =~= seq![
                StoreVal {
                    width: 64,
                    limb: 0,
                    val: op_value(*f, kernel.op, double_elements(bufs, n, i)),
                },
            ]);
        }
    }
    KernelPlan { insts, stores }
}

} // verus!
