//! A machine with registers for integers and for doubles and with bytes as memory,
//! and what instructions do on it. Machine code is read as such instructions, and
//! what kernels leave in memory is found by running them.

use crate::bytes::{law_le_round_trip, le_bytes, le_value};
use crate::jit::ir::BinOp;
use crate::jit::laws::combine;
use crate::soft_float::{f32_of_f64, f64_of_f32, FloatOp};
use vstd::arithmetic::power2::*;
use vstd::prelude::*;

verus! {

// ─── The machine ─────────────────────────────────────────────────────────────

/// Registers by number, memory by address, and the numbers that were compared last.
pub struct Machine {
    pub ints: Seq<u64>,
    pub vals: Seq<u64>,
    pub mem: spec_fn(int) -> u8,
    pub compared: (u64, u64),
}

/// An address: a register, another one times the bytes of an element, and a distance.
pub struct Place {
    pub base: int,
    pub index: Option<int>,
    pub scale: nat,
    pub distance: int,
}

/// An instruction of the machine. Numbers of four bytes are written to registers with
/// zeros above them.
pub enum Op {
    /// Copies an integer.
    Move { d: int, s: int },
    /// Sets an integer.
    SetInt { d: int, v: u64 },
    /// Sets sixteen bits of an integer of `size` bytes, from bit `at` on.
    Insert { d: int, at: nat, v: u64, size: nat },
    /// Adds a distance to an integer.
    Offset { d: int, s: int, by: int },
    /// Compares two integers.
    Compare { a: int, b: int },
    /// Goes on at a distance where the first number compared is no less than the
    /// second one, as signed numbers.
    JumpGe { by: int },
    /// Goes on at a distance.
    Jump { by: int },
    /// Leaves the code.
    Return,
    /// Pushes an integer on the stack that `sp` points to.
    Push { s: int, sp: int },
    /// Pops an integer.
    Pop { d: int, sp: int },
    /// Stores two integers or doubles, and adds a distance to the base.
    StorePair { doubles: bool, a: int, b: int, base: int, distance: int, then: int },
    /// Loads two integers or doubles, and adds a distance to the base.
    LoadPair { doubles: bool, a: int, b: int, base: int, distance: int, then: int },
    /// Loads an integer of `size` bytes.
    LoadInt { d: int, size: nat, from: Place },
    /// Stores an integer of `size` bytes.
    StoreInt { s: int, size: nat, to: Place },
    /// Loads `size` bytes into a register for doubles.
    LoadVal { d: int, size: nat, from: Place },
    /// Stores `size` bytes of a register for doubles.
    StoreVal { s: int, size: nat, to: Place },
    /// Copies a double.
    MoveVal { d: int, s: int },
    /// Combines two doubles.
    Arith { op: BinOp, d: int, l: int, r: int },
    /// Widens a single to a double.
    Widen { d: int, s: int },
    /// Narrows a double to a single, with what was above it or with zeros.
    Narrow { d: int, s: int, keep: bool },
    /// Copies `size` bytes of an integer to a register for doubles.
    ToVal { d: int, s: int, size: nat },
    /// Copies `size` bytes of a register for doubles to an integer.
    FromVal { d: int, s: int, size: nat },
}

/// `size` bytes of memory as a number.
pub open spec fn read(mem: spec_fn(int) -> u8, at: int, size: nat) -> nat {
    le_value(Seq::new(size, |i: int| mem(at + i)))
}

/// Memory with `size` bytes of a number written to an address.
pub open spec fn written(
    mem: spec_fn(int) -> u8,
    at: int,
    size: nat,
    v: nat,
) -> spec_fn(int) -> u8 {
    |a: int|
        if at <= a < at + size {
            le_bytes(v, size)[a - at]
        } else {
            mem(a)
        }
}

/// A number of elements of `scale` bytes in bytes.
pub open spec fn scaled(n: int, scale: nat) -> int {
    if scale == 8 {
        8 * n
    } else if scale == 4 {
        4 * n
    } else {
        n
    }
}

/// The address of a place.
pub open spec fn address(m: Machine, p: Place) -> int {
    (m.ints[p.base] + (match p.index {
        Some(i) => scaled(m.ints[i] as int, p.scale),
        None => 0,
    }) + p.distance) % 0x1_0000_0000_0000_0000
}

/// A sum as an integer of a register.
pub open spec fn wrapped(n: int) -> u64 {
    (n % 0x1_0000_0000_0000_0000) as u64
}

/// The low `size` bytes of a number, eight or four.
pub open spec fn low(v: u64, size: nat) -> u64 {
    if size == 8 {
        v
    } else {
        (v % 0x1_0000_0000) as u64
    }
}

/// A number as a signed one.
pub open spec fn signed(v: u64) -> int {
    if v < 0x8000_0000_0000_0000 {
        v as int
    } else {
        v - 0x1_0000_0000_0000_0000
    }
}

pub open spec fn with_int(m: Machine, d: int, v: u64) -> Machine {
    Machine { ints: m.ints.update(d, v), ..m }
}

pub open spec fn with_val(m: Machine, d: int, v: u64) -> Machine {
    Machine { vals: m.vals.update(d, v), ..m }
}

pub open spec fn with_bytes(m: Machine, at: int, size: nat, v: u64) -> Machine {
    Machine { mem: written(m.mem, at, size, v as nat), ..m }
}

/// A register of the one kind or the other.
pub open spec fn register(m: Machine, doubles: bool, r: int) -> u64 {
    if doubles {
        m.vals[r]
    } else {
        m.ints[r]
    }
}

pub open spec fn with_register(m: Machine, doubles: bool, r: int, v: u64) -> Machine {
    if doubles {
        with_val(m, r, v)
    } else {
        with_int(m, r, v)
    }
}

/// What an instruction does to the machine.
pub open spec fn effect<F: Fn(FloatOp, u64, u64) -> u64>(f: F, op: Op, m: Machine) -> Machine {
    match op {
        Op::Move { d, s } => with_int(m, d, m.ints[s]),
        Op::SetInt { d, v } => with_int(m, d, v),
        Op::Insert { d, at, v, size } => with_int(m, d, low(inserted(m.ints[d], at, v), size)),
        Op::Offset { d, s, by } => with_int(m, d, wrapped(m.ints[s] + by)),
        Op::Compare { a, b } => Machine { compared: (m.ints[a], m.ints[b]), ..m },
        Op::JumpGe { .. } => m,
        Op::Jump { .. } => m,
        Op::Return => m,
        Op::Push { s, sp } => {
            let at = wrapped(m.ints[sp] - 8);
            with_int(with_bytes(m, at as int, 8, m.ints[s]), sp, at)
        },
        Op::Pop { d, sp } => {
            let v = read(m.mem, m.ints[sp] as int, 8) as u64;
            with_int(with_int(m, sp, wrapped(m.ints[sp] + 8)), d, v)
        },
        Op::StorePair { doubles, a, b, base, distance, then } => {
            let at = wrapped(m.ints[base] + distance) as int;
            let first = with_bytes(m, at, 8, register(m, doubles, a));
            with_int(
                with_bytes(first, at + 8, 8, register(m, doubles, b)),
                base,
                wrapped(m.ints[base] + then),
            )
        },
        Op::LoadPair { doubles, a, b, base, distance, then } => {
            let at = wrapped(m.ints[base] + distance) as int;
            let moved = with_int(m, base, wrapped(m.ints[base] + then));
            with_register(
                with_register(moved, doubles, a, read(m.mem, at, 8) as u64),
                doubles,
                b,
                read(m.mem, at + 8, 8) as u64,
            )
        },
        Op::LoadInt { d, size, from } => with_int(
            m,
            d,
            read(m.mem, address(m, from), size) as u64,
        ),
        Op::StoreInt { s, size, to } => with_bytes(m, address(m, to), size, low(m.ints[s], size)),
        Op::LoadVal { d, size, from } => with_val(
            m,
            d,
            read(m.mem, address(m, from), size) as u64,
        ),
        Op::StoreVal { s, size, to } => with_bytes(m, address(m, to), size, low(m.vals[s], size)),
        Op::MoveVal { d, s } => with_val(m, d, m.vals[s]),
        Op::Arith { op, d, l, r } => with_val(m, d, combine(f, op, m.vals[l], m.vals[r])),
        Op::Widen { d, s } => with_val(m, d, f64_of_f32(low(m.vals[s], 4) as u32)),
        Op::Narrow { d, s, keep } => with_val(
            m,
            d,
            (f32_of_f64(m.vals[s]) as int + if keep {
                m.vals[d] - low(m.vals[d], 4)
            } else {
                0
            }) as u64,
        ),
        Op::ToVal { d, s, size } => with_val(m, d, low(m.ints[s], size)),
        Op::FromVal { d, s, size } => with_int(m, d, low(m.vals[s], size)),
    }
}

/// A number with sixteen of its bits, from bit `at` on, set to others.
pub open spec fn inserted(old_v: u64, at: nat, v: u64) -> u64 {
    let p = if at == 0 {
        1int
    } else if at == 16 {
        0x1_0000
    } else if at == 32 {
        0x1_0000_0000
    } else {
        0x1_0000_0000_0000
    };
    (old_v - ((old_v as int / p) % 0x1_0000) * p + (v as int % 0x1_0000) * p) as u64
}

/// Where code goes on behind an instruction; nowhere where it is left.
pub open spec fn next(op: Op, m: Machine, behind: int) -> Option<int> {
    match op {
        Op::JumpGe { by } => if signed(m.compared.0) >= signed(m.compared.1) {
            Some(behind + by)
        } else {
            Some(behind)
        },
        Op::Jump { by } => Some(behind + by),
        Op::Return => None,
        _ => Some(behind),
    }
}

// ─── Runs ────────────────────────────────────────────────────────────────────

/// The machine at a place in code, or behind it.
pub struct State {
    pub m: Machine,
    pub at: Option<int>,
}

/// One step: the instruction at the place is executed. There is none behind the code,
/// nor where no instruction is read.
pub open spec fn step<F: Fn(FloatOp, u64, u64) -> u64>(
    f: F,
    code: spec_fn(int) -> Option<(Op, nat)>,
    s: State,
) -> Option<State> {
    match s.at {
        None => None,
        Some(at) => match code(at) {
            None => None,
            Some((op, len)) => Some(
                State { m: effect(f, op, s.m), at: next(op, s.m, at + len) },
            ),
        },
    }
}

/// `k` steps.
pub open spec fn run<F: Fn(FloatOp, u64, u64) -> u64>(
    f: F,
    code: spec_fn(int) -> Option<(Op, nat)>,
    s: State,
    k: nat,
) -> Option<State>
    decreases k,
{
    if k == 0 {
        Some(s)
    } else {
        match run(f, code, s, (k - 1) as nat) {
            None => None,
            Some(t) => step(f, code, t),
        }
    }
}

/// That code leads from one state to another.
pub open spec fn leads<F: Fn(FloatOp, u64, u64) -> u64>(
    f: F,
    code: spec_fn(int) -> Option<(Op, nat)>,
    s: State,
    t: State,
) -> bool {
    exists|k: nat| #[trigger] run(f, code, s, k) == Some(t)
}

proof fn lemma_run_on<F: Fn(FloatOp, u64, u64) -> u64>(
    f: F,
    code: spec_fn(int) -> Option<(Op, nat)>,
    s: State,
    t: State,
    k: nat,
    j: nat,
)
    requires
        run(f, code, s, k) == Some(t),
    ensures
        run(f, code, s, k + j) == run(f, code, t, j),
    decreases j,
{
    if j > 0 {
        lemma_run_on(f, code, s, t, k, (j - 1) as nat);
    }
}

pub proof fn lemma_leads_on<F: Fn(FloatOp, u64, u64) -> u64>(
    f: F,
    code: spec_fn(int) -> Option<(Op, nat)>,
    s: State,
    t: State,
    u: State,
)
    requires
        leads(f, code, s, t),
        leads(f, code, t, u),
    ensures
        leads(f, code, s, u),
{
    let k = choose|k: nat| #[trigger] run(f, code, s, k) == Some(t);
    let j = choose|j: nat| #[trigger] run(f, code, t, j) == Some(u);
    lemma_run_on(f, code, s, t, k, j);
    assert(run(f, code, s, k + j) == Some(u));
}

proof fn lemma_leads_step<F: Fn(FloatOp, u64, u64) -> u64>(
    f: F,
    code: spec_fn(int) -> Option<(Op, nat)>,
    s: State,
    t: State,
)
    requires
        step(f, code, s) == Some(t),
    ensures
        leads(f, code, s, t),
{
    assert(run(f, code, s, 0) == Some(s));
    assert(run(f, code, s, 1) == Some(t));
}

// ─── Instructions in a row ───────────────────────────────────────────────────

/// The bytes that the first `k` instructions of a list take.
pub open spec fn span(ops: Seq<(Op, nat)>, k: nat) -> nat
    decreases k,
{
    if k == 0 {
        0
    } else {
        span(ops, (k - 1) as nat) + ops[k - 1].1
    }
}

/// The bytes that a list of instructions takes.
pub open spec fn size_of(ops: Seq<(Op, nat)>) -> nat {
    span(ops, ops.len())
}

/// What instructions in a row do.
pub open spec fn effects<F: Fn(FloatOp, u64, u64) -> u64>(
    f: F,
    ops: Seq<(Op, nat)>,
    m: Machine,
) -> Machine
    decreases ops.len(),
{
    if ops.len() == 0 {
        m
    } else {
        effect(f, ops.last().0, effects(f, ops.drop_last(), m))
    }
}

/// That an instruction is followed by the one behind it.
pub open spec fn goes_on(op: Op) -> bool {
    !(op is JumpGe || op is Jump || op is Return)
}

pub open spec fn all_go_on(ops: Seq<(Op, nat)>) -> bool {
    forall|i: int| 0 <= i < ops.len() ==> goes_on((#[trigger] ops[i]).0)
}

/// That instructions stand in code from a place on.
pub open spec fn stands(
    code: spec_fn(int) -> Option<(Op, nat)>,
    at: int,
    ops: Seq<(Op, nat)>,
) -> bool {
    forall|i: int|
        0 <= i < ops.len() ==> code(at + span(ops, i as nat)) == Some(#[trigger] ops[i])
}

pub proof fn lemma_span_add(a: Seq<(Op, nat)>, b: Seq<(Op, nat)>, k: nat)
    requires
        k <= a.len() + b.len(),
    ensures
        k <= a.len() ==> span(a + b, k) == span(a, k),
        k >= a.len() ==> span(a + b, k) == size_of(a) + span(b, (k - a.len()) as nat),
    decreases k,
{
    if k > 0 {
        lemma_span_add(a, b, (k - 1) as nat);
    }
}

pub proof fn lemma_effects_add<F: Fn(FloatOp, u64, u64) -> u64>(
    f: F,
    a: Seq<(Op, nat)>,
    b: Seq<(Op, nat)>,
    m: Machine,
)
    ensures
        effects(f, a + b, m) == effects(f, b, effects(f, a, m)),
    decreases b.len(),
{
    if b.len() == 0 {
        assert(a + b =~= a);
    } else {
        assert((a + b).drop_last() =~= a + b.drop_last());
        lemma_effects_add(f, a, b.drop_last(), m);
    }
}

pub proof fn lemma_effects_push<F: Fn(FloatOp, u64, u64) -> u64>(
    f: F,
    a: Seq<(Op, nat)>,
    op: (Op, nat),
    m: Machine,
)
    ensures
        effects(f, a.push(op), m) == effect(f, op.0, effects(f, a, m)),
{
    assert(a.push(op).drop_last() =~= a);
}

/// What up to three instructions in a row do.
pub proof fn lemma_effects_few<F: Fn(FloatOp, u64, u64) -> u64>(
    f: F,
    a: (Op, nat),
    b: (Op, nat),
    c: (Op, nat),
    m: Machine,
)
    ensures
        effects(f, seq![a], m) == effect(f, a.0, m),
        effects(f, seq![a, b], m) == effect(f, b.0, effect(f, a.0, m)),
        effects(f, seq![a, b, c], m) == effect(f, c.0, effect(f, b.0, effect(f, a.0, m))),
{
    let none = Seq::<(Op, nat)>::empty();
    assert(effects(f, none, m) == m);
    lemma_effects_push(f, none, a, m);
    assert(none.push(a) =~= seq![a]);
    lemma_effects_push(f, seq![a], b, m);
    assert(seq![a].push(b) =~= seq![a, b]);
    lemma_effects_push(f, seq![a, b], c, m);
    assert(seq![a, b].push(c) =~= seq![a, b, c]);
}

#[verifier::spinoff_prover]
pub proof fn lemma_stands_parts(
    code: spec_fn(int) -> Option<(Op, nat)>,
    at: int,
    a: Seq<(Op, nat)>,
    b: Seq<(Op, nat)>,
)
    requires
        stands(code, at, a + b),
    ensures
        stands(code, at, a),
        stands(code, at + size_of(a), b),
{
    assert forall|i: int| 0 <= i < a.len() implies code(at + span(a, i as nat)) == Some(
        #[trigger] a[i],
    ) by {
        lemma_span_add(a, b, i as nat);
        assert((a + b)[i] == a[i]);
    }
    assert forall|i: int| 0 <= i < b.len() implies code(at + size_of(a) + span(b, i as nat))
        == Some(#[trigger] b[i]) by {
        lemma_span_add(a, b, (a.len() + i) as nat);
        assert((a + b)[a.len() + i] == b[i]);
    }
}

/// Instructions in a row are executed one behind the other.
pub proof fn lemma_row<F: Fn(FloatOp, u64, u64) -> u64>(
    f: F,
    code: spec_fn(int) -> Option<(Op, nat)>,
    at: int,
    ops: Seq<(Op, nat)>,
    m: Machine,
)
    requires
        stands(code, at, ops),
        all_go_on(ops),
    ensures
        leads(
            f,
            code,
            State { m, at: Some(at) },
            State { m: effects(f, ops, m), at: Some(at + size_of(ops)) },
        ),
    decreases ops.len(),
{
    let s = State { m, at: Some(at) };
    if ops.len() == 0 {
        assert(run(f, code, s, 0) == Some(s));
    } else {
        let rest = ops.drop_last();
        let n = (ops.len() - 1) as nat;
        assert(rest + seq![ops.last()] =~= ops);
        lemma_stands_parts(code, at, rest, seq![ops.last()]);
        lemma_row(f, code, at, rest, m);
        lemma_span_add(rest, seq![ops.last()], n);
        let t = State { m: effects(f, rest, m), at: Some(at + size_of(rest)) };
        let u = State { m: effects(f, ops, m), at: Some(at + size_of(ops)) };
        assert(code(at + span(ops, n)) == Some(ops[n as int]));
        assert(goes_on(ops[n as int].0));
        assert(step(f, code, t) == Some(u));
        lemma_leads_step(f, code, t, u);
        lemma_leads_on(f, code, s, t, u);
    }
}

// ─── Code as bytes ───────────────────────────────────────────────────────────

/// That bytes are read as instructions, whatever follows them.
pub open spec fn spells(
    decode: spec_fn(Seq<u8>) -> Option<(Op, nat)>,
    bytes: Seq<u8>,
    ops: Seq<(Op, nat)>,
) -> bool {
    &&& size_of(ops) == bytes.len()
    &&& forall|rest: Seq<u8>, i: int|
        0 <= i < ops.len() ==> #[trigger] decode((bytes + rest).skip(span(ops, i as nat) as int))
            == Some(ops[i])
    &&& forall|i: nat| i <= ops.len() ==> #[trigger] span(ops, i) <= bytes.len()
}

/// Code as the instructions that are read from its places.
pub open spec fn code_of(
    decode: spec_fn(Seq<u8>) -> Option<(Op, nat)>,
    bytes: Seq<u8>,
) -> spec_fn(int) -> Option<(Op, nat)> {
    |at: int|
        if 0 <= at < bytes.len() {
            decode(bytes.skip(at))
        } else {
            None
        }
}

pub proof fn lemma_spells_none(decode: spec_fn(Seq<u8>) -> Option<(Op, nat)>)
    ensures
        spells(decode, Seq::empty(), Seq::empty()),
{
}

/// An instruction is spelled by bytes from which it is read.
pub proof fn lemma_spells_one(
    decode: spec_fn(Seq<u8>) -> Option<(Op, nat)>,
    bytes: Seq<u8>,
    op: Op,
)
    requires
        forall|rest: Seq<u8>| #[trigger] decode(bytes + rest) == Some((op, bytes.len())),
    ensures
        spells(decode, bytes, seq![(op, bytes.len())]),
{
    let ops = seq![(op, bytes.len())];
    assert(span(ops, 0) == 0);
    assert(span(ops, 1) == bytes.len());
    assert forall|rest: Seq<u8>, i: int| 0 <= i < ops.len() implies #[trigger] decode(
        (bytes + rest).skip(span(ops, i as nat) as int),
    ) == Some(ops[i]) by {
        assert((bytes + rest).skip(0) =~= bytes + rest);
    }
}

/// What is spelled one behind the other is spelled together.
pub proof fn lemma_spells_add(
    decode: spec_fn(Seq<u8>) -> Option<(Op, nat)>,
    a: Seq<u8>,
    x: Seq<(Op, nat)>,
    b: Seq<u8>,
    y: Seq<(Op, nat)>,
)
    requires
        spells(decode, a, x),
        spells(decode, b, y),
    ensures
        spells(decode, a + b, x + y),
{
    let ops = x + y;
    lemma_span_add(x, y, ops.len());
    assert forall|rest: Seq<u8>, i: int| 0 <= i < ops.len() implies #[trigger] decode(
        (a + b + rest).skip(span(ops, i as nat) as int),
    ) == Some(ops[i]) by {
        lemma_span_add(x, y, i as nat);
        if i < x.len() {
            assert(a + b + rest =~= a + (b + rest));
            assert(decode((a + (b + rest)).skip(span(x, i as nat) as int)) == Some(x[i]));
        } else {
            let j = i - x.len();
            assert(span(y, j as nat) <= b.len());
            assert((a + b + rest).skip(span(ops, i as nat) as int) =~= (b + rest).skip(
                span(y, j as nat) as int,
            ));
            assert(decode((b + rest).skip(span(y, j as nat) as int)) == Some(y[j]));
        }
    }
    assert forall|i: nat| i <= ops.len() implies #[trigger] span(ops, i) <= (a + b).len() by {
        lemma_span_add(x, y, i);
        if i <= x.len() {
            assert(span(x, i) <= a.len());
        } else {
            assert(span(y, (i - x.len()) as nat) <= b.len());
        }
    }
}

/// Instructions stand in the code that spells them.
pub proof fn lemma_spelled_stands(
    decode: spec_fn(Seq<u8>) -> Option<(Op, nat)>,
    bytes: Seq<u8>,
    ops: Seq<(Op, nat)>,
)
    requires
        spells(decode, bytes, ops),
        forall|i: int| 0 <= i < ops.len() ==> (#[trigger] ops[i]).1 > 0,
    ensures
        stands(code_of(decode, bytes), 0, ops),
{
    let code = code_of(decode, bytes);
    assert(bytes + Seq::<u8>::empty() =~= bytes);
    assert forall|i: int| 0 <= i < ops.len() implies code(0int + span(ops, i as nat)) == Some(
        #[trigger] ops[i],
    ) by {
        assert(decode((bytes + Seq::<u8>::empty()).skip(span(ops, i as nat) as int)) == Some(
            ops[i],
        ));
        assert(span(ops, (i + 1) as nat) == span(ops, i as nat) + ops[i].1);
        assert(span(ops, (i + 1) as nat) <= bytes.len());
    }
}

// ─── Memory ──────────────────────────────────────────────────────────────────

pub proof fn lemma_read_written(mem: spec_fn(int) -> u8, at: int, size: nat, v: nat)
    requires
        v < pow2(8 * size),
    ensures
        read(written(mem, at, size, v), at, size) == v,
{
    law_le_round_trip(v, size);
    let after = written(mem, at, size, v);
    assert(Seq::new(size, |i: int| after(at + i)) =~= le_bytes(v, size));
}

pub proof fn lemma_read_same(
    mem: spec_fn(int) -> u8,
    other: spec_fn(int) -> u8,
    at: int,
    size: nat,
)
    requires
        forall|a: int| at <= a < at + size ==> #[trigger] mem(a) == other(a),
    ensures
        read(mem, at, size) == read(other, at, size),
{
    let x = Seq::new(size, |i: int| mem(at + i));
    let y = Seq::new(size, |i: int| other(at + i));
    assert forall|i: int| 0 <= i < size implies #[trigger] x[i] == y[i] by {
        assert(mem(at + i) == other(at + i));
    }
    assert(x =~= y);
}

/// Bytes in a row.
pub open spec fn joined(parts: Seq<(Seq<u8>, Op)>) -> Seq<u8>
    decreases parts.len(),
{
    if parts.len() == 0 {
        Seq::empty()
    } else {
        joined(parts.drop_last()) + parts.last().0
    }
}

/// The instructions of bytes in a row.
pub open spec fn listed(parts: Seq<(Seq<u8>, Op)>) -> Seq<(Op, nat)> {
    Seq::new(parts.len(), |i: int| (parts[i].1, parts[i].0.len()))
}

/// That bytes spell one instruction.
pub open spec fn is_piece(
    decode: spec_fn(Seq<u8>) -> Option<(Op, nat)>,
    part: (Seq<u8>, Op),
) -> bool {
    spells(decode, part.0, seq![(part.1, part.0.len())])
}

/// Bytes in a row spell their instructions in a row.
pub proof fn lemma_pieces(
    decode: spec_fn(Seq<u8>) -> Option<(Op, nat)>,
    parts: Seq<(Seq<u8>, Op)>,
)
    requires
        forall|i: int| 0 <= i < parts.len() ==> is_piece(decode, #[trigger] parts[i]),
    ensures
        spells(decode, joined(parts), listed(parts)),
    decreases parts.len(),
{
    if parts.len() == 0 {
        lemma_spells_none(decode);
        assert(listed(parts) =~= Seq::empty());
    } else {
        let few = parts.drop_last();
        let part = parts.last();
        assert forall|i: int| 0 <= i < few.len() implies is_piece(decode, #[trigger] few[i]) by {
            assert(few[i] == parts[i]);
        }
        lemma_pieces(decode, few);
        assert(is_piece(decode, parts[parts.len() - 1]));
        let last = seq![(part.1, part.0.len())];
        lemma_spells_add(decode, joined(few), listed(few), part.0, last);
        assert(listed(few) + last =~= listed(parts));
    }
}

/// That machines follow each other by instructions in a row.
pub open spec fn is_path<F: Fn(FloatOp, u64, u64) -> u64>(
    f: F,
    ops: Seq<(Op, nat)>,
    path: Seq<Machine>,
) -> bool {
    &&& path.len() == ops.len() + 1
    &&& forall|i: int|
        0 <= i < ops.len() ==> effect(f, (#[trigger] ops[i]).0, path[i]) == path[i + 1]
}

pub proof fn lemma_path<F: Fn(FloatOp, u64, u64) -> u64>(
    f: F,
    ops: Seq<(Op, nat)>,
    path: Seq<Machine>,
)
    requires
        is_path(f, ops, path),
    ensures
        effects(f, ops, path[0]) == path.last(),
    decreases ops.len(),
{
    if ops.len() > 0 {
        let n = ops.len() - 1;
        let before = ops.drop_last();
        assert forall|i: int| 0 <= i < before.len() implies effect(
            f,
            (#[trigger] before[i]).0,
            path.drop_last()[i],
        ) == path.drop_last()[i + 1] by {
            assert(before[i] == ops[i]);
        }
        lemma_path(f, before, path.drop_last());
        assert(effect(f, ops[n].0, path[n]) == path[n + 1]);
    }
}

} // verus!
