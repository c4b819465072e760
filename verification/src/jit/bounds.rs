//! Static checks of programs, and guards around output buffers.

use crate::bytes::zero_bytes;
use crate::jit::ir::{BinOp, Inst, NtProgram, VReg};
use crate::jit::regalloc::{inst_in_range, vregs_in_range};
use crate::text::{append_decimal, decimal};
use vstd::prelude::*;
use vstd::string::*;

verus! {

/// The bytes of guard on each side of an output buffer.
pub const GUARD_BYTES: usize = 64;

/// The byte of which guards are made.
pub const GUARD_CANARY: u8 = 0xAB;

/// The largest number of instructions of a program.
pub const MAX_INSTS: usize = 4096;

/// The largest number of inputs of a program.
pub const MAX_INPUTS: usize = 256;

/// What the checks of a program found.
#[derive(Debug)]
pub struct BoundsReport {
    /// The virtual registers that may hold a NaN.
    pub nan_vregs: Vec<usize>,
    /// The divisions.
    pub overflow_sites: Vec<usize>,
    /// Whether the program passed all structural checks.
    pub structurally_valid: bool,
    /// The first violation.
    pub first_violation: Option<String>,
}

/// What a `BoundsReport` stands for.
pub struct ReportView {
    pub nan_vregs: Seq<usize>,
    pub overflow_sites: Seq<usize>,
    pub structurally_valid: bool,
    pub first_violation: Option<Seq<char>>,
}

impl View for BoundsReport {
    type V = ReportView;

    open spec fn view(&self) -> ReportView {
        ReportView {
            nan_vregs: self.nan_vregs@,
            overflow_sites: self.overflow_sites@,
            structurally_valid: self.structurally_valid,
            first_violation: match self.first_violation {
                Some(t) => Some(t@),
                None => None,
            },
        }
    }
}

impl BoundsReport {
    /// A report on nothing.
    pub fn empty() -> (r: Self)
        ensures
            r@ == (ReportView {
                nan_vregs: Seq::empty(),
                overflow_sites: Seq::empty(),
                structurally_valid: false,
                first_violation: None,
            }),
    {
        BoundsReport {
            nan_vregs: Vec::new(),
            overflow_sites: Vec::new(),
            structurally_valid: false,
            first_violation: None,
        }
    }

    /// A report on a program that was not looked into.
    fn violation(text: String) -> (r: Self)
        ensures
            r@ == violated(text@),
    {
        BoundsReport {
            nan_vregs: Vec::new(),
            overflow_sites: Vec::new(),
            structurally_valid: false,
            first_violation: Some(text),
        }
    }
}

/// The report on a program that was not looked into.
pub open spec fn violated(text: Seq<char>) -> ReportView {
    ReportView {
        nan_vregs: Seq::empty(),
        overflow_sites: Seq::empty(),
        structurally_valid: false,
        first_violation: Some(text),
    }
}

// ─── The analysis of programs ────────────────────────────────────────────────

/// That the counts of a program are within the limits.
pub open spec fn within_limits(insts: nat, inputs: nat) -> bool {
    insts <= MAX_INSTS && inputs <= MAX_INPUTS
}

/// The first instruction from `k` on with a virtual register out of range.
pub open spec fn first_bad(insts: Seq<Inst>, num_vregs: nat, k: nat) -> Option<nat>
    decreases insts.len() - k,
{
    if k >= insts.len() {
        None
    } else if !inst_in_range(insts[k as int], num_vregs) {
        Some(k)
    } else {
        first_bad(insts, num_vregs, k + 1)
    }
}

/// The virtual registers that may hold a NaN after `k` instructions: the results
/// of divisions, and all that is computed from them.
pub open spec fn nan_after(insts: Seq<Inst>, k: nat) -> Set<VReg>
    decreases k,
{
    if k == 0 {
        Set::empty()
    } else {
        let s = nan_after(insts, (k - 1) as nat);
        match insts[k - 1] {
            Inst::BinOp { dst, op, lhs, rhs } => if op == BinOp::Div || s.contains(lhs)
                || s.contains(rhs) {
                s.insert(dst)
            } else {
                s
            },
            _ => s,
        }
    }
}

/// The numbers below `n` in a set, in order.
pub open spec fn listed(s: Set<VReg>, n: nat) -> Seq<usize>
    decreases n,
{
    if n == 0 {
        Seq::empty()
    } else if s.contains((n - 1) as usize) {
        listed(s, (n - 1) as nat).push((n - 1) as usize)
    } else {
        listed(s, (n - 1) as nat)
    }
}

/// That an instruction divides.
pub open spec fn divides(i: Inst) -> bool {
    i matches Inst::BinOp { op, .. } && op == BinOp::Div
}

/// The divisions among the first `k` instructions.
pub open spec fn divisions(insts: Seq<Inst>, k: nat) -> Seq<usize>
    decreases k,
{
    if k == 0 {
        Seq::empty()
    } else if divides(insts[k - 1]) {
        divisions(insts, (k - 1) as nat).push((k - 1) as usize)
    } else {
        divisions(insts, (k - 1) as nat)
    }
}

/// What keeps a program from being looked into.
pub open spec fn structural_violation(
    insts: Seq<Inst>,
    num_vregs: nat,
    num_inputs: nat,
    alloc_len: nat,
) -> Option<Seq<char>> {
    if insts.len() == 0 {
        Some("kernel has zero instructions"@)
    } else if insts.len() > MAX_INSTS {
        Some(
            "instruction count "@ + decimal(insts.len()) + " exceeds MAX_INSTS ("@ + decimal(
                MAX_INSTS as nat,
            ) + ")"@,
        )
    } else if num_inputs > MAX_INPUTS {
        Some(
            "input count "@ + decimal(num_inputs) + " exceeds MAX_INPUTS ("@ + decimal(
                MAX_INPUTS as nat,
            ) + ")"@,
        )
    } else if alloc_len != num_vregs {
        Some(
            "alloc table length ("@ + decimal(alloc_len) + ") != num_vregs ("@ + decimal(num_vregs)
                + ")"@,
        )
    } else {
        match first_bad(insts, num_vregs, 0) {
            Some(k) => Some(
                "instruction "@ + decimal(k) + " references out-of-range VReg (num_vregs="@
                    + decimal(num_vregs) + ")"@,
            ),
            None => None,
        }
    }
}

/// The report on a program.
pub open spec fn report(
    insts: Seq<Inst>,
    num_vregs: nat,
    num_inputs: nat,
    alloc_len: nat,
    bits: u32,
) -> ReportView {
    match structural_violation(insts, num_vregs, num_inputs, alloc_len) {
        Some(t) => violated(t),
        None => ReportView {
            nan_vregs: listed(nan_after(insts, insts.len()), num_vregs),
            overflow_sites: divisions(insts, insts.len()),
            structurally_valid: bits == 32 || bits == 64,
            first_violation: if bits == 32 || bits == 64 {
                None
            } else {
                Some(
                    "unsupported element bit width "@ + decimal(bits as nat)
                        + " (only 32 or 64 allowed)"@,
                )
            },
        },
    }
}

/// The report on a program.
pub open spec fn report_of(p: NtProgram) -> ReportView {
    report(p.insts@, p.num_vregs as nat, p.num_inputs as nat, p.alloc@.len(), p.bits)
}

/// No instruction is out of range exactly where all are in range.
pub proof fn lemma_first_bad(insts: Seq<Inst>, num_vregs: nat, k: nat)
    requires
        k <= insts.len(),
    ensures
        first_bad(insts, num_vregs, k) is None <==> forall|j: int|
            k <= j < insts.len() ==> inst_in_range(#[trigger] insts[j], num_vregs),
    decreases insts.len() - k,
{
    if k < insts.len() {
        lemma_first_bad(insts, num_vregs, k + 1);
        assert(inst_in_range(insts[k as int], num_vregs) || !inst_in_range(
            insts[k as int],
            num_vregs,
        ));
    }
}

/// The result of a division, and every result computed from a register that may
/// hold a NaN, may hold one.
pub proof fn law_nan_follows_divisions(insts: Seq<Inst>, k: nat, n: nat)
    requires
        k < n <= insts.len(),
    ensures
        insts[k as int] matches Inst::BinOp { dst, op, lhs, rhs } ==> (op == BinOp::Div
            || nan_after(insts, k).contains(lhs) || nan_after(insts, k).contains(rhs)
            ==> nan_after(insts, n).contains(dst)),
        nan_after(insts, k).subset_of(nan_after(insts, n)),
    decreases n,
{
    if k + 1 < n {
        law_nan_follows_divisions(insts, k, (n - 1) as nat);
    }
}

fn first_out_of_range(insts: &Vec<Inst>, num_vregs: usize) -> (r: Option<usize>)
    ensures
        match r {
            Some(k) => first_bad(insts@, num_vregs as nat, 0) == Some(k as nat),
            None => first_bad(insts@, num_vregs as nat, 0) is None,
        },
{
    let n: usize = insts.len();
    let mut k: usize = 0;
    while k < n
        invariant
            k <= n,
            n == insts@.len(),
            first_bad(insts@, num_vregs as nat, 0) == first_bad(
                insts@,
                num_vregs as nat,
                k as nat,
            ),
        decreases n - k,
    {
        let bad: bool = match insts[k] {
            Inst::Load { dst, .. } => dst >= num_vregs,
            Inst::Const { dst, .. } => dst >= num_vregs,
            Inst::BinOp { dst, lhs, rhs, .. } => dst >= num_vregs || lhs >= num_vregs || rhs
                >= num_vregs,
            Inst::Store { src, .. } => src >= num_vregs,
        };
        if bad {
            return Some(k);
        }
        k = k + 1;
    }
    None
}

/// A text of two numbers.
fn text_of(a: &str, x: usize, b: &str, y: usize, c: &str) -> (r: String)
    ensures
        r@ == a@ + decimal(x as nat) + b@ + decimal(y as nat) + c@,
{
    let mut r: String = String::new();
    r.append(a);
    append_decimal(&mut r, x);
    r.append(b);
    append_decimal(&mut r, y);
    r.append(c);
    assert(r@ =~= a@ + decimal(x as nat) + b@ + decimal(y as nat) + c@);
    r
}

/// Which virtual registers may hold a NaN, and the divisions.
fn analyse(insts: &Vec<Inst>, num_vregs: usize) -> (r: (Vec<bool>, Vec<usize>))
    requires
        vregs_in_range(insts@, num_vregs as nat),
    ensures
        r.0@.len() == num_vregs,
        forall|v: usize|
            v < num_vregs ==> #[trigger] r.0@[v as int] == nan_after(
                insts@,
                insts@.len(),
            ).contains(v),
        r.1@ == divisions(insts@, insts@.len()),
{
    let n: usize = insts.len();
    let mut may: Vec<bool> = vec![false; num_vregs];
    let mut sites: Vec<usize> = Vec::new();
    let mut k: usize = 0;
    while k < n
        invariant
            k <= n,
            n == insts@.len(),
            vregs_in_range(insts@, num_vregs as nat),
            may@.len() == num_vregs,
            forall|v: usize|
                v < num_vregs ==> #[trigger] may@[v as int] == nan_after(
                    insts@,
                    k as nat,
                ).contains(v),
            sites@ == divisions(insts@, k as nat),
        decreases n - k,
    {
        assert(inst_in_range(insts@[k as int], num_vregs as nat));
        match insts[k] {
            Inst::BinOp { dst, op, lhs, rhs } => {
                let div: bool = op == BinOp::Div;
                if div || may[lhs] || may[rhs] {
                    may.set(dst, true);
                }
                if div {
                    sites.push(k);
                }
            },
            _ => {},
        }
        k = k + 1;
    }
    (may, sites)
}

fn list_true(may: &Vec<bool>, Ghost(s): Ghost<Set<VReg>>) -> (r: Vec<usize>)
    requires
        forall|v: usize| v < may@.len() ==> #[trigger] may@[v as int] == s.contains(v),
    ensures
        r@ == listed(s, may@.len()),
{
    let n: usize = may.len();
    let mut r: Vec<usize> = Vec::new();
    let mut v: usize = 0;
    while v < n
        invariant
            v <= n,
            n == may@.len(),
            forall|v: usize| v < may@.len() ==> #[trigger] may@[v as int] == s.contains(v),
            r@ == listed(s, v as nat),
        decreases n - v,
    {
        assert(may@[v as int] == s.contains(v));
        if may[v] {
            r.push(v);
        }
        v = v + 1;
    }
    r
}

/// Checks a program: its counts and registers, which registers may hold a NaN,
/// and where it divides.
pub fn check_program(prog: &NtProgram) -> (r: BoundsReport)
    ensures
        r@ == report_of(*prog),
{
    let n: usize = prog.insts.len();
    if n == 0 {
        let mut t: String = String::new();
        t.append("kernel has zero instructions");
        assert(t@ =~= "kernel has zero instructions"@);
        return BoundsReport::violation(t);
    }
    if n > MAX_INSTS {
        return BoundsReport::violation(
            text_of("instruction count ", n, " exceeds MAX_INSTS (", MAX_INSTS, ")"),
        );
    }
    if prog.num_inputs > MAX_INPUTS {
        return BoundsReport::violation(
            text_of("input count ", prog.num_inputs, " exceeds MAX_INPUTS (", MAX_INPUTS, ")"),
        );
    }
    if prog.alloc.len() != prog.num_vregs {
        return BoundsReport::violation(
            text_of(
                "alloc table length (",
                prog.alloc.len(),
                ") != num_vregs (",
                prog.num_vregs,
                ")",
            ),
        );
    }
    if let Some(k) = first_out_of_range(&prog.insts, prog.num_vregs) {
        return BoundsReport::violation(
            text_of(
                "instruction ",
                k,
                " references out-of-range VReg (num_vregs=",
                prog.num_vregs,
                ")",
            ),
        );
    }
    proof {
        lemma_first_bad(prog.insts@, prog.num_vregs as nat, 0);
    }
    let (may, overflow_sites) = analyse(&prog.insts, prog.num_vregs);
    let nan_vregs: Vec<usize> = list_true(
        &may,
        Ghost(nan_after(prog.insts@, prog.insts@.len())),
    );
    if prog.bits != 32 && prog.bits != 64 {
        let mut t: String = String::new();
        t.append("unsupported element bit width ");
        append_decimal(&mut t, prog.bits as usize);
        t.append(" (only 32 or 64 allowed)");
        assert(t@ =~= "unsupported element bit width "@ + decimal(prog.bits as nat)
            + " (only 32 or 64 allowed)"@);
        return BoundsReport {
            nan_vregs,
            overflow_sites,
            structurally_valid: false,
            first_violation: Some(t),
        };
    }
    BoundsReport { nan_vregs, overflow_sites, structurally_valid: true, first_violation: None }
}

// ─── Guards ──────────────────────────────────────────────────────────────────

/// A guard.
pub open spec fn guard() -> Seq<u8> {
    Seq::new(GUARD_BYTES as nat, |i: int| GUARD_CANARY)
}

/// A buffer of zeros between two guards.
pub open spec fn guarded(data_bytes: nat) -> Seq<u8> {
    guard() + Seq::new(data_bytes, |i: int| 0u8) + guard()
}

/// A buffer of `data_bytes` zeros between two guards, and where the zeros begin.
pub fn alloc_guarded_buffer(data_bytes: usize) -> (r: (Vec<u8>, usize))
    requires
        data_bytes + 2 * GUARD_BYTES <= usize::MAX,
    ensures
        r.0@ == guarded(data_bytes as nat),
        r.1 == GUARD_BYTES,
{
    let total: usize = GUARD_BYTES + data_bytes + GUARD_BYTES;
    let mut buf: Vec<u8> = zero_bytes(total);
    let mut i: usize = 0;
    while i < GUARD_BYTES
        invariant
            i <= GUARD_BYTES,
            total == GUARD_BYTES + data_bytes + GUARD_BYTES,
            buf@.len() == total,
            forall|j: int|
                0 <= j < total ==> #[trigger] buf@[j] == if j < i || GUARD_BYTES + data_bytes
                    <= j < GUARD_BYTES + data_bytes + i {
                    GUARD_CANARY
                } else {
                    0
                },
        decreases GUARD_BYTES - i,
    {
        buf.set(i, GUARD_CANARY);
        buf.set(GUARD_BYTES + data_bytes + i, GUARD_CANARY);
        i = i + 1;
    }
    assert(buf@ =~= guarded(data_bytes as nat));
    (buf, GUARD_BYTES)
}

/// A guard byte that was overwritten.
#[derive(Clone, Copy, Debug, PartialEq, Eq, Structural)]
pub enum GuardViolation {
    /// Before the data.
    Leading { index: usize, got: u8 },
    /// Behind the data.
    Trailing { index: usize, got: u8 },
}

/// The first byte from `k` on that differs from that of a guard.
pub open spec fn first_overwritten(s: Seq<u8>, k: nat) -> Option<nat>
    decreases s.len() - k,
{
    if k >= s.len() {
        None
    } else if s[k as int] != GUARD_CANARY {
        Some(k)
    } else {
        first_overwritten(s, k + 1)
    }
}

/// What is found of the guards around `data_bytes` bytes: the first byte of the
/// leading one that was overwritten, else of the trailing one.
pub open spec fn guard_state(buf: Seq<u8>, data_bytes: nat) -> Result<(), GuardViolation> {
    let lead = buf.subrange(0, GUARD_BYTES as int);
    let trail = buf.skip(GUARD_BYTES + data_bytes);
    match first_overwritten(lead, 0) {
        Some(i) => Err(
            GuardViolation::Leading { index: i as usize, got: lead[i as int] },
        ),
        None => match first_overwritten(trail, 0) {
            Some(i) => Err(
                GuardViolation::Trailing { index: i as usize, got: trail[i as int] },
            ),
            None => Ok(()),
        },
    }
}

fn find_overwritten(buf: &[u8], from: usize, to: usize) -> (r: Option<usize>)
    requires
        from <= to <= buf@.len(),
    ensures
        match r {
            Some(i) => {
                &&& first_overwritten(buf@.subrange(from as int, to as int), 0) == Some(i as nat)
                &&& i < to - from
            },
            None => first_overwritten(buf@.subrange(from as int, to as int), 0) is None,
        },
{
    let ghost s = buf@.subrange(from as int, to as int);
    let mut i: usize = 0;
    while i < to - from
        invariant
            from <= to <= buf@.len(),
            i <= to - from,
            s == buf@.subrange(from as int, to as int),
            first_overwritten(s, 0) == first_overwritten(s, i as nat),
        decreases to - from - i,
    {
        assert(s[i as int] == buf@[from + i]);
        if buf[from + i] != GUARD_CANARY {
            return Some(i);
        }
        i = i + 1;
    }
    None
}

/// Looks at the guards around `data_bytes` bytes.
pub fn verify_guard_zone(buf: &[u8], data_bytes: usize) -> (r: Result<(), GuardViolation>)
    requires
        GUARD_BYTES + data_bytes <= buf@.len(),
    ensures
        r == guard_state(buf@, data_bytes as nat),
{
    let n: usize = buf.len();
    if let Some(i) = find_overwritten(buf, 0, GUARD_BYTES) {
        return Err(GuardViolation::Leading { index: i, got: buf[i] });
    }
    assert(buf@.subrange(GUARD_BYTES + data_bytes, n as int) =~= buf@.skip(
        GUARD_BYTES + data_bytes,
    ));
    if let Some(i) = find_overwritten(buf, GUARD_BYTES + data_bytes, n) {
        return Err(
            GuardViolation::Trailing { index: i, got: buf[GUARD_BYTES + data_bytes + i] },
        );
    }
    Ok(())
}

proof fn lemma_overwritten(s: Seq<u8>, k: nat)
    requires
        k <= s.len(),
    ensures
        first_overwritten(s, k) is None <==> forall|j: int|
            k <= j < s.len() ==> s[j] == GUARD_CANARY,
    decreases s.len() - k,
{
    if k < s.len() {
        lemma_overwritten(s, k + 1);
        assert(s[k as int] == GUARD_CANARY || s[k as int] != GUARD_CANARY);
    }
}

/// The guards of a fresh buffer hold, and they still do after anything was
/// written between them.
pub proof fn law_guards_hold(data: Seq<u8>)
    ensures
        guard_state(guarded(data.len()), data.len()) == Ok::<(), GuardViolation>(()),
        guard_state(guard() + data + guard(), data.len()) == Ok::<(), GuardViolation>(()),
{
    let zeros = Seq::new(data.len(), |i: int| 0u8);
    lemma_guards_around(zeros);
    lemma_guards_around(data);
}

proof fn lemma_guards_around(data: Seq<u8>)
    ensures
        guard_state(guard() + data + guard(), data.len()) == Ok::<(), GuardViolation>(()),
{
    let buf = guard() + data + guard();
    let lead = buf.subrange(0, GUARD_BYTES as int);
    let trail = buf.skip(GUARD_BYTES + data.len());
    lemma_overwritten(lead, 0);
    lemma_overwritten(trail, 0);
}

/// A byte written outside the data, other than that of a guard, is found.
pub proof fn law_guard_finds_overwrite(data: Seq<u8>, at: int, b: u8)
    requires
        0 <= at < GUARD_BYTES || GUARD_BYTES + data.len() <= at < 2 * GUARD_BYTES + data.len(),
        b != GUARD_CANARY,
    ensures
        guard_state((guard() + data + guard()).update(at, b), data.len()) is Err,
{
    let buf = (guard() + data + guard()).update(at, b);
    let lead = buf.subrange(0, GUARD_BYTES as int);
    let trail = buf.skip(GUARD_BYTES + data.len());
    lemma_overwritten(lead, 0);
    lemma_overwritten(trail, 0);
    if at < GUARD_BYTES {
        assert(lead[at] == b);
    } else {
        assert(trail[at - (GUARD_BYTES + data.len())] == b);
    }
}

} // verus!
