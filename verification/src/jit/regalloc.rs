//! Live intervals, and the assignment of physical registers by a linear scan.

use crate::jit::ir::{Inst, LiveInterval, PReg, VReg, NUM_PHYS_REGS};
use vstd::prelude::*;

verus! {

// ─── Live intervals ──────────────────────────────────────────────────────────

/// The virtual register that an instruction defines.
pub open spec fn defined(i: Inst) -> Option<VReg> {
    match i {
        Inst::Load { dst, .. } => Some(dst),
        Inst::Const { dst, .. } => Some(dst),
        Inst::BinOp { dst, .. } => Some(dst),
        Inst::Store { .. } => None,
    }
}

/// That an instruction reads a virtual register.
pub open spec fn reads(i: Inst, v: VReg) -> bool {
    match i {
        Inst::BinOp { lhs, rhs, .. } => lhs == v || rhs == v,
        Inst::Store { src, .. } => src == v,
        _ => false,
    }
}

/// That an instruction names a virtual register.
pub open spec fn names(i: Inst, v: VReg) -> bool {
    defined(i) == Some(v) || reads(i, v)
}

/// That all virtual registers of an instruction are below a number.
pub open spec fn inst_in_range(i: Inst, num_vregs: nat) -> bool {
    match i {
        Inst::Load { dst, .. } => dst < num_vregs,
        Inst::Const { dst, .. } => dst < num_vregs,
        Inst::BinOp { dst, lhs, rhs, .. } => dst < num_vregs && lhs < num_vregs && rhs < num_vregs,
        Inst::Store { src, .. } => src < num_vregs,
    }
}

/// That all virtual registers are below a number.
pub open spec fn vregs_in_range(insts: Seq<Inst>, num_vregs: nat) -> bool {
    forall|k: int| 0 <= k < insts.len() ==> inst_in_range(#[trigger] insts[k], num_vregs)
}

/// The last of the first `k` instructions that names a virtual register; the
/// first instruction where none does.
pub open spec fn last_naming(insts: Seq<Inst>, k: nat, v: VReg) -> nat
    decreases k,
{
    if k == 0 {
        0
    } else if names(insts[k - 1], v) {
        (k - 1) as nat
    } else {
        last_naming(insts, (k - 1) as nat, v)
    }
}

/// That one of the first `k` instructions defines a virtual register.
pub open spec fn defined_before(insts: Seq<Inst>, k: nat, v: VReg) -> bool {
    exists|j: int| 0 <= j < k && defined(#[trigger] insts[j]) == Some(v)
}

/// The live intervals of the virtual registers that the first `k` instructions
/// define, in the order in which they are first defined.
pub open spec fn intervals_upto(insts: Seq<Inst>, k: nat) -> Seq<LiveInterval>
    decreases k,
{
    if k == 0 {
        Seq::empty()
    } else {
        let prev = intervals_upto(insts, (k - 1) as nat);
        match defined(insts[k - 1]) {
            Some(v) => if defined_before(insts, (k - 1) as nat, v) {
                prev
            } else {
                prev.push(
                    LiveInterval {
                        vreg: v,
                        start: (k - 1) as usize,
                        end: last_naming(insts, insts.len(), v) as usize,
                    },
                )
            },
            None => prev,
        }
    }
}

/// The live intervals of a program, in the order in which they start.
pub open spec fn intervals_of(insts: Seq<Inst>) -> Seq<LiveInterval> {
    intervals_upto(insts, insts.len())
}

/// What the intervals of the first instructions are.
pub proof fn lemma_intervals(insts: Seq<Inst>, k: nat)
    requires
        k <= insts.len() <= usize::MAX,
    ensures
        forall|i: int|
            0 <= i < intervals_upto(insts, k).len() ==> {
                let iv = #[trigger] intervals_upto(insts, k)[i];
                &&& iv.start < k
                &&& defined(insts[iv.start as int]) == Some(iv.vreg)
                &&& !defined_before(insts, iv.start as nat, iv.vreg)
                &&& iv.end as nat == last_naming(insts, insts.len(), iv.vreg)
            },
        forall|i: int, j: int|
            0 <= i < j < intervals_upto(insts, k).len() ==> {
                &&& #[trigger] intervals_upto(insts, k)[i].start
                    < #[trigger] intervals_upto(insts, k)[j].start
                &&& intervals_upto(insts, k)[i].vreg != intervals_upto(insts, k)[j].vreg
            },
    decreases k,
{
    if k > 0 {
        lemma_intervals(insts, (k - 1) as nat);
        let prev = intervals_upto(insts, (k - 1) as nat);
        let cur = intervals_upto(insts, k);
        assert forall|v: VReg| #[trigger] last_naming(insts, insts.len(), v) <= usize::MAX by {
            lemma_last_naming(insts, insts.len(), v);
        }
        assert forall|i: int, j: int| 0 <= i < j < cur.len() implies {
            &&& #[trigger] cur[i].start < #[trigger] cur[j].start
            &&& cur[i].vreg != cur[j].vreg
        } by {
            assert(cur[i] == prev[i]);
            if j < prev.len() {
                assert(cur[j] == prev[j]);
            } else {
                let a = prev[i];
                assert(defined(insts[a.start as int]) == Some(a.vreg));
            }
        }
        assert forall|i: int| 0 <= i < cur.len() implies {
            let iv = #[trigger] cur[i];
            &&& iv.start < k
            &&& defined(insts[iv.start as int]) == Some(iv.vreg)
            &&& !defined_before(insts, iv.start as nat, iv.vreg)
            &&& iv.end as nat == last_naming(insts, insts.len(), iv.vreg)
        } by {
            if i < prev.len() {
                assert(cur[i] == prev[i]);
            }
        }
    }
}

/// The last instruction that names a register is the last one.
pub proof fn lemma_last_naming(insts: Seq<Inst>, k: nat, v: VReg)
    ensures
        last_naming(insts, k, v) <= k,
        k > 0 ==> last_naming(insts, k, v) < k,
        forall|j: int| 0 <= j < k && names(#[trigger] insts[j], v) ==> j <= last_naming(insts, k, v),
    decreases k,
{
    if k > 0 {
        lemma_last_naming(insts, (k - 1) as nat, v);
    }
}

fn zero_list(n: usize) -> (r: Vec<usize>)
    ensures
        r@.len() == n,
        forall|i: int| 0 <= i < n ==> r@[i] == 0,
{
    vec![0usize; n]
}

fn false_list(n: usize) -> (r: Vec<bool>)
    ensures
        r@.len() == n,
        forall|i: int| 0 <= i < n ==> r@[i] == false,
{
    vec![false; n]
}

/// The last instruction that names each virtual register.
fn last_uses(insts: &Vec<Inst>, num_vregs: usize) -> (r: Vec<usize>)
    requires
        vregs_in_range(insts@, num_vregs as nat),
    ensures
        r@.len() == num_vregs,
        forall|v: usize|
            v < num_vregs ==> #[trigger] r@[v as int] as nat == last_naming(
                insts@,
                insts@.len(),
                v,
            ),
{
    let n: usize = insts.len();
    let mut r: Vec<usize> = zero_list(num_vregs);
    let mut k: usize = 0;
    while k < n
        invariant
            k <= n,
            n == insts@.len(),
            vregs_in_range(insts@, num_vregs as nat),
            r@.len() == num_vregs,
            forall|v: usize|
                v < num_vregs ==> #[trigger] r@[v as int] as nat == last_naming(
                    insts@,
                    k as nat,
                    v,
                ),
        decreases n - k,
    {
        assert(inst_in_range(insts@[k as int], num_vregs as nat));
        match insts[k] {
            Inst::Load { dst, .. } => {
                r.set(dst, k);
            },
            Inst::Const { dst, .. } => {
                r.set(dst, k);
            },
            Inst::BinOp { dst, lhs, rhs, .. } => {
                r.set(dst, k);
                r.set(lhs, k);
                r.set(rhs, k);
            },
            Inst::Store { src, .. } => {
                r.set(src, k);
            },
        }
        k = k + 1;
    }
    r
}

/// The live intervals of a program, in the order in which they start.
pub fn compute_intervals(insts: &Vec<Inst>, num_vregs: usize) -> (r: Vec<LiveInterval>)
    requires
        vregs_in_range(insts@, num_vregs as nat),
    ensures
        r@ == intervals_of(insts@),
{
    let n: usize = insts.len();
    let last: Vec<usize> = last_uses(insts, num_vregs);
    let mut known: Vec<bool> = false_list(num_vregs);
    let mut r: Vec<LiveInterval> = Vec::new();
    let mut k: usize = 0;
    while k < n
        invariant
            k <= n,
            n == insts@.len(),
            vregs_in_range(insts@, num_vregs as nat),
            last@.len() == num_vregs,
            forall|v: usize|
                v < num_vregs ==> #[trigger] last@[v as int] as nat == last_naming(
                    insts@,
                    insts@.len(),
                    v,
                ),
            known@.len() == num_vregs,
            forall|v: usize|
                v < num_vregs ==> #[trigger] known@[v as int] == defined_before(
                    insts@,
                    k as nat,
                    v,
                ),
            r@ == intervals_upto(insts@, k as nat),
        decreases n - k,
    {
        assert(inst_in_range(insts@[k as int], num_vregs as nat));
        let def: Option<usize> = match insts[k] {
            Inst::Load { dst, .. } => Some(dst),
            Inst::Const { dst, .. } => Some(dst),
            Inst::BinOp { dst, .. } => Some(dst),
            Inst::Store { .. } => None,
        };
        let ghost was = known@;
        if let Some(v) = def {
            assert(known@[v as int] == defined_before(insts@, k as nat, v));
            assert(last@[v as int] as nat == last_naming(insts@, insts@.len(), v));
            if !known[v] {
                r.push(LiveInterval { vreg: v, start: k, end: last[v] });
            }
            known.set(v, true);
        }
        proof {
            assert(defined(insts@[k as int]) == def);
            assert forall|v: usize| v < num_vregs implies #[trigger] known@[v as int]
                == defined_before(insts@, (k + 1) as nat, v) by {
                assert(was[v as int] == defined_before(insts@, k as nat, v));
                if defined_before(insts@, k as nat, v) {
                    let j = choose|j: int|
                        0 <= j < k && defined(#[trigger] insts@[j]) == Some(v);
                    assert(0 <= j < k + 1 && defined(insts@[j]) == Some(v));
                }
                if def == Some(v) {
                    assert(defined(insts@[k as int]) == Some(v));
                } else if defined_before(insts@, (k + 1) as nat, v) {
                    let j = choose|j: int|
                        0 <= j < k + 1 && defined(#[trigger] insts@[j]) == Some(v);
                    assert(j < k);
                }
            }
        }
        k = k + 1;
    }
    r
}

// ─── Linear scan ─────────────────────────────────────────────────────────────

/// That intervals stand in the order in which they start.
pub open spec fn in_order(iv: Seq<LiveInterval>) -> bool {
    forall|i: int, j: int|
        0 <= i <= j < iv.len() ==> #[trigger] iv[i].start <= #[trigger] iv[j].start
}

/// That a physical register holds one of the first `i` intervals where interval
/// `i` starts.
pub open spec fn is_busy(iv: Seq<LiveInterval>, regs: Seq<PReg>, i: nat, r: PReg) -> bool {
    exists|j: int| 0 <= j < i && #[trigger] regs[j] == r && iv[j].end >= iv[i as int].start
}

/// The lowest free register from `r` on where interval `i` starts.
pub open spec fn lowest_free(iv: Seq<LiveInterval>, regs: Seq<PReg>, i: nat, r: nat) -> Option<
    PReg,
>
    decreases NUM_PHYS_REGS - r,
{
    if r >= NUM_PHYS_REGS {
        None
    } else if !is_busy(iv, regs, i, r as usize) {
        Some(r as usize)
    } else {
        lowest_free(iv, regs, i, r + 1)
    }
}

/// The registers of the first `n` intervals, each the lowest that is free where
/// it starts. There are none where no register is free for one of them.
pub open spec fn scan(iv: Seq<LiveInterval>, n: nat) -> Option<Seq<PReg>>
    decreases n,
{
    if n == 0 {
        Some(Seq::empty())
    } else {
        match scan(iv, (n - 1) as nat) {
            Some(regs) => match lowest_free(iv, regs, (n - 1) as nat, 0) {
                Some(r) => Some(regs.push(r)),
                None => None,
            },
            None => None,
        }
    }
}

/// The physical register of a virtual one: that of its interval, or the first
/// where it has none.
pub open spec fn register_of(iv: Seq<LiveInterval>, regs: Seq<PReg>, n: nat, v: VReg) -> PReg
    decreases n,
{
    if n == 0 {
        0
    } else if iv[n - 1].vreg == v {
        regs[n - 1]
    } else {
        register_of(iv, regs, (n - 1) as nat, v)
    }
}

/// The physical register of each virtual one.
pub open spec fn allocation(iv: Seq<LiveInterval>, regs: Seq<PReg>, num_vregs: nat) -> Seq<PReg> {
    Seq::new(num_vregs, |v: int| register_of(iv, regs, iv.len(), v as usize))
}

proof fn lemma_lowest_free(iv: Seq<LiveInterval>, regs: Seq<PReg>, i: nat, r: nat)
    ensures
        match lowest_free(iv, regs, i, r) {
            Some(p) => {
                &&& r <= p < NUM_PHYS_REGS
                &&& !is_busy(iv, regs, i, p)
                &&& forall|q: usize| r <= q < p ==> #[trigger] is_busy(iv, regs, i, q)
            },
            None => forall|q: usize|
                r <= q < NUM_PHYS_REGS ==> #[trigger] is_busy(iv, regs, i, q),
        },
    decreases NUM_PHYS_REGS - r,
{
    if r < NUM_PHYS_REGS && is_busy(iv, regs, i, r as usize) {
        lemma_lowest_free(iv, regs, i, r + 1);
    }
}

pub proof fn lemma_scan_len(iv: Seq<LiveInterval>, n: nat)
    ensures
        scan(iv, n) matches Some(regs) ==> regs.len() == n,
    decreases n,
{
    if n > 0 {
        lemma_scan_len(iv, (n - 1) as nat);
    }
}

/// Registers of intervals that are live together differ, and all of them exist.
pub proof fn law_live_registers_differ(iv: Seq<LiveInterval>, n: nat, i: int, j: int)
    requires
        n <= iv.len(),
        scan(iv, n) is Some,
        0 <= i < j < n,
        iv[i].end >= iv[j].start,
    ensures
        scan(iv, n)->0[i] != scan(iv, n)->0[j],
        scan(iv, n)->0[j] < NUM_PHYS_REGS,
    decreases n,
{
    let prev = scan(iv, (n - 1) as nat)->0;
    lemma_scan_len(iv, (n - 1) as nat);
    lemma_lowest_free(iv, prev, (n - 1) as nat, 0);
    if j < n - 1 {
        law_live_registers_differ(iv, (n - 1) as nat, i, j);
    } else {
        assert(prev[i] == scan(iv, n)->0[i]);
    }
}

/// Every assigned register exists.
pub proof fn law_registers_exist(iv: Seq<LiveInterval>, n: nat, i: int)
    requires
        scan(iv, n) is Some,
        0 <= i < n,
    ensures
        scan(iv, n)->0[i] < NUM_PHYS_REGS,
    decreases n,
{
    let prev = scan(iv, (n - 1) as nat)->0;
    lemma_scan_len(iv, (n - 1) as nat);
    lemma_lowest_free(iv, prev, (n - 1) as nat, 0);
    if i < n - 1 {
        law_registers_exist(iv, (n - 1) as nat, i);
    }
}

/// Registers run out only where every one of them holds an interval that is
/// still live.
pub proof fn law_scan_fails_under_pressure(iv: Seq<LiveInterval>, n: nat)
    requires
        scan(iv, n) is None,
    ensures
        exists|i: nat|
            {
                &&& i < n
                &&& #[trigger] scan(iv, i) is Some
                &&& forall|r: usize|
                    r < NUM_PHYS_REGS ==> #[trigger] is_busy(iv, scan(iv, i)->0, i, r)
            },
    decreases n,
{
    let m = (n - 1) as nat;
    if scan(iv, m) is None {
        law_scan_fails_under_pressure(iv, m);
        let i = choose|i: nat|
            {
                &&& i < m
                &&& #[trigger] scan(iv, i) is Some
                &&& forall|r: usize|
                    r < NUM_PHYS_REGS ==> #[trigger] is_busy(iv, scan(iv, i)->0, i, r)
            };
        assert(i < n && scan(iv, i) is Some);
    } else {
        lemma_lowest_free(iv, scan(iv, m)->0, m, 0);
        assert(m < n && scan(iv, m) is Some);
    }
}

/// The intervals among `active` that are still live where interval `i` starts.
fn expire(iv: &Vec<LiveInterval>, active: &Vec<usize>, i: usize) -> (r: Vec<usize>)
    requires
        i < iv@.len(),
        forall|k: int| 0 <= k < active@.len() ==> #[trigger] active@[k] < i,
    ensures
        forall|j: usize| #[trigger]
            r@.contains(j) <==> active@.contains(j) && iv@[j as int].end >= iv@[i as int].start,
{
    let n: usize = active.len();
    let mut r: Vec<usize> = Vec::new();
    let mut k: usize = 0;
    while k < n
        invariant
            k <= n,
            n == active@.len(),
            i < iv@.len(),
            forall|k: int| 0 <= k < active@.len() ==> #[trigger] active@[k] < i,
            forall|j: usize| #[trigger]
                r@.contains(j) <==> active@.take(k as int).contains(j) && iv@[j as int].end
                    >= iv@[i as int].start,
        decreases n - k,
    {
        let j: usize = active[k];
        let ghost was = r@;
        let ghost t = active@.take(k as int);
        let ghost u = active@.take(k as int + 1);
        if iv[j].end >= iv[i].start {
            r.push(j);
        }
        proof {
            assert(u =~= t.push(j));
            assert forall|x: usize| #[trigger]
                r@.contains(x) <==> u.contains(x) && iv@[x as int].end
                    >= iv@[i as int].start by {
                lemma_push_contains(t, j, x);
                lemma_push_contains(was, j, x);
                assert(was.contains(x) <==> t.contains(x) && iv@[x as int].end
                    >= iv@[i as int].start);
            }
        }
        k = k + 1;
    }
    assert(active@.take(n as int) =~= active@);
    r
}

proof fn lemma_push_contains<T>(s: Seq<T>, a: T, x: T)
    ensures
        s.push(a).contains(x) <==> s.contains(x) || x == a,
{
    if s.contains(x) {
        let k = choose|k: int| 0 <= k < s.len() && s[k] == x;
        assert(s.push(a)[k] == x);
    }
    if x == a {
        assert(s.push(a)[s.len() as int] == x);
    }
    if s.push(a).contains(x) {
        let k = choose|k: int| 0 <= k < s.push(a).len() && s.push(a)[k] == x;
        if k < s.len() {
            assert(s[k] == x);
        }
    }
}

/// The lowest free register where interval `i` starts.
fn pick(iv: &Vec<LiveInterval>, regs: &Vec<PReg>, active: &Vec<usize>, i: usize) -> (r: Option<
    PReg,
>)
    requires
        i < iv@.len(),
        regs@.len() == i,
        forall|j: usize| #[trigger]
            active@.contains(j) <==> j < i && iv@[j as int].end >= iv@[i as int].start,
    ensures
        r == lowest_free(iv@, regs@, i as nat, 0),
{
    let mut r: usize = 0;
    while r < NUM_PHYS_REGS
        invariant
            r <= NUM_PHYS_REGS,
            i < iv@.len(),
            regs@.len() == i,
            forall|j: usize| #[trigger]
                active@.contains(j) <==> j < i && iv@[j as int].end >= iv@[i as int].start,
            lowest_free(iv@, regs@, i as nat, 0) == lowest_free(iv@, regs@, i as nat, r as nat),
        decreases NUM_PHYS_REGS - r,
    {
        let n: usize = active.len();
        let mut busy: bool = false;
        let mut k: usize = 0;
        while k < n && !busy
            invariant
                k <= n,
                n == active@.len(),
                i < iv@.len(),
                regs@.len() == i,
                forall|j: usize| #[trigger]
                    active@.contains(j) <==> j < i && iv@[j as int].end >= iv@[i as int].start,
                busy ==> is_busy(iv@, regs@, i as nat, r),
                !busy ==> forall|m: int|
                    0 <= m < k ==> regs@[#[trigger] active@[m] as int] != r,
            decreases n - k,
        {
            let j: usize = active[k];
            assert(active@.contains(j));
            if regs[j] == r {
                busy = true;
            }
            k = k + 1;
        }
        if !busy {
            proof {
                if is_busy(iv@, regs@, i as nat, r) {
                    let j = choose|j: int|
                        0 <= j < i && #[trigger] regs@[j] == r && iv@[j].end
                            >= iv@[i as int].start;
                    assert(active@.contains(j as usize));
                    let m = choose|m: int| 0 <= m < active@.len() && active@[m] == j as usize;
                    assert(regs@[active@[m] as int] != r);
                }
            }
            return Some(r);
        }
        r = r + 1;
    }
    None
}

/// Assigns physical registers to intervals. There is no assignment where the
/// registers do not suffice.
pub fn linear_scan_alloc(iv: &Vec<LiveInterval>, num_vregs: usize) -> (r: Option<Vec<PReg>>)
    requires
        in_order(iv@),
        forall|i: int| 0 <= i < iv@.len() ==> (#[trigger] iv@[i]).vreg < num_vregs,
    ensures
        match r {
            Some(alloc) => {
                &&& scan(iv@, iv@.len()) is Some
                &&& alloc@ == allocation(iv@, scan(iv@, iv@.len())->0, num_vregs as nat)
            },
            None => scan(iv@, iv@.len()) is None,
        },
{
    let n: usize = iv.len();
    let mut alloc: Vec<usize> = zero_list(num_vregs);
    let mut regs: Vec<usize> = Vec::new();
    let mut active: Vec<usize> = Vec::new();
    let mut i: usize = 0;
    while i < n
        invariant
            i <= n,
            n == iv@.len(),
            in_order(iv@),
            forall|k: int| 0 <= k < iv@.len() ==> (#[trigger] iv@[k]).vreg < num_vregs,
            regs@.len() == i,
            scan(iv@, i as nat) == Some(regs@),
            alloc@.len() == num_vregs,
            forall|v: usize|
                v < num_vregs ==> #[trigger] alloc@[v as int] == register_of(
                    iv@,
                    regs@,
                    i as nat,
                    v,
                ),
            forall|k: int| 0 <= k < active@.len() ==> #[trigger] active@[k] < i,
            forall|j: usize|
                j < i && iv@[j as int].end >= iv@[i - 1].start ==> #[trigger] active@.contains(j),
        decreases n - i,
    {
        let live: Vec<usize> = expire(iv, &active, i);
        proof {
            assert forall|j: usize| #[trigger]
                live@.contains(j) <==> j < i && iv@[j as int].end >= iv@[i as int].start by {
                if live@.contains(j) {
                    assert(active@.contains(j));
                    let k = choose|k: int| 0 <= k < active@.len() && active@[k] == j;
                    assert(active@[k] < i);
                } else if j < i && iv@[j as int].end >= iv@[i as int].start {
                    assert(iv@[i - 1].start <= iv@[i as int].start);
                    assert(active@.contains(j));
                }
            }
        }
        let reg: usize = match pick(iv, &regs, &live, i) {
            Some(p) => p,
            None => {
                proof {
                    lemma_scan_none(iv@, i as nat + 1, n as nat);
                }
                return None;
            },
        };
        let ghost was = regs@;
        regs.push(reg);
        alloc.set(iv[i].vreg, reg);
        active = live;
        active.push(i);
        proof {
            assert forall|v: usize| v < num_vregs implies #[trigger] alloc@[v as int]
                == register_of(iv@, regs@, (i + 1) as nat, v) by {
                lemma_register_of_agree(iv@, was, regs@, i as nat, v);
            }
            assert forall|j: usize|
                j < i + 1 && iv@[j as int].end >= iv@[i as int].start implies #[trigger] active@.contains(
                j,
            ) by {
                lemma_push_contains(live@, i, j);
            }
            assert forall|k: int| 0 <= k < active@.len() implies #[trigger] active@[k] < i
                + 1 by {
                if k < live@.len() {
                    assert(live@.contains(live@[k]));
                }
            }
        }
        i = i + 1;
    }
    assert(alloc@ =~= allocation(iv@, regs@, num_vregs as nat));
    Some(alloc)
}

/// Where the registers do not suffice for some intervals, they do not for more.
proof fn lemma_scan_none(iv: Seq<LiveInterval>, m: nat, n: nat)
    requires
        m <= n,
        scan(iv, m) is None,
    ensures
        scan(iv, n) is None,
    decreases n,
{
    if m < n {
        lemma_scan_none(iv, m, (n - 1) as nat);
    }
}

proof fn lemma_register_of_agree(
    iv: Seq<LiveInterval>,
    a: Seq<PReg>,
    b: Seq<PReg>,
    n: nat,
    v: VReg,
)
    requires
        forall|k: int| 0 <= k < n ==> a[k] == b[k],
    ensures
        register_of(iv, a, n, v) == register_of(iv, b, n, v),
    decreases n,
{
    if n > 0 {
        lemma_register_of_agree(iv, a, b, (n - 1) as nat, v);
    }
}

} // verus!
