//! The instructions of native kernels, and the lowering of graphs to them. Only
//! standard floats of 32 and 64 bits are lowered.

use crate::fuser::kernel::constants_measurable;
use crate::graph::{acyclic, node_tree, operands_before, ArenaGraph, Node, NodeId, NodeView};
use crate::ir::{expr_countable, expr_type};
use crate::jit::bounds::{
    check_program, lemma_first_bad, report_of, within_limits, BoundsReport,
};
use crate::jit::laws::{lemma_insts_shape, lemma_program_in_range, lemma_visit_closed};
use crate::jit::regalloc::{
    allocation, compute_intervals, inst_in_range, intervals_of, lemma_intervals, lemma_scan_len,
    linear_scan_alloc, scan,
};
use crate::soft_float::{is_float_unit, F64Bits, FloatOp};
use crate::types::{scalar_double, DataType};
use vstd::prelude::*;

verus! {

/// A virtual register: the place of a value in its program.
pub type VReg = usize;

/// A physical register.
pub type PReg = usize;

/// The number of physical registers for values.
pub const NUM_PHYS_REGS: usize = 14;

#[derive(Clone, Copy, Debug, PartialEq, Eq, Structural)]
pub enum BinOp {
    Add,
    Sub,
    Mul,
    Div,
}

/// An instruction.
#[derive(Clone, Copy, Debug, PartialEq, Eq, Structural)]
pub enum Inst {
    /// Loads the element at hand of an input.
    Load { dst: VReg, input_idx: usize, bits: u32 },
    /// Sets a constant.
    Const { dst: VReg, val: F64Bits, bits: u32 },
    /// Combines two values.
    BinOp { dst: VReg, op: BinOp, lhs: VReg, rhs: VReg },
    /// Stores a value as the element at hand of the output.
    Store { src: VReg, bits: u32 },
}

/// The instructions for which a virtual register is needed: from the one that
/// defines it to the last one that names it.
#[derive(Clone, Copy, Debug, PartialEq, Eq, Structural)]
pub struct LiveInterval {
    pub vreg: VReg,
    pub start: usize,
    pub end: usize,
}

/// A program for one element.
#[derive(Debug)]
pub struct NtProgram {
    pub insts: Vec<Inst>,
    pub num_vregs: usize,
    /// The number of distinct inputs.
    pub num_inputs: usize,
    /// The register that is stored.
    pub output_vreg: VReg,
    /// The width of an element in bits.
    pub bits: u32,
    /// The physical register of each virtual one.
    pub alloc: Vec<PReg>,
    /// Live intervals, in the order in which they start.
    pub intervals: Vec<LiveInterval>,
    /// What the static checks found.
    pub bounds: BoundsReport,
}

// ─── The order of nodes ──────────────────────────────────────────────────────

/// The first place of a value in a list; the end of the list where it has none.
pub open spec fn place<T>(s: Seq<T>, x: T) -> nat
    decreases s.len(),
{
    if s.len() == 0 {
        0
    } else {
        let p = place(s.drop_last(), x);
        if p < s.len() - 1 {
            p
        } else if s.last() == x {
            (s.len() - 1) as nat
        } else {
            s.len()
        }
    }
}

/// The operands of an arithmetic node.
pub open spec fn operands(n: NodeView) -> Option<(nat, nat)> {
    match n {
        NodeView::Add(l, r) => Some((l, r)),
        NodeView::Sub(l, r) => Some((l, r)),
        NodeView::Mul(l, r) => Some((l, r)),
        NodeView::Div(l, r) => Some((l, r)),
        _ => None,
    }
}

/// The operation of an arithmetic node.
pub open spec fn operation(n: NodeView) -> BinOp {
    match n {
        NodeView::Sub(_, _) => BinOp::Sub,
        NodeView::Mul(_, _) => BinOp::Mul,
        NodeView::Div(_, _) => BinOp::Div,
        _ => BinOp::Add,
    }
}

/// The nodes that a node needs, each once and after its operands, behind those
/// that were seen before.
pub open spec fn visit(g: Seq<NodeView>, id: nat, seen: Seq<nat>) -> Seq<nat>
    decreases id,
{
    if seen.contains(id) {
        seen
    } else {
        match operands(g[id as int]) {
            Some((l, r)) => if l < id && r < id {
                visit(g, r, visit(g, l, seen)).push(id)
            } else {
                seen
            },
            None => seen.push(id),
        }
    }
}

/// The ids of the variables among nodes, in the order in which they come first.
pub open spec fn load_ids(g: Seq<NodeView>, order: Seq<nat>) -> Seq<usize>
    decreases order.len(),
{
    if order.len() == 0 {
        Seq::empty()
    } else {
        let prev = load_ids(g, order.drop_last());
        match g[order.last() as int] {
            NodeView::Variable { id, .. } => if prev.contains(id) {
                prev
            } else {
                prev.push(id)
            },
            _ => prev,
        }
    }
}

/// The instruction of a node behind those of the nodes before it.
pub open spec fn inst_for<F: Fn(FloatOp, u64, u64) -> u64>(
    f: F,
    g: Seq<NodeView>,
    before: Seq<nat>,
    id: nat,
    bits: u32,
) -> Inst {
    let dst = before.len() as usize;
    match g[id as int] {
        NodeView::Variable { id: var, .. } => Inst::Load {
            dst,
            input_idx: place(load_ids(g, before), var) as usize,
            bits,
        },
        NodeView::Constant { val } => Inst::Const { dst, val: scalar_double(f, val), bits },
        n => match operands(n) {
            Some((l, r)) => Inst::BinOp {
                dst,
                op: operation(n),
                lhs: place(before, l) as usize,
                rhs: place(before, r) as usize,
            },
            None => Inst::Store { src: dst, bits },
        },
    }
}

/// The instructions of nodes, in order.
pub open spec fn insts_for<F: Fn(FloatOp, u64, u64) -> u64>(
    f: F,
    g: Seq<NodeView>,
    order: Seq<nat>,
    bits: u32,
) -> Seq<Inst>
    decreases order.len(),
{
    if order.len() == 0 {
        Seq::empty()
    } else {
        insts_for(f, g, order.drop_last(), bits).push(
            inst_for(f, g, order.drop_last(), order.last(), bits),
        )
    }
}

/// That a node has an instruction in code for floats of a width: a variable of such
/// floats, a constant, or arithmetic.
pub open spec fn supported(n: NodeView, bits: u32) -> bool {
    match n {
        NodeView::Variable { dtype, .. } => dtype == DataType::Float(bits),
        NodeView::DequantizeMatmul(_, _, _, _, _) => false,
        _ => true,
    }
}

/// That every one of some nodes has an instruction.
pub open spec fn all_supported(g: Seq<NodeView>, order: Seq<nat>, bits: u32) -> bool {
    forall|k: int| 0 <= k < order.len() ==> supported(#[trigger] g[order[k] as int], bits)
}

/// That nodes stand in the graph, each once.
pub open spec fn is_order(g: Seq<NodeView>, order: Seq<nat>) -> bool {
    &&& order.no_duplicates()
    &&& forall|k: int| 0 <= k < order.len() ==> #[trigger] order[k] < g.len()
}

pub proof fn lemma_place<T>(s: Seq<T>, x: T)
    ensures
        place(s, x) <= s.len(),
        s.contains(x) <==> place(s, x) < s.len(),
        place(s, x) < s.len() ==> s[place(s, x) as int] == x,
        forall|j: int| 0 <= j < place(s, x) && j < s.len() ==> s[j] != x,
    decreases s.len(),
{
    if s.len() > 0 {
        let t = s.drop_last();
        lemma_place(t, x);
        assert forall|j: int| 0 <= j < place(s, x) && j < s.len() implies s[j] != x by {
            if j < t.len() {
                assert(s[j] == t[j]);
            }
        }
        if place(s, x) < s.len() {
            assert(s.contains(x)) by {
                assert(s[place(s, x) as int] == x);
            }
        } else if s.contains(x) {
            let j = choose|j: int| 0 <= j < s.len() && s[j] == x;
            assert(false);
        }
    }
}

/// A value keeps its place when a list grows.
pub proof fn lemma_place_grows<T>(s: Seq<T>, t: Seq<T>, x: T)
    requires
        s.is_prefix_of(t),
        s.contains(x),
    ensures
        place(t, x) == place(s, x),
    decreases t.len(),
{
    lemma_place(s, x);
    lemma_place(t, x);
    if t.len() == s.len() {
        assert(s =~= t);
    } else {
        assert(s.is_prefix_of(t.drop_last()));
        lemma_place_grows(s, t.drop_last(), x);
    }
}

/// What visiting a node does to the order.
pub proof fn lemma_visit(g: Seq<NodeView>, id: nat, seen: Seq<nat>)
    requires
        acyclic(g),
        id < g.len(),
        is_order(g, seen),
    ensures
        is_order(g, visit(g, id, seen)),
        seen.is_prefix_of(visit(g, id, seen)),
        visit(g, id, seen).contains(id),
        !seen.contains(id) ==> visit(g, id, seen).len() > 0 && visit(g, id, seen).last() == id,
        forall|x: nat| #[trigger] visit(g, id, seen).contains(x) ==> seen.contains(x) || x <= id,
    decreases id,
{
    if !seen.contains(id) {
        let n = g[id as int];
        assert(operands_before(n, id));
        let out = visit(g, id, seen);
        let before = match operands(n) {
            Some((l, r)) => {
                lemma_visit(g, l, seen);
                lemma_visit(g, r, visit(g, l, seen));
                visit(g, r, visit(g, l, seen))
            },
            None => seen,
        };
        assert(out == before.push(id));
        assert(!before.contains(id));
        assert(out.last() == id);
        assert(out[out.len() - 1] == id);
        assert forall|x: nat| #[trigger] out.contains(x) implies seen.contains(x) || x <= id by {
            let k = choose|k: int| 0 <= k < out.len() && out[k] == x;
            if k < before.len() {
                assert(before[k] == x);
                assert(before.contains(x));
            }
        }
        assert(out.no_duplicates()) by {
            assert forall|i: int, j: int|
                0 <= i < out.len() && 0 <= j < out.len() && i != j implies out[i] != out[j] by {
                if i == before.len() {
                    assert(before.contains(out[j]));
                } else if j == before.len() {
                    assert(before.contains(out[i]));
                }
            }
        }
    }
}

// ─── Lowering ────────────────────────────────────────────────────────────────

/// The width of elements of a type with native code.
pub open spec fn jit_bits(d: DataType) -> Option<u32> {
    match d {
        DataType::Float(b) => if b == 32 || b == 64 {
            Some(b)
        } else {
            None
        },
        _ => None,
    }
}

/// That no variable of a graph has its sign stolen.
pub open spec fn no_stolen_sign(g: Seq<NodeView>) -> bool {
    forall|i: int|
        0 <= i < g.len() ==> !(#[trigger] g[i] matches NodeView::Variable {
            steal_sign: true,
            ..
        })
}

/// The order in which the nodes of a graph are lowered.
pub open spec fn lowering_order(g: Seq<NodeView>, root: nat) -> Seq<nat> {
    visit(g, root, Seq::empty())
}

/// The instructions of a graph: those of its nodes, and a store of the last.
pub open spec fn program_insts<F: Fn(FloatOp, u64, u64) -> u64>(
    f: F,
    g: Seq<NodeView>,
    root: nat,
    bits: u32,
) -> Seq<Inst> {
    let order = lowering_order(g, root);
    insts_for(f, g, order, bits).push(Inst::Store { src: (order.len() - 1) as usize, bits })
}

/// That a graph has a program: it yields a standard float, no variable has its
/// sign stolen, every variable has the type that the graph yields, every node has an
/// instruction, the registers suffice, and the program is within the limits.
pub open spec fn has_program<F: Fn(FloatOp, u64, u64) -> u64>(f: F, graph: ArenaGraph) -> bool {
    let g = graph.views();
    let root = graph.root as nat;
    let order = lowering_order(g, root);
    &&& jit_bits(expr_type(graph.tree())) is Some
    &&& no_stolen_sign(g)
    &&& all_supported(g, order, jit_bits(expr_type(graph.tree()))->0)
    &&& {
        let insts = program_insts(f, g, root, jit_bits(expr_type(graph.tree()))->0);
        &&& scan(intervals_of(insts), intervals_of(insts).len()) is Some
        &&& within_limits(insts.len(), load_ids(g, order).len())
    }
}

/// That a program is the one of a graph.
pub open spec fn is_program<F: Fn(FloatOp, u64, u64) -> u64>(
    f: F,
    graph: ArenaGraph,
    p: NtProgram,
) -> bool {
    let g = graph.views();
    let root = graph.root as nat;
    let order = lowering_order(g, root);
    &&& Some(p.bits) == jit_bits(expr_type(graph.tree()))
    &&& p.insts@ == program_insts(f, g, root, p.bits)
    &&& p.num_vregs == order.len()
    &&& p.num_inputs == load_ids(g, order).len()
    &&& p.output_vreg == order.len() - 1
    &&& p.intervals@ == intervals_of(p.insts@)
    &&& p.alloc@ == allocation(
        p.intervals@,
        scan(p.intervals@, p.intervals@.len())->0,
        p.num_vregs as nat,
    )
    &&& p.bounds@ == report_of(p)
}

/// What has been lowered so far.
struct LowerCtx {
    insts: Vec<Inst>,
    /// The register of each node; the largest number where it has none.
    node_vreg: Vec<VReg>,
    /// The ids of the variables, in the order of their inputs.
    input_map: Vec<usize>,
    /// The nodes that were lowered.
    seen: Ghost<Seq<nat>>,
}

impl LowerCtx {
    spec fn inv<F: Fn(FloatOp, u64, u64) -> u64>(
        &self,
        f: F,
        g: Seq<NodeView>,
        bits: u32,
    ) -> bool {
        &&& is_order(g, self.seen@)
        &&& all_supported(g, self.seen@, bits)
        &&& self.insts@ == insts_for(f, g, self.seen@, bits)
        &&& self.insts@.len() == self.seen@.len()
        &&& self.input_map@ == load_ids(g, self.seen@)
        &&& self.node_vreg@.len() == g.len()
        &&& forall|i: int|
            0 <= i < g.len() ==> #[trigger] self.node_vreg@[i] as nat == if self.seen@.contains(
                i as nat,
            ) {
                place(self.seen@, i as nat)
            } else {
                usize::MAX as nat
            }
    }

    /// Adds the instruction of a node to the program.
    fn add_inst<F: Fn(FloatOp, u64, u64) -> u64>(
        &mut self,
        f: &F,
        Ghost(g): Ghost<Seq<NodeView>>,
        bits: u32,
        id: NodeId,
        inst: Inst,
        is_new_input: bool,
        var: usize,
    ) -> (dst: VReg)
        requires
            old(self).inv(*f, g, bits),
            id < g.len(),
            !old(self).seen@.contains(id as nat),
            supported(g[id as int], bits),
            inst == inst_for(*f, g, old(self).seen@, id as nat, bits),
            load_ids(g, old(self).seen@.push(id as nat)) == if is_new_input {
                load_ids(g, old(self).seen@).push(var)
            } else {
                load_ids(g, old(self).seen@)
            },
        ensures
            final(self).inv(*f, g, bits),
            final(self).seen@ == old(self).seen@.push(id as nat),
            dst as nat == place(final(self).seen@, id as nat),
    {
        let ghost before = self.seen@;
        let dst: usize = self.insts.len();
        if is_new_input {
            self.input_map.push(var);
        }
        self.insts.push(inst);
        self.node_vreg.set(id, dst);
        self.seen = Ghost(before.push(id as nat));
        proof {
            let after = before.push(id as nat);
            assert(after.drop_last() =~= before);
            assert(after.last() == id as nat);
            assert forall|i: int| 0 <= i < g.len() implies #[trigger] self.node_vreg@[i] as nat
                == if after.contains(i as nat) {
                place(after, i as nat)
            } else {
                usize::MAX as nat
            } by {
                lemma_place(before, i as nat);
                lemma_place(after, i as nat);
                if i == id {
                } else if before.contains(i as nat) {
                    lemma_place_grows(before, after, i as nat);
                } else {
                    assert(!after.contains(i as nat)) by {
                        if after.contains(i as nat) {
                            let k = choose|k: int| 0 <= k < after.len() && after[k] == i as nat;
                            assert(before[k] == i as nat);
                        }
                    }
                }
            }
            lemma_place(before, id as nat);
            assert(is_order(g, after)) by {
                assert forall|a: int, b: int|
                    0 <= a < after.len() && 0 <= b < after.len() && a != b implies after[a]
                    != after[b] by {
                    if a == before.len() {
                        assert(before.contains(after[b]));
                    } else if b == before.len() {
                        assert(before.contains(after[a]));
                    }
                }
            }
        }
        dst
    }

    /// Lowers a node. There is no register where a node that it needs has no
    /// instruction.
    fn lower_node<F: Fn(FloatOp, u64, u64) -> u64>(
        &mut self,
        graph: &ArenaGraph,
        id: NodeId,
        bits: u32,
        f: &F,
    ) -> (r: Option<VReg>)
        requires
            is_float_unit(*f),
            acyclic(graph.views()),
            id < graph.nodes@.len(),
            constants_measurable(node_tree(graph.views(), id as nat)),
            old(self).inv(*f, graph.views(), bits),
        ensures
            match r {
                Some(v) => {
                    &&& final(self).inv(*f, graph.views(), bits)
                    &&& final(self).seen@ == visit(graph.views(), id as nat, old(self).seen@)
                    &&& v as nat == place(final(self).seen@, id as nat)
                },
                None => !all_supported(
                    graph.views(),
                    visit(graph.views(), id as nat, old(self).seen@),
                    bits,
                ),
            },
        decreases id, 1int,
    {
        let ghost g = graph.views();
        let ghost before = self.seen@;
        proof {
            lemma_place(before, id as nat);
            lemma_visit(g, id as nat, before);
            assert(operands_before(g[id as int], id as nat));
        }
        let count: usize = self.insts.len();
        let known: usize = self.node_vreg[id];
        if known != usize::MAX {
            return Some(known);
        }
        let ghost out = visit(g, id as nat, before);
        match &graph.nodes[id] {
            Node::Variable { id: var, dtype, .. } => {
                let ok: bool = match *dtype {
                    DataType::Float(b) => b == bits,
                    _ => false,
                };
                if !ok {
                    assert(out.last() == id as nat);
                    assert(!supported(g[out[out.len() - 1] as int], bits));
                    return None;
                }
                let (slot, is_new) = find_slot(&self.input_map, *var);
                proof {
                    lemma_place(load_ids(g, before), *var);
                    assert(before.push(id as nat).drop_last() =~= before);
                }
                let inst: Inst = Inst::Load { dst: self.insts.len(), input_idx: slot, bits };
                Some(self.add_inst(f, Ghost(g), bits, id, inst, is_new, *var))
            },
            Node::Constant { val } => {
                let v: u64 = val.to_double(f);
                proof {
                    assert(before.push(id as nat).drop_last() =~= before);
                }
                let inst: Inst = Inst::Const { dst: self.insts.len(), val: v, bits };
                Some(self.add_inst(f, Ghost(g), bits, id, inst, false, 0))
            },
            Node::Add(l, r) => self.lower_binop(graph, id, *l, *r, BinOp::Add, bits, f),
            Node::Sub(l, r) => self.lower_binop(graph, id, *l, *r, BinOp::Sub, bits, f),
            Node::Mul(l, r) => self.lower_binop(graph, id, *l, *r, BinOp::Mul, bits, f),
            Node::Div(l, r) => self.lower_binop(graph, id, *l, *r, BinOp::Div, bits, f),
            Node::DequantizeMatmul(..) => {
                assert(out.last() == id as nat);
                assert(!supported(g[out[out.len() - 1] as int], bits));
                None
            },
        }
    }

    /// Lowers the operands of an arithmetic node, and then the node.
    fn lower_binop<F: Fn(FloatOp, u64, u64) -> u64>(
        &mut self,
        graph: &ArenaGraph,
        id: NodeId,
        l: NodeId,
        r: NodeId,
        op: BinOp,
        bits: u32,
        f: &F,
    ) -> (res: Option<VReg>)
        requires
            is_float_unit(*f),
            acyclic(graph.views()),
            id < graph.nodes@.len(),
            constants_measurable(node_tree(graph.views(), id as nat)),
            old(self).inv(*f, graph.views(), bits),
            !old(self).seen@.contains(id as nat),
            operands(graph.views()[id as int]) == Some((l as nat, r as nat)),
            operation(graph.views()[id as int]) == op,
            l < id,
            r < id,
        ensures
            match res {
                Some(v) => {
                    &&& final(self).inv(*f, graph.views(), bits)
                    &&& final(self).seen@ == visit(graph.views(), id as nat, old(self).seen@)
                    &&& v as nat == place(final(self).seen@, id as nat)
                },
                None => !all_supported(
                    graph.views(),
                    visit(graph.views(), id as nat, old(self).seen@),
                    bits,
                ),
            },
        decreases id, 0int,
    {
        let ghost g = graph.views();
        let ghost before = self.seen@;
        let ghost mid = visit(g, l as nat, before);
        let ghost last = visit(g, r as nat, mid);
        let ghost out = visit(g, id as nat, before);
        proof {
            lemma_visit(g, id as nat, before);
            lemma_visit(g, l as nat, before);
            lemma_visit(g, r as nat, mid);
            assert(out == last.push(id as nat));
        }
        let lhs: usize = match self.lower_node(graph, l, bits, f) {
            Some(v) => v,
            None => {
                proof {
                    lemma_unsupported_prefix(g, mid, out, bits);
                }
                return None;
            },
        };
        let rhs: usize = match self.lower_node(graph, r, bits, f) {
            Some(v) => v,
            None => {
                proof {
                    lemma_unsupported_prefix(g, last, out, bits);
                }
                return None;
            },
        };
        proof {
            lemma_place_grows(mid, last, l as nat);
            assert(!last.contains(id as nat));
            assert(last.push(id as nat).drop_last() =~= last);
        }
        let inst: Inst = Inst::BinOp { dst: self.insts.len(), op, lhs, rhs };
        Some(self.add_inst(f, Ghost(g), bits, id, inst, false, 0))
    }
}

/// Where some of the first nodes have no instruction, not all have.
proof fn lemma_unsupported_prefix(g: Seq<NodeView>, s: Seq<nat>, t: Seq<nat>, bits: u32)
    requires
        s.is_prefix_of(t),
        !all_supported(g, s, bits),
    ensures
        !all_supported(g, t, bits),
{
    let k = choose|k: int| 0 <= k < s.len() && !supported(#[trigger] g[s[k] as int], bits);
    assert(t[k] == s[k]);
    assert(!supported(g[t[k] as int], bits));
}

/// The input of a variable, and whether it is a new one.
fn find_slot(ids: &Vec<usize>, var: usize) -> (r: (usize, bool))
    ensures
        r.0 as nat == place(ids@, var),
        r.1 == !ids@.contains(var),
{
    let n: usize = ids.len();
    proof {
        lemma_place(ids@, var);
    }
    let mut i: usize = 0;
    while i < n
        invariant
            i <= n,
            n == ids@.len(),
            forall|j: int| 0 <= j < i ==> ids@[j] != var,
            place(ids@, var) < n ==> ids@[place(ids@, var) as int] == var,
            forall|j: int| 0 <= j < place(ids@, var) && j < n ==> ids@[j] != var,
            place(ids@, var) <= n,
        decreases n - i,
    {
        if ids[i] == var {
            assert(ids@.contains(var));
            assert(place(ids@, var) == i);
            return (i, false);
        }
        i = i + 1;
    }
    (n, true)
}

/// Whether no variable of a graph has its sign stolen.
fn signs_kept(graph: &ArenaGraph) -> (r: bool)
    ensures
        r == no_stolen_sign(graph.views()),
{
    let n: usize = graph.nodes.len();
    let mut i: usize = 0;
    while i < n
        invariant
            i <= n,
            n == graph.nodes@.len(),
            forall|j: int|
                0 <= j < i ==> !(#[trigger] graph.views()[j] matches NodeView::Variable {
                    steal_sign: true,
                    ..
                }),
        decreases n - i,
    {
        if let Node::Variable { steal_sign, .. } = &graph.nodes[i] {
            if *steal_sign {
                assert(graph.views()[i as int] matches NodeView::Variable {
                    steal_sign: true,
                    ..
                });
                return false;
            }
        }
        i = i + 1;
    }
    true
}

/// A list where each node has no register.
fn no_vregs(n: usize) -> (r: Vec<VReg>)
    ensures
        r@.len() == n,
        forall|i: int| 0 <= i < n ==> r@[i] == usize::MAX,
{
    vec![usize::MAX; n]
}

/// The program of a graph. There is none where the graph has none.
pub fn try_lower<F: Fn(FloatOp, u64, u64) -> u64>(graph: &ArenaGraph, f: &F) -> (r: Option<
    NtProgram,
>)
    requires
        is_float_unit(*f),
        graph.wf(),
        expr_countable(graph.tree()),
        constants_measurable(graph.tree()),
    ensures
        match r {
            Some(p) => has_program(*f, *graph) && is_program(*f, *graph, p),
            None => !has_program(*f, *graph),
        },
{
    let ghost g = graph.views();
    let ghost root = graph.root as nat;
    let bits: u32 = match graph.data_type(graph.root) {
        DataType::Float(b) => if b == 32 || b == 64 {
            b
        } else {
            return None;
        },
        _ => return None,
    };
    if !signs_kept(graph) {
        return None;
    }
    let mut ctx = LowerCtx {
        insts: Vec::new(),
        node_vreg: no_vregs(graph.nodes.len()),
        input_map: Vec::new(),
        seen: Ghost(Seq::empty()),
    };
    proof {
        assert(is_order(g, Seq::<nat>::empty()));
        assert(ctx.insts@ =~= insts_for(*f, g, Seq::<nat>::empty(), bits));
        assert(ctx.input_map@ =~= load_ids(g, Seq::<nat>::empty()));
    }
    let output_vreg: usize = match ctx.lower_node(graph, graph.root, bits, f) {
        Some(v) => v,
        None => return None,
    };
    let ghost order = lowering_order(g, root);
    let num_inputs: usize = ctx.input_map.len();
    let num_vregs: usize = ctx.insts.len();
    proof {
        lemma_visit(g, root, Seq::empty());
        lemma_place(order, root);
        assert(output_vreg == order.len() - 1);
        lemma_insts_shape(*f, g, order, bits);
    }
    let mut insts: Vec<Inst> = ctx.insts;
    insts.push(Inst::Store { src: output_vreg, bits });
    let total: usize = insts.len();
    proof {
        lemma_visit_closed(g, root, Seq::empty());
        lemma_program_in_range(*f, g, order, bits);
        lemma_intervals(insts@, insts@.len());
        lemma_first_bad(insts@, num_vregs as nat, 0);
        lemma_scan_len(intervals_of(insts@), intervals_of(insts@).len());
        assert forall|i: int| 0 <= i < intervals_of(insts@).len() implies (#[trigger] intervals_of(
            insts@,
        )[i]).vreg < num_vregs by {
            let v = intervals_of(insts@)[i];
            assert(inst_in_range(insts@[v.start as int], num_vregs as nat));
        }
    }
    let intervals: Vec<LiveInterval> = compute_intervals(&insts, num_vregs);
    let alloc: Vec<usize> = match linear_scan_alloc(&intervals, num_vregs) {
        Some(a) => a,
        None => return None,
    };
    let mut prog = NtProgram {
        insts,
        num_vregs,
        num_inputs,
        output_vreg,
        bits,
        alloc,
        intervals,
        bounds: BoundsReport::empty(),
    };
    let report: BoundsReport = check_program(&prog);
    if !report.structurally_valid {
        return None;
    }
    prog.bounds = report;
    Some(prog)
}

} // verus!
