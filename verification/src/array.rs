//! Arrays of any number of dimensions over packed expressions.

pub mod broadcast_laws;
pub mod laws;
pub mod view_laws;

use crate::array::view_laws::{law_transpose_shows_elements, lies_by_rows, shows_transposed};
use crate::calculator::analyze_and_optimize;
use crate::elements::{
    addressable, all_non_negative, decodable, decoded_values, is_float_type, pack_values,
    packed_values, should_steal_sign,
};
use crate::fuser::exec::{
    device_named, is_packed_plan, is_shader_runner, kernel_ready, packed_kernel, parse_device,
    settle_sign, signless_bytes, unpack_var, var_bytes, var_decodable, var_doubles, Device,
};
use crate::fuser::kernel::distinct_vars;
use crate::fuser::plan::KernelPlan;
use crate::gpu::{execute_gpu, gpu_ready, gpu_result, ran_compute};
use crate::graph::ArenaGraph;
use crate::hardware::{packed_len, HardwareEngine};
use crate::ir::{
    copy_sizes, derivative, expr_scale, expr_size, expr_steal, expr_type, flat_var, flat_view, Expr,
    ExprView, PackedBuffer,
};
use crate::mode::ExecutionMode;
use crate::shape;
use crate::shape::{
    as_nats, broadcasts_to, compatible, countable_shape, joint_shape, numel, pad_shape,
    padded_shape, same_sizes, source_index, source_of, stride_sizes, strides, strides_fit,
    suffix_product,
};
use crate::soft_float::{is_float_unit, F64Bits, FloatOp};
use crate::text::{append_decimal, decimal, is_printer};
use crate::types::{codable, dtype_width, DataType};
use std::sync::Arc;
use vstd::prelude::*;
use vstd::string::*;

pub use crate::shape::{broadcast_shape, row_major_bit_strides, row_major_element_strides};

verus! {

// ─── Ids ─────────────────────────────────────────────────────────────────────

/// A source of ids for new variables.
#[derive(Debug)]
pub struct IdCounter {
    pub next: usize,
}

/// The number after another; the first one follows the last.
pub open spec fn next_id(n: usize) -> usize {
    if n == usize::MAX {
        0
    } else {
        (n + 1) as usize
    }
}

impl IdCounter {
    /// A source whose first id is 10 000.
    pub fn new() -> (r: Self)
        ensures
            r.next == 10_000,
    {
        IdCounter { next: 10_000 }
    }

    /// A new id.
    pub fn fetch(&mut self) -> (id: usize)
        ensures
            id == old(self).next,
            final(self).next == next_id(old(self).next),
    {
        let id: usize = self.next;
        self.next = if id == usize::MAX {
            0
        } else {
            id + 1
        };
        id
    }
}

// ─── Arrays ──────────────────────────────────────────────────────────────────

/// An expression with a shape, and strides in bits.
#[derive(Debug)]
pub struct NumToyArray {
    pub expr: Expr,
    pub shape: Vec<usize>,
    pub bit_strides: Vec<usize>,
}

/// The name of a type.
pub open spec fn type_text(d: DataType) -> Seq<char> {
    match d {
        DataType::Float(b) => "Float("@ + decimal(b as nat) + ")"@,
        DataType::Int(b) => "Int("@ + decimal(b as nat) + ")"@,
        DataType::DynamicFloat => "DynamicFloat"@,
        DataType::FloatingInt => "FloatingInt"@,
        DataType::ScalableInt(b) => "ScalableInt("@ + decimal(b as nat) + ")"@,
        DataType::ScalableFloat(b, e) => "ScalableFloat("@ + decimal(b as nat) + ", "@ + decimal(
            e as nat,
        ) + ")"@,
    }
}

fn dtype_name(d: DataType) -> (r: String)
    ensures
        r@ == type_text(d),
{
    let mut r: String = String::new();
    match d {
        DataType::Float(b) => {
            r.append("Float(");
            append_decimal(&mut r, b as usize);
            r.append(")");
        },
        DataType::Int(b) => {
            r.append("Int(");
            append_decimal(&mut r, b as usize);
            r.append(")");
        },
        DataType::DynamicFloat => {
            r.append("DynamicFloat");
        },
        DataType::FloatingInt => {
            r.append("FloatingInt");
        },
        DataType::ScalableInt(b) => {
            r.append("ScalableInt(");
            append_decimal(&mut r, b as usize);
            r.append(")");
        },
        DataType::ScalableFloat(b, e) => {
            r.append("ScalableFloat(");
            append_decimal(&mut r, b as usize);
            r.append(", ");
            append_decimal(&mut r, e as usize);
            r.append(")");
        },
    }
    assert(r@ =~= type_text(d));
    r
}

/// A list in the other direction.
pub fn reversed(s: &Vec<usize>) -> (r: Vec<usize>)
    ensures
        r@ == s@.reverse(),
{
    let n: usize = s.len();
    let mut r: Vec<usize> = Vec::with_capacity(n);
    let mut i: usize = 0;
    while i < n
        invariant
            i <= n,
            n == s@.len(),
            r@.len() == i,
            forall|j: int| 0 <= j < i ==> #[trigger] r@[j] == s@[n - 1 - j],
        decreases n - i,
    {
        r.push(s[n - 1 - i]);
        i = i + 1;
    }
    assert(r@ =~= s@.reverse());
    r
}

/// A variable seen with another shape and other strides.
pub open spec fn with_layout(
    v: ExprView,
    shape: Seq<usize>,
    bit_strides: Seq<usize>,
) -> ExprView {
    match v {
        ExprView::Variable { id, name, dtype, size, data, bit_offset, scale, steal_sign, .. } =>
        ExprView::Variable {
            id,
            name,
            dtype,
            size,
            data,
            shape,
            bit_strides,
            bit_offset,
            scale,
            steal_sign,
        },
        _ => v,
    }
}

/// Transposing an array's layout twice gives it back.
pub proof fn law_transpose_twice(shape: Seq<usize>, bit_strides: Seq<usize>)
    ensures
        shape.reverse().reverse() == shape,
        bit_strides.reverse().reverse() == bit_strides,
{
    assert(shape.reverse().reverse() =~= shape);
    assert(bit_strides.reverse().reverse() =~= bit_strides);
}

/// A transposed array has as many elements.
pub proof fn law_transpose_keeps_numel(s: Seq<usize>)
    ensures
        numel(s.reverse()) == numel(s),
    decreases s.len(),
{
    shape::lemma_numel(s);
    lemma_reverse_product(s, s.len());
}

proof fn lemma_reverse_product(s: Seq<usize>, k: nat)
    requires
        k <= s.len(),
    ensures
        shape::prefix_product(s.reverse(), k) == suffix_product(s, (s.len() - k) as nat),
    decreases k,
{
    if k > 0 {
        lemma_reverse_product(s, (k - 1) as nat);
        assert(s.reverse()[k - 1] == s[s.len() - k]);
        vstd::arithmetic::mul::lemma_mul_is_commutative(
            shape::prefix_product(s.reverse(), (k - 1) as nat) as int,
            s[s.len() - k] as int,
        );
    }
}

impl NumToyArray {
    /// The name of the element type.
    pub fn dtype(&self) -> (r: String)
        ensures
            r@ == type_text(expr_type(self.expr@)),
    {
        dtype_name(self.expr.data_type())
    }

    /// The width of an element in bits.
    pub fn element_bits(&self) -> (r: u32)
        ensures
            r == dtype_width(expr_type(self.expr@)),
    {
        self.expr.data_type().bit_width()
    }

    /// The array with its dimensions in the other order, over the same bytes.
    pub fn transpose(&self) -> (r: Self)
        requires
            self.expr is Variable,
        ensures
            r.expr is Variable,
            r.shape@ == self.shape@.reverse(),
            r.bit_strides@ == self.bit_strides@.reverse(),
            r.expr@ == with_layout(
                self.expr@,
                self.shape@.reverse(),
                self.bit_strides@.reverse(),
            ),
            self.bit_strides@.len() == self.shape@.len() ==> shows_transposed(*self, r),
    {
        let new_shape: Vec<usize> = reversed(&self.shape);
        let new_strides: Vec<usize> = reversed(&self.bit_strides);
        let new_expr: Expr = match &self.expr {
            Expr::Variable {
                id,
                name,
                dtype,
                size,
                packed_data,
                bit_offset,
                scale,
                steal_sign,
                ..
            } => Expr::Variable {
                id: *id,
                name: name.clone(),
                dtype: *dtype,
                size: *size,
                packed_data: packed_data.clone(),
                shape: copy_sizes(new_shape.as_slice()),
                bit_strides: copy_sizes(new_strides.as_slice()),
                bit_offset: *bit_offset,
                scale: *scale,
                steal_sign: *steal_sign,
            },
            other => other.clone(),
        };
        let r = NumToyArray { expr: new_expr, shape: new_shape, bit_strides: new_strides };
        proof {
            if self.bit_strides@.len() == self.shape@.len() {
                law_transpose_shows_elements(*self, r);
            }
        }
        r
    }

    /// An expression with a shape and strides.
    pub fn from_expr(expr: Expr, shape: Vec<usize>, bit_strides: Vec<usize>) -> (r: Self)
        ensures
            r.expr@ == expr@,
            r.expr == expr,
            r.shape@ == shape@,
            r.bit_strides@ == bit_strides@,
    {
        NumToyArray { expr, shape, bit_strides }
    }

    /// The same elements under another shape with as many.
    pub fn reshape(&self, new_shape: Vec<usize>) -> (r: Self)
        requires
            countable_shape(self.shape@),
            countable_shape(new_shape@),
            numel(new_shape@) == numel(self.shape@),
            strides_fit(new_shape@, dtype_width(expr_type(self.expr@)) as nat),
        ensures
            r.expr@ == self.expr@,
            r.shape@ == new_shape@,
            r.bit_strides@ == stride_sizes(
                new_shape@,
                dtype_width(expr_type(self.expr@)) as nat,
            ),
            lies_by_rows(
                r.bit_strides@,
                r.shape@,
                dtype_width(expr_type(self.expr@)) as nat,
            ),
    {
        let strides: Vec<usize> = row_major_bit_strides(
            new_shape.as_slice(),
            self.element_bits() as usize,
        );
        NumToyArray { expr: self.expr.clone(), shape: new_shape, bit_strides: strides }
    }

    /// The number of elements.
    pub fn numel(&self) -> (r: usize)
        requires
            countable_shape(self.shape@),
        ensures
            r as nat == numel(self.shape@),
    {
        shape::count_elements(self.shape.as_slice())
    }

    /// The derivative by the variables with the given id.
    pub fn grad(&self, wrt_id: usize) -> (r: Self)
        ensures
            r.expr@ == derivative(self.expr@, wrt_id),
            r.shape@ == self.shape@,
            r.bit_strides@ == self.bit_strides@,
    {
        NumToyArray {
            expr: self.expr.grad(wrt_id),
            shape: copy_sizes(self.shape.as_slice()),
            bit_strides: copy_sizes(self.bit_strides.as_slice()),
        }
    }

    /// The elements as doubles.
    pub fn to_flat_f64<F: Fn(FloatOp, u64, u64) -> u64>(
        &self,
        engine: &HardwareEngine,
        f: &F,
    ) -> (r: Vec<F64Bits>)
        requires
            is_float_unit(*f),
            var_decodable(self.expr@),
        ensures
            r@ == var_doubles(*f, self.expr@),
    {
        unpack_var(engine, &self.expr, f)
    }
}

// ─── Broadcasting ────────────────────────────────────────────────────────────

/// A place in a list, held to its end.
pub open spec fn clipped(i: nat, len: nat) -> nat {
    if i < len {
        i
    } else {
        (len - 1) as nat
    }
}

/// The elements of a source shape, repeated to fill a target shape.
pub open spec fn broadcast_values(
    vals: Seq<u64>,
    src: Seq<usize>,
    tgt: Seq<usize>,
) -> Seq<u64> {
    Seq::new(
        numel(tgt),
        |i: int|
            vals[clipped(
                source_index(i as nat, padded_shape(src, tgt.len()), tgt, 0),
                vals.len(),
            ) as int],
    )
}

/// That the elements of a source shape can be repeated to fill a target shape.
pub open spec fn broadcast_ready(src: Seq<usize>, tgt: Seq<usize>) -> bool {
    &&& broadcasts_to(src, tgt)
    &&& countable_shape(src)
    &&& countable_shape(tgt)
    &&& strides_fit(src, 1)
    &&& strides_fit(tgt, 1)
}

/// Repeats the elements of a source shape to fill a target shape.
pub fn broadcast_elements(vals: &Vec<F64Bits>, src: &Vec<usize>, tgt: &Vec<usize>) -> (r: Vec<
    F64Bits,
>)
    requires
        broadcast_ready(src@, tgt@),
        numel(tgt@) > 0 ==> vals@.len() > 0,
    ensures
        r@ == broadcast_values(vals@, src@, tgt@),
{
    let rank: usize = tgt.len();
    let padded: Vec<usize> = pad_shape(src.as_slice(), rank);
    proof {
        shape::lemma_padded_fits(src@, rank as nat);
    }
    let n: usize = shape::count_elements(tgt.as_slice());
    let tgt_strides: Vec<usize> = row_major_element_strides(tgt.as_slice());
    let src_strides: Vec<usize> = row_major_element_strides(padded.as_slice());
    let last: usize = vals.len();
    proof {
        shape::lemma_numel(tgt@);
        shape::lemma_numel(padded@);
        shape::law_padding_keeps_numel(src@, rank as nat);
        assert(shape::prefix_product(src@, src@.len()) <= usize::MAX);
        assert forall|i: int| 0 <= i < tgt@.len() implies (#[trigger] padded@[i] == tgt@[i]
            || padded@[i] == 1) by {
            let x = padded_shape(src@, tgt@.len())[i];
            assert(x == tgt@[i] || x == 1);
        }
    }
    let mut out: Vec<u64> = Vec::with_capacity(n);
    let mut i: usize = 0;
    while i < n
        invariant
            i <= n,
            n as nat == numel(tgt@),
            suffix_product(tgt@, 0) == numel(tgt@),
            suffix_product(padded@, 0) <= usize::MAX,
            padded@ == padded_shape(src@, tgt@.len()),
            padded@.len() == tgt@.len(),
            forall|j: int|
                0 <= j < tgt@.len() ==> (#[trigger] padded@[j] == tgt@[j] || padded@[j] == 1),
            as_nats(src_strides@) == strides(padded@, 1),
            as_nats(tgt_strides@) == strides(tgt@, 1),
            last == vals@.len(),
            n > 0 ==> last > 0,
            out@.len() == i,
            forall|j: int|
                0 <= j < i ==> #[trigger] out@[j] == broadcast_values(vals@, src@, tgt@)[j],
        decreases n - i,
    {
        let at: usize = source_of(i, &padded, &src_strides, &tgt_strides, tgt);
        let at: usize = if at < last {
            at
        } else {
            last - 1
        };
        out.push(vals[at]);
        i = i + 1;
    }
    assert(out@ =~= broadcast_values(vals@, src@, tgt@));
    out
}

/// An array without gaps, of a shape.
pub open spec fn dense_view(
    id: usize,
    name: Seq<char>,
    dtype: DataType,
    data: Seq<u8>,
    shape: Seq<usize>,
    scale: Option<u32>,
    steal_sign: bool,
) -> ExprView {
    ExprView::Variable {
        id,
        name,
        dtype,
        size: numel(shape) as usize,
        data,
        shape,
        bit_strides: stride_sizes(shape, dtype_width(dtype) as nat),
        bit_offset: 0,
        scale,
        steal_sign,
    }
}

/// An array broadcast to a target shape: its elements repeated, and packed anew
/// under its type; without a sign bit if it is a float type and no element is
/// negative.
pub open spec fn broadcast_view<F: Fn(FloatOp, u64, u64) -> u64>(
    f: F,
    e: ExprView,
    src: Seq<usize>,
    tgt: Seq<usize>,
    id: usize,
) -> ExprView {
    let d = expr_type(e);
    let vals = broadcast_values(var_doubles(f, e), src, tgt);
    let s = is_float_type(d) && all_non_negative(vals);
    dense_view(
        id,
        "broadcast"@,
        d,
        packed_values(f, vals, d, expr_scale(e), s, false),
        tgt,
        expr_scale(e),
        s,
    )
}

impl NumToyArray {
    /// That the array can be broadcast to a target shape.
    pub open spec fn broadcastable(&self, tgt: Seq<usize>) -> bool {
        &&& broadcast_ready(self.shape@, tgt)
        &&& self.shape@ != tgt ==> {
            &&& self.expr is Variable
            &&& var_decodable(self.expr@)
            &&& codable(expr_type(self.expr@), false)
            &&& expr_size(self.expr@) > 0 || numel(tgt) == 0
            &&& addressable(numel(tgt), dtype_width(expr_type(self.expr@)) as nat)
            &&& strides_fit(tgt, dtype_width(expr_type(self.expr@)) as nat)
        }
    }

    /// The array broadcast to a target shape. To its own shape it is unchanged.
    pub fn broadcast_to<F: Fn(FloatOp, u64, u64) -> u64>(
        &self,
        engine: &HardwareEngine,
        target_shape: Vec<usize>,
        ids: &mut IdCounter,
        f: &F,
    ) -> (r: Self)
        requires
            is_float_unit(*f),
            self.broadcastable(target_shape@),
        ensures
            r.shape@ == target_shape@,
            self.shape@ == target_shape@ ==> {
                &&& r.expr@ == self.expr@
                &&& r.bit_strides@ == self.bit_strides@
                &&& final(ids).next == old(ids).next
                &&& (r.expr is Variable) == (self.expr is Variable)
            },
            self.shape@ != target_shape@ ==> {
                &&& r.expr is Variable
                &&& r.expr@ == broadcast_view(
                    *f,
                    self.expr@,
                    self.shape@,
                    target_shape@,
                    old(ids).next,
                )
                &&& r.bit_strides@ == stride_sizes(
                    target_shape@,
                    dtype_width(expr_type(self.expr@)) as nat,
                )
                &&& final(ids).next == next_id(old(ids).next)
            },
    {
        if same_sizes(target_shape.as_slice(), self.shape.as_slice()) {
            return NumToyArray {
                expr: self.expr.clone(),
                shape: target_shape,
                bit_strides: copy_sizes(self.bit_strides.as_slice()),
            };
        }
        let src_flat: Vec<u64> = self.to_flat_f64(engine, f);
        let vals: Vec<u64> = broadcast_elements(&src_flat, &self.shape, &target_shape);
        let d: DataType = self.expr.data_type();
        let scale: Option<u32> = self.expr.get_scale();
        let steal: bool = should_steal_sign(d, vals.as_slice());
        let width: u32 = d.bit_width();
        let data: Vec<u8> = pack_values(engine, vals.as_slice(), d, scale, steal, false, f);
        let strides: Vec<usize> = row_major_bit_strides(target_shape.as_slice(), width as usize);
        let expr: Expr = Expr::new_var(
            ids.fetch(),
            "broadcast",
            d,
            vals.len(),
            PackedBuffer::from_bytes(data),
            copy_sizes(target_shape.as_slice()),
            copy_sizes(strides.as_slice()),
            0,
            scale,
            steal,
        );
        NumToyArray { expr, shape: target_shape, bit_strides: strides }
    }
}

// ─── Execution ───────────────────────────────────────────────────────────────

/// The type in which an expression is computed: scalable integers in 64 bits,
/// so that they do not overflow.
pub open spec fn execution_type(d: DataType) -> DataType {
    match d {
        DataType::ScalableInt(_) => DataType::Int(64),
        _ => d,
    }
}

/// That a function runs the kernel of a graph over packed inputs: it takes every
/// plan, the width of an output element and a count, and gives the bytes that
/// so many elements take.
pub open spec fn is_graph_runner<
    R: Fn(&ArenaGraph, &KernelPlan, &Vec<PackedBuffer>, u32, usize) -> Vec<u8>,
>(run: R) -> bool {
    &&& forall|g: &ArenaGraph, p: &KernelPlan, b: &Vec<PackedBuffer>, w: u32, n: usize| #[trigger]
        run.requires((g, p, b, w, n))
    &&& forall|
        g: &ArenaGraph,
        p: &KernelPlan,
        b: &Vec<PackedBuffer>,
        w: u32,
        n: usize,
        out: Vec<u8>,
    | #[trigger]
        run.ensures((g, p, b, w, n), out) ==> out@.len() == packed_len(n as nat, w as nat)
}

/// What a run of the kernel of an expression gave.
pub open spec fn ran_graph<
    F: Fn(FloatOp, u64, u64) -> u64,
    R: Fn(&ArenaGraph, &KernelPlan, &Vec<PackedBuffer>, u32, usize) -> Vec<u8>,
>(
    f: F,
    run: R,
    e: ExprView,
    graph: ArenaGraph,
    plan: KernelPlan,
    bufs: Vec<PackedBuffer>,
    out: Vec<u8>,
) -> bool {
    let d = execution_type(expr_type(e));
    let vars = distinct_vars(e, Seq::empty());
    &&& graph.wf()
    &&& graph.tree() == e
    &&& is_packed_plan(f, plan, e, d, dtype_width(d))
    &&& bufs@.len() == vars.len()
    &&& forall|k: int| 0 <= k < vars.len() ==> (#[trigger] bufs@[k])@ == var_bytes(vars[k])
    &&& run.ensures((&graph, &plan, &bufs, dtype_width(d), expr_size(e) as usize), out)
}

/// That an expression can be executed by the pool.
pub open spec fn pool_ready(e: ExprView) -> bool {
    let d = execution_type(expr_type(e));
    &&& kernel_ready(e, d)
    &&& expr_steal(e) ==> decodable(d, false) && addressable(expr_size(e), dtype_width(d) as nat)
}

/// The array made of the bytes that a run by the pool gave: no sign bit is kept
/// where the expression has none and no result is negative.
pub open spec fn pool_result<F: Fn(FloatOp, u64, u64) -> u64>(
    f: F,
    e: ExprView,
    id: usize,
    out: Seq<u8>,
) -> ExprView {
    let d = execution_type(expr_type(e));
    let scale = expr_scale(e);
    let vals = decoded_values(f, out, expr_size(e), d, scale, false);
    let s = expr_steal(e) && all_non_negative(vals);
    flat_view(
        id,
        "fused_pool_result"@,
        d,
        expr_size(e) as usize,
        signless_bytes(f, out, vals, d, scale, s),
        scale,
        s,
    )
}

/// What execution by the pool yields: a run gave bytes, and the result is made of
/// them.
pub open spec fn pool_execution<
    F: Fn(FloatOp, u64, u64) -> u64,
    R: Fn(&ArenaGraph, &KernelPlan, &Vec<PackedBuffer>, u32, usize) -> Vec<u8>,
>(f: F, run: R, e: ExprView, id: usize, r: Expr) -> bool {
    exists|graph: ArenaGraph, plan: KernelPlan, bufs: Vec<PackedBuffer>, out: Vec<u8>|
        {
            &&& #[trigger] ran_graph(f, run, e, graph, plan, bufs, out)
            &&& r is Variable
            &&& r@ == pool_result(f, e, id, out@)
        }
}

/// The graph of an expression, weighed where it is compiled eagerly.
fn graph_for(expr: &Expr, mode: ExecutionMode) -> (r: ArenaGraph)
    ensures
        r.wf(),
        r.tree() == expr@,
{
    let graph: ArenaGraph = ArenaGraph::from_expr(expr);
    match mode {
        ExecutionMode::Eager => {
            let weighed: Arc<ArenaGraph> = analyze_and_optimize(Arc::new(graph));
            (*weighed).clone()
        },
        _ => graph,
    }
}

/// Executes an expression by the pool.
pub fn execute_on_pool<
    F: Fn(FloatOp, u64, u64) -> u64,
    R: Fn(&ArenaGraph, &KernelPlan, &Vec<PackedBuffer>, u32, usize) -> Vec<u8>,
>(
    engine: &HardwareEngine,
    expr: &Expr,
    mode: ExecutionMode,
    ids: &mut IdCounter,
    run: &R,
    f: &F,
) -> (r: Expr)
    requires
        is_float_unit(*f),
        is_graph_runner(*run),
        pool_ready(expr@),
    ensures
        pool_execution(*f, *run, expr@, old(ids).next, r),
        final(ids).next == next_id(old(ids).next),
{
    let graph: ArenaGraph = graph_for(expr, mode);
    let d: DataType = match expr.data_type() {
        DataType::ScalableInt(_) => DataType::Int(64),
        other => other,
    };
    let w: u32 = d.bit_width();
    let (plan, bufs, size) = packed_kernel(expr, d, w, f);
    let out: Vec<u8> = run(&graph, &plan, &bufs, w, size);
    assert(ran_graph(*f, *run, expr@, graph, plan, bufs, out));
    let scale: Option<u32> = expr.get_scale();
    let (data, s) = settle_sign(engine, out, size, d, scale, expr.steal_sign(), f);
    flat_var(ids.fetch(), "fused_pool_result", d, size, data, scale, s)
}

/// Executes an expression on the named device: on `"gpu"` as a shader, else by
/// the pool. There is no result where a shader could not be run.
pub fn execute_expr_on_device<
    F: Fn(FloatOp, u64, u64) -> u64,
    S: Fn(u64) -> String,
    R: Fn(&ArenaGraph, &KernelPlan, &Vec<PackedBuffer>, u32, usize) -> Vec<u8>,
    G: Fn(&String, &Vec<Vec<u32>>, usize) -> Option<Vec<u32>>,
>(
    engine: &HardwareEngine,
    expr: &Expr,
    device: &str,
    mode: ExecutionMode,
    ids: &mut IdCounter,
    show: &S,
    run: &R,
    run_gpu: &G,
    f: &F,
) -> (r: Option<Expr>)
    requires
        is_float_unit(*f),
        is_printer(*show),
        is_graph_runner(*run),
        is_shader_runner(*run_gpu),
        device_named(device@) is Gpu ==> gpu_ready(expr@),
        !(device_named(device@) is Gpu) ==> pool_ready(expr@),
    ensures
        device_outcome(
            *f,
            *show,
            *run,
            *run_gpu,
            expr@,
            device_named(device@),
            old(ids).next,
            r,
        ),
        final(ids).next == if device_named(device@) is Gpu {
            old(ids).next
        } else {
            next_id(old(ids).next)
        },
{
    match parse_device(device) {
        Device::Gpu => {
            let graph: ArenaGraph = graph_for(expr, mode);
            execute_gpu(engine, expr, &graph, show, run_gpu, f)
        },
        _ => Some(execute_on_pool(engine, expr, mode, ids, run, f)),
    }
}

/// What execution on a device yields.
pub open spec fn device_outcome<
    F: Fn(FloatOp, u64, u64) -> u64,
    S: Fn(u64) -> String,
    R: Fn(&ArenaGraph, &KernelPlan, &Vec<PackedBuffer>, u32, usize) -> Vec<u8>,
    G: Fn(&String, &Vec<Vec<u32>>, usize) -> Option<Vec<u32>>,
>(
    f: F,
    show: S,
    run: R,
    run_gpu: G,
    e: ExprView,
    device: Device,
    id: usize,
    r: Option<Expr>,
) -> bool {
    if !(device is Gpu) {
        r is Some && pool_execution(f, run, e, id, r->0)
    } else if expr_size(e) == 0 {
        r is Some && r->0@ == e
    } else {
        exists|text: String, bufs: Vec<Vec<u32>>, out: Option<Vec<u32>>|
            {
                &&& #[trigger] ran_compute(f, show, run_gpu, e, text, bufs, out)
                &&& match (r, out) {
                    (Some(x), Some(vals)) => x is Variable && x@ == gpu_result(f, e, vals@),
                    (None, None) => true,
                    _ => false,
                }
            }
    }
}

impl NumToyArray {
    /// The array with its expression executed on the named device. There is no
    /// result where a shader could not be run.
    pub fn execute<
        F: Fn(FloatOp, u64, u64) -> u64,
        S: Fn(u64) -> String,
        R: Fn(&ArenaGraph, &KernelPlan, &Vec<PackedBuffer>, u32, usize) -> Vec<u8>,
        G: Fn(&String, &Vec<Vec<u32>>, usize) -> Option<Vec<u32>>,
    >(
        &self,
        engine: &HardwareEngine,
        device: &str,
        mode: ExecutionMode,
        ids: &mut IdCounter,
        show: &S,
        run: &R,
        run_gpu: &G,
        f: &F,
    ) -> (r: Option<Self>)
        requires
            is_float_unit(*f),
            is_printer(*show),
            is_graph_runner(*run),
            is_shader_runner(*run_gpu),
            device_named(device@) is Gpu ==> gpu_ready(self.expr@),
            !(device_named(device@) is Gpu) ==> pool_ready(self.expr@),
        ensures
            device_outcome(
                *f,
                *show,
                *run,
                *run_gpu,
                self.expr@,
                device_named(device@),
                old(ids).next,
                match r {
                    Some(a) => Some(a.expr),
                    None => None,
                },
            ),
            r matches Some(a) ==> a.shape@ == self.shape@ && a.bit_strides@ == self.bit_strides@,
    {
        match execute_expr_on_device(
            engine,
            &self.expr,
            device,
            mode,
            ids,
            show,
            run,
            run_gpu,
            f,
        ) {
            Some(expr) => Some(
                NumToyArray {
                    expr,
                    shape: copy_sizes(self.shape.as_slice()),
                    bit_strides: copy_sizes(self.bit_strides.as_slice()),
                },
            ),
            None => None,
        }
    }
}

// ─── Arithmetic ──────────────────────────────────────────────────────────────

/// That an array can be aligned to a joint shape: broadcast to it, or executed
/// where it has that shape and is not a variable.
pub open spec fn alignable(a: NumToyArray, joint: Seq<usize>) -> bool {
    &&& a.broadcastable(joint)
    &&& a.shape@ == joint && !(a.expr is Variable) ==> pool_ready(a.expr@)
}

/// What an array becomes when it is aligned to a joint shape, and the next id:
/// a variable of that shape stays, an expression of that shape is executed, all
/// else is broadcast.
pub open spec fn aligned<
    F: Fn(FloatOp, u64, u64) -> u64,
    R: Fn(&ArenaGraph, &KernelPlan, &Vec<PackedBuffer>, u32, usize) -> Vec<u8>,
>(
    f: F,
    run: R,
    a: NumToyArray,
    joint: Seq<usize>,
    id: usize,
    r: Expr,
    next: usize,
) -> bool {
    if a.shape@ != joint {
        r@ == broadcast_view(f, a.expr@, a.shape@, joint, id) && next == next_id(id)
    } else if a.expr is Variable {
        r@ == a.expr@ && next == id
    } else {
        pool_execution(f, run, a.expr@, id, r) && next == next_id(id)
    }
}

/// That an operand, with its shape and strides, came out of the alignment of two
/// arrays.
pub open spec fn combined<
    F: Fn(FloatOp, u64, u64) -> u64,
    R: Fn(&ArenaGraph, &KernelPlan, &Vec<PackedBuffer>, u32, usize) -> Vec<u8>,
>(
    f: F,
    run: R,
    a: NumToyArray,
    b: NumToyArray,
    id: usize,
    next: usize,
    x: Expr,
    y: Expr,
) -> bool {
    let joint = joint_shape(a.shape@, b.shape@);
    exists|mid: usize|
        #[trigger] aligned(f, run, a, joint, id, x, mid) && aligned(f, run, b, joint, mid, y, next)
}

/// That two arrays can be combined element by element.
pub open spec fn combinable(a: NumToyArray, b: NumToyArray) -> bool {
    let joint = joint_shape(a.shape@, b.shape@);
    &&& compatible(a.shape@, b.shape@)
    &&& alignable(a, joint)
    &&& alignable(b, joint)
    &&& strides_fit(joint, dtype_width(execution_type(expr_type(a.expr@))) as nat)
    &&& strides_fit(joint, dtype_width(expr_type(a.expr@)) as nat)
}

impl NumToyArray {
    fn align<
        F: Fn(FloatOp, u64, u64) -> u64,
        R: Fn(&ArenaGraph, &KernelPlan, &Vec<PackedBuffer>, u32, usize) -> Vec<u8>,
    >(
        &self,
        engine: &HardwareEngine,
        joint: &Vec<usize>,
        mode: ExecutionMode,
        ids: &mut IdCounter,
        run: &R,
        f: &F,
    ) -> (r: Expr)
        requires
            is_float_unit(*f),
            is_graph_runner(*run),
            alignable(*self, joint@),
        ensures
            aligned(*f, *run, *self, joint@, old(ids).next, r, final(ids).next),
            expr_type(r@) == expr_type(self.expr@) || expr_type(r@) == execution_type(
                expr_type(self.expr@),
            ),
    {
        let a: NumToyArray = self.broadcast_to(engine, copy_sizes(joint.as_slice()), ids, f);
        match &a.expr {
            Expr::Variable { .. } => a.expr,
            _ => execute_on_pool(engine, &a.expr, mode, ids, run, f),
        }
    }

    /// Aligns two arrays to their joint shape.
    fn align_broadcast<
        F: Fn(FloatOp, u64, u64) -> u64,
        R: Fn(&ArenaGraph, &KernelPlan, &Vec<PackedBuffer>, u32, usize) -> Vec<u8>,
    >(
        &self,
        other: &NumToyArray,
        engine: &HardwareEngine,
        mode: ExecutionMode,
        ids: &mut IdCounter,
        run: &R,
        f: &F,
    ) -> (r: (Expr, Expr, Vec<usize>, Vec<usize>))
        requires
            is_float_unit(*f),
            is_graph_runner(*run),
            combinable(*self, *other),
        ensures
            combined(*f, *run, *self, *other, old(ids).next, final(ids).next, r.0, r.1),
            r.2@ == joint_shape(self.shape@, other.shape@),
            r.3@ == stride_sizes(r.2@, dtype_width(expr_type(r.0@)) as nat),
    {
        let joint: Vec<usize> = broadcast_shape(self.shape.as_slice(), other.shape.as_slice());
        let a: Expr = self.align(engine, &joint, mode, ids, run, f);
        let ghost mid = ids.next;
        let b: Expr = other.align(engine, &joint, mode, ids, run, f);
        let strides: Vec<usize> = row_major_bit_strides(
            joint.as_slice(),
            a.data_type().bit_width() as usize,
        );
        assert(aligned(*f, *run, *self, joint@, old(ids).next, a, mid));
        (a, b, joint, strides)
    }

    /// The sum of two arrays, broadcast to their joint shape.
    pub fn add<
        F: Fn(FloatOp, u64, u64) -> u64,
        R: Fn(&ArenaGraph, &KernelPlan, &Vec<PackedBuffer>, u32, usize) -> Vec<u8>,
    >(
        &self,
        other: &NumToyArray,
        engine: &HardwareEngine,
        mode: ExecutionMode,
        ids: &mut IdCounter,
        run: &R,
        f: &F,
    ) -> (r: Self)
        requires
            is_float_unit(*f),
            is_graph_runner(*run),
            combinable(*self, *other),
        ensures
            r.shape@ == joint_shape(self.shape@, other.shape@),
            exists|x: Expr, y: Expr|
                {
                    &&& #[trigger] combined(
                        *f,
                        *run,
                        *self,
                        *other,
                        old(ids).next,
                        final(ids).next,
                        x,
                        y,
                    )
                    &&& r.expr@ == (ExprView::Add { left: Box::new(x@), right: Box::new(y@) })
                    &&& r.bit_strides@ == stride_sizes(
                        r.shape@,
                        dtype_width(expr_type(x@)) as nat,
                    )
                },
    {
        let (a, b, shape, bit_strides) = self.align_broadcast(other, engine, mode, ids, run, f);
        NumToyArray { expr: a.add(b), shape, bit_strides }
    }

    /// The difference of two arrays, broadcast to their joint shape.
    pub fn sub<
        F: Fn(FloatOp, u64, u64) -> u64,
        R: Fn(&ArenaGraph, &KernelPlan, &Vec<PackedBuffer>, u32, usize) -> Vec<u8>,
    >(
        &self,
        other: &NumToyArray,
        engine: &HardwareEngine,
        mode: ExecutionMode,
        ids: &mut IdCounter,
        run: &R,
        f: &F,
    ) -> (r: Self)
        requires
            is_float_unit(*f),
            is_graph_runner(*run),
            combinable(*self, *other),
        ensures
            r.shape@ == joint_shape(self.shape@, other.shape@),
            exists|x: Expr, y: Expr|
                {
                    &&& #[trigger] combined(
                        *f,
                        *run,
                        *self,
                        *other,
                        old(ids).next,
                        final(ids).next,
                        x,
                        y,
                    )
                    &&& r.expr@ == (ExprView::Sub { left: Box::new(x@), right: Box::new(y@) })
                    &&& r.bit_strides@ == stride_sizes(
                        r.shape@,
                        dtype_width(expr_type(x@)) as nat,
                    )
                },
    {
        let (a, b, shape, bit_strides) = self.align_broadcast(other, engine, mode, ids, run, f);
        NumToyArray { expr: a.sub(b), shape, bit_strides }
    }

    /// The product of two arrays, broadcast to their joint shape.
    pub fn mul<
        F: Fn(FloatOp, u64, u64) -> u64,
        R: Fn(&ArenaGraph, &KernelPlan, &Vec<PackedBuffer>, u32, usize) -> Vec<u8>,
    >(
        &self,
        other: &NumToyArray,
        engine: &HardwareEngine,
        mode: ExecutionMode,
        ids: &mut IdCounter,
        run: &R,
        f: &F,
    ) -> (r: Self)
        requires
            is_float_unit(*f),
            is_graph_runner(*run),
            combinable(*self, *other),
        ensures
            r.shape@ == joint_shape(self.shape@, other.shape@),
            exists|x: Expr, y: Expr|
                {
                    &&& #[trigger] combined(
                        *f,
                        *run,
                        *self,
                        *other,
                        old(ids).next,
                        final(ids).next,
                        x,
                        y,
                    )
                    &&& r.expr@ == (ExprView::Mul { left: Box::new(x@), right: Box::new(y@) })
                    &&& r.bit_strides@ == stride_sizes(
                        r.shape@,
                        dtype_width(expr_type(x@)) as nat,
                    )
                },
    {
        let (a, b, shape, bit_strides) = self.align_broadcast(other, engine, mode, ids, run, f);
        NumToyArray { expr: a.mul(b), shape, bit_strides }
    }

    /// The quotient of two arrays, broadcast to their joint shape.
    pub fn div<
        F: Fn(FloatOp, u64, u64) -> u64,
        R: Fn(&ArenaGraph, &KernelPlan, &Vec<PackedBuffer>, u32, usize) -> Vec<u8>,
    >(
        &self,
        other: &NumToyArray,
        engine: &HardwareEngine,
        mode: ExecutionMode,
        ids: &mut IdCounter,
        run: &R,
        f: &F,
    ) -> (r: Self)
        requires
            is_float_unit(*f),
            is_graph_runner(*run),
            combinable(*self, *other),
        ensures
            r.shape@ == joint_shape(self.shape@, other.shape@),
            exists|x: Expr, y: Expr|
                {
                    &&& #[trigger] combined(
                        *f,
                        *run,
                        *self,
                        *other,
                        old(ids).next,
                        final(ids).next,
                        x,
                        y,
                    )
                    &&& r.expr@ == (ExprView::Div { left: Box::new(x@), right: Box::new(y@) })
                    &&& r.bit_strides@ == stride_sizes(
                        r.shape@,
                        dtype_width(expr_type(x@)) as nat,
                    )
                },
    {
        let (a, b, shape, bit_strides) = self.align_broadcast(other, engine, mode, ids, run, f);
        NumToyArray { expr: a.div(b), shape, bit_strides }
    }
}

} // verus!
