//! Tensors: an expression over a flat array, with a shape and strides in
//! elements. Arithmetic builds expressions, which are executed when asked for.

use crate::array::{broadcast_elements, broadcast_ready, broadcast_values, next_id, IdCounter};
use crate::elements::{
    addressable, all_non_negative, is_float_type, pack_values, packed_values, should_steal_sign,
};
use crate::fuser::exec::{
    cpu_execution, cpu_ready, device_execution, device_named, execute_expr_cpu,
    execute_expr_on_device, is_double_runner, is_packed_runner, is_shader_runner, packed_ready,
    unpack_var, var_decodable, var_doubles,
};
use crate::fuser::plan::KernelPlan;
use crate::hardware::HardwareEngine;
use crate::ir::{
    copy_sizes, derivative, expr_scale, expr_size, expr_type, flat_var, flat_view, Expr, ExprView,
    PackedBuffer,
};
use crate::shape;
use crate::shape::{
    compatible, countable_shape, joint_shape, numel, padded_shape, same_sizes, source_index,
    stride_sizes, strides_fit,
};
use crate::soft_float::{is_float_unit, F64Bits, FloatOp};
use crate::text::is_printer;
use crate::types::{codable, dtype_width, DataType};
use vstd::prelude::*;

pub use crate::shape::broadcast_shape;

verus! {

/// An expression with a shape, and strides in elements.
#[derive(Debug)]
pub struct Tensor {
    pub expr: Expr,
    pub shape: Vec<usize>,
    pub strides: Vec<usize>,
}

impl Tensor {
    /// That the strides are those of the shape in row-major order.
    pub open spec fn wf(&self) -> bool {
        &&& countable_shape(self.shape@)
        &&& strides_fit(self.shape@, 1)
        &&& self.strides@ == stride_sizes(self.shape@, 1)
    }

    /// A flat expression with a shape.
    pub fn from_expr(expr: Expr, shape: Vec<usize>) -> (r: Self)
        requires
            countable_shape(shape@),
            strides_fit(shape@, 1),
        ensures
            r.wf(),
            r.expr == expr,
            r.shape@ == shape@,
    {
        let strides: Vec<usize> = row_major_strides(shape.as_slice());
        Tensor { expr, shape, strides }
    }

    /// The number of elements.
    pub fn numel(&self) -> (r: usize)
        requires
            self.wf(),
        ensures
            r as nat == numel(self.shape@),
    {
        shape::count_elements(self.shape.as_slice())
    }

    /// The same elements under another shape with as many.
    pub fn reshape(&self, new_shape: Vec<usize>) -> (r: Self)
        requires
            self.wf(),
            countable_shape(new_shape@),
            strides_fit(new_shape@, 1),
            numel(new_shape@) == numel(self.shape@),
        ensures
            r.wf(),
            r.expr@ == self.expr@,
            r.shape@ == new_shape@,
    {
        Tensor::from_expr(self.expr.clone(), new_shape)
    }

    /// The derivative by the variables with the given id.
    pub fn grad(&self, wrt_id: usize) -> (r: Tensor)
        requires
            self.wf(),
        ensures
            r.wf(),
            r.expr@ == derivative(self.expr@, wrt_id),
            r.shape@ == self.shape@,
    {
        Tensor::from_expr(self.expr.grad(wrt_id), copy_sizes(self.shape.as_slice()))
    }

    /// The elements as doubles.
    pub fn to_flat_f64<F: Fn(FloatOp, u64, u64) -> u64>(
        &self,
        engine: &HardwareEngine,
        f: &F,
    ) -> (r: Vec<F64Bits>)
        requires
            is_float_unit(*f),
            var_decodable(self.expr@),
        ensures
            r@ == var_doubles(*f, self.expr@),
    {
        unpack_var(engine, &self.expr, f)
    }

    /// The bytes of a tensor that is a variable.
    pub fn packed_bytes(&self) -> (r: Vec<u8>)
        requires
            self.expr is Variable,
        ensures
            r@ == crate::fuser::exec::var_bytes(self.expr@),
    {
        match &self.expr {
            Expr::Variable { packed_data, .. } => {
                crate::bytes::bytes_between(
                    packed_data.as_slice(),
                    0,
                    packed_data.as_slice().len(),
                )
            },
            _ => Vec::new(),
        }
    }
}

/// Row-major strides in elements.
fn row_major_strides(shape: &[usize]) -> (r: Vec<usize>)
    requires
        strides_fit(shape@, 1),
    ensures
        r@ == stride_sizes(shape@, 1),
{
    shape::row_major_bit_strides(shape, 1)
}

// ─── Broadcasting ────────────────────────────────────────────────────────────

/// The elements of a source shape, repeated to fill a target shape.
pub open spec fn tiled_values(vals: Seq<u64>, src: Seq<usize>, tgt: Seq<usize>) -> Seq<u64> {
    Seq::new(
        numel(tgt),
        |i: int| vals[source_index(i as nat, padded_shape(src, tgt.len()), tgt, 0) as int],
    )
}

/// Where a source has all the elements of its shape, none has to be held to its
/// end.
proof fn lemma_tiled(vals: Seq<u64>, src: Seq<usize>, tgt: Seq<usize>)
    requires
        shape::broadcasts_to(src, tgt),
        vals.len() >= numel(src),
    ensures
        broadcast_values(vals, src, tgt) == tiled_values(vals, src, tgt),
{
    let padded = padded_shape(src, tgt.len());
    shape::law_padding_keeps_numel(src, tgt.len());
    shape::lemma_numel(padded);
    shape::lemma_numel(tgt);
    assert forall|i: int| 0 <= i < numel(tgt) implies broadcast_values(vals, src, tgt)[i]
        == tiled_values(vals, src, tgt)[i] by {
        assert forall|j: int| 0 <= j < tgt.len() implies (#[trigger] padded[j] == tgt[j]
            || padded[j] == 1) by {
            let x = padded_shape(src, tgt.len())[j];
            assert(x == tgt[j] || x == 1);
        }
        shape::law_source_index_in_range(i as nat, padded, tgt, 0);
    }
    assert(broadcast_values(vals, src, tgt) =~= tiled_values(vals, src, tgt));
}

/// A tensor broadcast to a target shape: its elements repeated, and packed anew
/// under its type; without a sign bit if it is a float type and no element is
/// negative.
pub open spec fn tiled_view<F: Fn(FloatOp, u64, u64) -> u64>(
    f: F,
    e: ExprView,
    src: Seq<usize>,
    tgt: Seq<usize>,
    id: usize,
) -> ExprView {
    let d = expr_type(e);
    let vals = tiled_values(var_doubles(f, e), src, tgt);
    let s = is_float_type(d) && all_non_negative(vals);
    flat_view(
        id,
        "broadcast"@,
        d,
        numel(tgt) as usize,
        packed_values(f, vals, d, expr_scale(e), s, false),
        expr_scale(e),
        s,
    )
}

impl Tensor {
    /// That the tensor can be broadcast to a target shape.
    pub open spec fn broadcastable(&self, tgt: Seq<usize>) -> bool {
        &&& broadcast_ready(self.shape@, tgt)
        &&& self.shape@ != tgt ==> {
            &&& self.expr is Variable
            &&& var_decodable(self.expr@)
            &&& codable(expr_type(self.expr@), false)
            &&& expr_size(self.expr@) >= numel(self.shape@)
            &&& addressable(numel(tgt), dtype_width(expr_type(self.expr@)) as nat)
        }
    }

    /// The tensor broadcast to a target shape. To its own shape it is unchanged.
    pub fn broadcast_to<F: Fn(FloatOp, u64, u64) -> u64>(
        &self,
        engine: &HardwareEngine,
        target_shape: Vec<usize>,
        ids: &mut IdCounter,
        f: &F,
    ) -> (r: Self)
        requires
            is_float_unit(*f),
            self.wf(),
            self.broadcastable(target_shape@),
        ensures
            r.wf(),
            r.shape@ == target_shape@,
            self.shape@ == target_shape@ ==> {
                &&& r.expr@ == self.expr@
                &&& (r.expr is Variable) == (self.expr is Variable)
                &&& final(ids).next == old(ids).next
            },
            self.shape@ != target_shape@ ==> {
                &&& r.expr is Variable
                &&& r.expr@ == tiled_view(
                    *f,
                    self.expr@,
                    self.shape@,
                    target_shape@,
                    old(ids).next,
                )
                &&& final(ids).next == next_id(old(ids).next)
            },
    {
        if same_sizes(target_shape.as_slice(), self.shape.as_slice()) {
            return Tensor::from_expr(self.expr.clone(), target_shape);
        }
        let src_flat: Vec<u64> = self.to_flat_f64(engine, f);
        proof {
            lemma_has_source(self.shape@, target_shape@);
            lemma_tiled(src_flat@, self.shape@, target_shape@);
        }
        let vals: Vec<u64> = broadcast_elements(&src_flat, &self.shape, &target_shape);
        let d: DataType = self.expr.data_type();
        let scale: Option<u32> = self.expr.get_scale();
        let steal: bool = should_steal_sign(d, vals.as_slice());
        let data: Vec<u8> = pack_values(engine, vals.as_slice(), d, scale, steal, false, f);
        let expr: Expr = flat_var(ids.fetch(), "broadcast", d, vals.len(), data, scale, steal);
        Tensor::from_expr(expr, target_shape)
    }
}

/// A target with elements has a source with elements.
proof fn lemma_has_source(src: Seq<usize>, tgt: Seq<usize>)
    requires
        shape::broadcasts_to(src, tgt),
    ensures
        numel(tgt) > 0 ==> numel(src) > 0,
{
    if numel(tgt) > 0 {
        let padded = padded_shape(src, tgt.len());
        shape::law_padding_keeps_numel(src, tgt.len());
        shape::lemma_numel(padded);
        shape::lemma_numel(tgt);
        assert forall|j: int| 0 <= j < tgt.len() implies (#[trigger] padded[j] == tgt[j]
            || padded[j] == 1) by {
            let x = padded_shape(src, tgt.len())[j];
            assert(x == tgt[j] || x == 1);
        }
        shape::law_source_index_in_range(0, padded, tgt, 0);
    }
}

// ─── Arithmetic ──────────────────────────────────────────────────────────────

/// That a tensor can be aligned to a joint shape: broadcast to it, or executed
/// where it has that shape and is not a variable.
pub open spec fn alignable(a: Tensor, joint: Seq<usize>) -> bool {
    &&& a.wf()
    &&& a.broadcastable(joint)
    &&& a.shape@ == joint && !(a.expr is Variable) ==> cpu_ready(a.expr@)
}

/// What a tensor becomes when it is aligned to a joint shape, and the next id:
/// a variable of that shape stays, an expression of that shape is executed, all
/// else is broadcast.
pub open spec fn aligned<
    F: Fn(FloatOp, u64, u64) -> u64,
    C: Fn(&KernelPlan, &Vec<Vec<u64>>, usize) -> Vec<u64>,
>(f: F, run: C, a: Tensor, joint: Seq<usize>, id: usize, r: Expr, next: usize) -> bool {
    if a.shape@ != joint {
        r@ == tiled_view(f, a.expr@, a.shape@, joint, id) && next == next_id(id)
    } else if a.expr is Variable {
        r@ == a.expr@ && next == id
    } else {
        cpu_execution(f, run, a.expr@, r) && next == id
    }
}

/// That two operands came out of the alignment of two tensors.
pub open spec fn combined<
    F: Fn(FloatOp, u64, u64) -> u64,
    C: Fn(&KernelPlan, &Vec<Vec<u64>>, usize) -> Vec<u64>,
>(
    f: F,
    run: C,
    a: Tensor,
    b: Tensor,
    id: usize,
    next: usize,
    x: Expr,
    y: Expr,
) -> bool {
    let joint = joint_shape(a.shape@, b.shape@);
    exists|mid: usize|
        #[trigger] aligned(f, run, a, joint, id, x, mid) && aligned(f, run, b, joint, mid, y, next)
}

/// That two tensors can be combined element by element.
pub open spec fn combinable(a: Tensor, b: Tensor) -> bool {
    let joint = joint_shape(a.shape@, b.shape@);
    &&& compatible(a.shape@, b.shape@)
    &&& alignable(a, joint)
    &&& alignable(b, joint)
}

impl Tensor {
    fn align<
        F: Fn(FloatOp, u64, u64) -> u64,
        C: Fn(&KernelPlan, &Vec<Vec<u64>>, usize) -> Vec<u64>,
    >(
        &self,
        engine: &HardwareEngine,
        joint: &Vec<usize>,
        ids: &mut IdCounter,
        run: &C,
        f: &F,
    ) -> (r: Expr)
        requires
            is_float_unit(*f),
            is_double_runner(*run),
            alignable(*self, joint@),
        ensures
            aligned(*f, *run, *self, joint@, old(ids).next, r, final(ids).next),
    {
        let a: Tensor = self.broadcast_to(engine, copy_sizes(joint.as_slice()), ids, f);
        match &a.expr {
            Expr::Variable { .. } => a.expr,
            _ => execute_expr_cpu(engine, &a.expr, run, f),
        }
    }

    /// Aligns two tensors to their joint shape.
    fn align_broadcast<
        F: Fn(FloatOp, u64, u64) -> u64,
        C: Fn(&KernelPlan, &Vec<Vec<u64>>, usize) -> Vec<u64>,
    >(
        &self,
        other: &Tensor,
        engine: &HardwareEngine,
        ids: &mut IdCounter,
        run: &C,
        f: &F,
    ) -> (r: (Expr, Expr, Vec<usize>))
        requires
            is_float_unit(*f),
            is_double_runner(*run),
            combinable(*self, *other),
        ensures
            combined(*f, *run, *self, *other, old(ids).next, final(ids).next, r.0, r.1),
            r.2@ == joint_shape(self.shape@, other.shape@),
    {
        let joint: Vec<usize> = broadcast_shape(self.shape.as_slice(), other.shape.as_slice());
        let a: Expr = self.align(engine, &joint, ids, run, f);
        let ghost mid = ids.next;
        let b: Expr = other.align(engine, &joint, ids, run, f);
        assert(aligned(*f, *run, *self, joint@, old(ids).next, a, mid));
        (a, b, joint)
    }

    /// The sum of two tensors, broadcast to their joint shape.
    pub fn add<
        F: Fn(FloatOp, u64, u64) -> u64,
        C: Fn(&KernelPlan, &Vec<Vec<u64>>, usize) -> Vec<u64>,
    >(
        &self,
        other: &Tensor,
        engine: &HardwareEngine,
        ids: &mut IdCounter,
        run: &C,
        f: &F,
    ) -> (r: Tensor)
        requires
            is_float_unit(*f),
            is_double_runner(*run),
            combinable(*self, *other),
        ensures
            r.wf(),
            r.shape@ == joint_shape(self.shape@, other.shape@),
            exists|x: Expr, y: Expr|
                {
                    &&& #[trigger] combined(
                        *f,
                        *run,
                        *self,
                        *other,
                        old(ids).next,
                        final(ids).next,
                        x,
                        y,
                    )
                    &&& r.expr@ == (ExprView::Add { left: Box::new(x@), right: Box::new(y@) })
                },
    {
        let (a, b, shape) = self.align_broadcast(other, engine, ids, run, f);
        Tensor::from_expr(a.add(b), shape)
    }

    /// The difference of two tensors, broadcast to their joint shape.
    pub fn sub<
        F: Fn(FloatOp, u64, u64) -> u64,
        C: Fn(&KernelPlan, &Vec<Vec<u64>>, usize) -> Vec<u64>,
    >(
        &self,
        other: &Tensor,
        engine: &HardwareEngine,
        ids: &mut IdCounter,
        run: &C,
        f: &F,
    ) -> (r: Tensor)
        requires
            is_float_unit(*f),
            is_double_runner(*run),
            combinable(*self, *other),
        ensures
            r.wf(),
            r.shape@ == joint_shape(self.shape@, other.shape@),
            exists|x: Expr, y: Expr|
                {
                    &&& #[trigger] combined(
                        *f,
                        *run,
                        *self,
                        *other,
                        old(ids).next,
                        final(ids).next,
                        x,
                        y,
                    )
                    &&& r.expr@ == (ExprView::Sub { left: Box::new(x@), right: Box::new(y@) })
                },
    {
        let (a, b, shape) = self.align_broadcast(other, engine, ids, run, f);
        Tensor::from_expr(a.sub(b), shape)
    }

    /// The product of two tensors, broadcast to their joint shape.
    pub fn mul<
        F: Fn(FloatOp, u64, u64) -> u64,
        C: Fn(&KernelPlan, &Vec<Vec<u64>>, usize) -> Vec<u64>,
    >(
        &self,
        other: &Tensor,
        engine: &HardwareEngine,
        ids: &mut IdCounter,
        run: &C,
        f: &F,
    ) -> (r: Tensor)
        requires
            is_float_unit(*f),
            is_double_runner(*run),
            combinable(*self, *other),
        ensures
            r.wf(),
            r.shape@ == joint_shape(self.shape@, other.shape@),
            exists|x: Expr, y: Expr|
                {
                    &&& #[trigger] combined(
                        *f,
                        *run,
                        *self,
                        *other,
                        old(ids).next,
                        final(ids).next,
                        x,
                        y,
                    )
                    &&& r.expr@ == (ExprView::Mul { left: Box::new(x@), right: Box::new(y@) })
                },
    {
        let (a, b, shape) = self.align_broadcast(other, engine, ids, run, f);
        Tensor::from_expr(a.mul(b), shape)
    }

    /// The quotient of two tensors, broadcast to their joint shape.
    pub fn div<
        F: Fn(FloatOp, u64, u64) -> u64,
        C: Fn(&KernelPlan, &Vec<Vec<u64>>, usize) -> Vec<u64>,
    >(
        &self,
        other: &Tensor,
        engine: &HardwareEngine,
        ids: &mut IdCounter,
        run: &C,
        f: &F,
    ) -> (r: Tensor)
        requires
            is_float_unit(*f),
            is_double_runner(*run),
            combinable(*self, *other),
        ensures
            r.wf(),
            r.shape@ == joint_shape(self.shape@, other.shape@),
            exists|x: Expr, y: Expr|
                {
                    &&& #[trigger] combined(
                        *f,
                        *run,
                        *self,
                        *other,
                        old(ids).next,
                        final(ids).next,
                        x,
                        y,
                    )
                    &&& r.expr@ == (ExprView::Div { left: Box::new(x@), right: Box::new(y@) })
                },
    {
        let (a, b, shape) = self.align_broadcast(other, engine, ids, run, f);
        Tensor::from_expr(a.div(b), shape)
    }

    /// The tensor with its expression executed on the named device. There is no
    /// result where the device could not run it.
    pub fn execute<
        F: Fn(FloatOp, u64, u64) -> u64,
        S: Fn(u64) -> String,
        C: Fn(&KernelPlan, &Vec<Vec<u64>>, usize) -> Vec<u64>,
        R: Fn(&KernelPlan, &Vec<PackedBuffer>, u32, usize) -> Option<Vec<u8>>,
        G: Fn(&String, &Vec<Vec<u32>>, usize) -> Option<Vec<u32>>,
    >(
        &self,
        engine: &HardwareEngine,
        device: &str,
        show: &S,
        run_cpu: &C,
        run_packed: &R,
        run_gpu: &G,
        f: &F,
    ) -> (r: Option<Tensor>)
        requires
            is_float_unit(*f),
            is_printer(*show),
            is_double_runner(*run_cpu),
            is_packed_runner(*run_packed),
            is_shader_runner(*run_gpu),
            self.wf(),
            cpu_ready(self.expr@),
            device_named(device@) is Secondary || device_named(device@) is Tertiary
                ==> packed_ready(self.expr@),
        ensures
            device_execution(
                *f,
                *show,
                *run_cpu,
                *run_packed,
                *run_gpu,
                self.expr@,
                device_named(device@),
                match r {
                    Some(t) => Some(t.expr),
                    None => None,
                },
            ),
            r matches Some(t) ==> t.wf() && t.shape@ == self.shape@,
    {
        match execute_expr_on_device(
            engine,
            &self.expr,
            device,
            show,
            run_cpu,
            run_packed,
            run_gpu,
            f,
        ) {
            Some(expr) => Some(Tensor::from_expr(expr, copy_sizes(self.shape.as_slice()))),
            None => None,
        }
    }
}

} // verus!
