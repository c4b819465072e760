//! Micro-kernels: one fused operation over the distinct variables of an
//! expression.

use crate::ir::{expr_countable, expr_size, Expr, ExprView};
use crate::soft_float::{float_answer, is_float_unit, F64Bits, FloatOp};
use crate::types::{dtype_width, measurable, scalar_double, scalar_type, DataType};
use std::collections::HashMap;
use vstd::prelude::*;

verus! {

/// A fused element-wise operation.
#[derive(Debug)]
pub enum FusedOp {
    /// The element of an input.
    Input(usize),
    /// A constant double.
    ConstVal(F64Bits),
    Add(Box<FusedOp>, Box<FusedOp>),
    Sub(Box<FusedOp>, Box<FusedOp>),
    Mul(Box<FusedOp>, Box<FusedOp>),
    Div(Box<FusedOp>, Box<FusedOp>),
}

/// A fused operation with its inputs.
#[derive(Debug)]
pub struct MicroKernel {
    pub op: FusedOp,
    /// The distinct variables, in the order of their first use.
    pub inputs: Vec<Expr>,
    pub size: usize,
}

// ─── Inputs ──────────────────────────────────────────────────────────────────

/// That an expression works on each element by itself.
pub open spec fn elementwise(e: ExprView) -> bool
    decreases e,
{
    match e {
        ExprView::Variable { .. } => true,
        ExprView::Constant { .. } => true,
        ExprView::Add { left, right } => elementwise(*left) && elementwise(*right),
        ExprView::Sub { left, right } => elementwise(*left) && elementwise(*right),
        ExprView::Mul { left, right } => elementwise(*left) && elementwise(*right),
        ExprView::Div { left, right } => elementwise(*left) && elementwise(*right),
        ExprView::DequantizeMatmul { .. } => false,
    }
}

/// That the constants of an expression have doubles.
pub open spec fn constants_measurable(e: ExprView) -> bool
    decreases e,
{
    match e {
        ExprView::Variable { .. } => true,
        ExprView::Constant { val } => measurable(val),
        ExprView::Add { left, right } => constants_measurable(*left) && constants_measurable(
            *right,
        ),
        ExprView::Sub { left, right } => constants_measurable(*left) && constants_measurable(
            *right,
        ),
        ExprView::Mul { left, right } => constants_measurable(*left) && constants_measurable(
            *right,
        ),
        ExprView::Div { left, right } => constants_measurable(*left) && constants_measurable(
            *right,
        ),
        ExprView::DequantizeMatmul { activations, weights, .. } => constants_measurable(
            *activations,
        ) && constants_measurable(*weights),
    }
}

/// The id of a variable.
pub open spec fn var_id(e: ExprView) -> usize {
    match e {
        ExprView::Variable { id, .. } => id,
        _ => 0,
    }
}

/// The ids of a list of variables.
pub open spec fn var_ids(vars: Seq<ExprView>) -> Seq<usize> {
    Seq::new(vars.len(), |i: int| var_id(vars[i]))
}

/// The variables of a list, then those of an expression whose ids are not yet
/// there, in the order of their first use.
pub open spec fn distinct_vars(e: ExprView, seen: Seq<ExprView>) -> Seq<ExprView>
    decreases e,
{
    match e {
        ExprView::Variable { id, .. } => if var_ids(seen).contains(id) {
            seen
        } else {
            seen.push(e)
        },
        ExprView::Constant { .. } => seen,
        ExprView::Add { left, right } => distinct_vars(*right, distinct_vars(*left, seen)),
        ExprView::Sub { left, right } => distinct_vars(*right, distinct_vars(*left, seen)),
        ExprView::Mul { left, right } => distinct_vars(*right, distinct_vars(*left, seen)),
        ExprView::Div { left, right } => distinct_vars(*right, distinct_vars(*left, seen)),
        ExprView::DequantizeMatmul { activations, weights, .. } => distinct_vars(
            *weights,
            distinct_vars(*activations, seen),
        ),
    }
}

/// A list of variables without two of one id.
pub open spec fn distinct_inputs(vars: Seq<ExprView>) -> bool {
    &&& forall|i: int| 0 <= i < vars.len() ==> (#[trigger] vars[i]) is Variable
    &&& var_ids(vars).no_duplicates()
}

/// That every variable of an expression is one of a list, by its id.
pub open spec fn covered(e: ExprView, ids: Seq<usize>) -> bool
    decreases e,
{
    match e {
        ExprView::Variable { id, .. } => ids.contains(id),
        ExprView::Constant { .. } => true,
        ExprView::Add { left, right } => covered(*left, ids) && covered(*right, ids),
        ExprView::Sub { left, right } => covered(*left, ids) && covered(*right, ids),
        ExprView::Mul { left, right } => covered(*left, ids) && covered(*right, ids),
        ExprView::Div { left, right } => covered(*left, ids) && covered(*right, ids),
        ExprView::DequantizeMatmul { activations, weights, .. } => covered(*activations, ids)
            && covered(*weights, ids),
    }
}

/// The fused operation of an expression over inputs with the given ids.
pub open spec fn fused<F: Fn(FloatOp, u64, u64) -> u64>(
    f: F,
    e: ExprView,
    ids: Seq<usize>,
) -> FusedOp
    decreases e,
{
    match e {
        ExprView::Variable { id, .. } => FusedOp::Input(ids.index_of(id) as usize),
        ExprView::Constant { val } => FusedOp::ConstVal(scalar_double(f, val)),
        ExprView::Add { left, right } => FusedOp::Add(
            Box::new(fused(f, *left, ids)),
            Box::new(fused(f, *right, ids)),
        ),
        ExprView::Sub { left, right } => FusedOp::Sub(
            Box::new(fused(f, *left, ids)),
            Box::new(fused(f, *right, ids)),
        ),
        ExprView::Mul { left, right } => FusedOp::Mul(
            Box::new(fused(f, *left, ids)),
            Box::new(fused(f, *right, ids)),
        ),
        ExprView::Div { left, right } => FusedOp::Div(
            Box::new(fused(f, *left, ids)),
            Box::new(fused(f, *right, ids)),
        ),
        ExprView::DequantizeMatmul { .. } => FusedOp::ConstVal(0),
    }
}

/// The views of a list of expressions.
pub open spec fn expr_views(s: Seq<Expr>) -> Seq<ExprView> {
    Seq::new(s.len(), |i: int| s[i]@)
}

/// What collecting the variables of an expression does to a list: it only
/// adds to it, keeps it free of repetition, and covers the expression.
pub open spec fn collects(e: ExprView, seen: Seq<ExprView>) -> bool {
    let out = distinct_vars(e, seen);
    &&& distinct_inputs(out)
    &&& seen.len() <= out.len()
    &&& out.take(seen.len() as int) == seen
    &&& covered(e, var_ids(out))
    &&& forall|id: usize| var_ids(seen).contains(id) ==> #[trigger] var_ids(out).contains(id)
}

/// Every expression's variables are collected.
pub proof fn lemma_distinct_vars(e: ExprView, seen: Seq<ExprView>)
    requires
        distinct_inputs(seen),
    ensures
        collects(e, seen),
    decreases e,
{
    match e {
        ExprView::Variable { id, .. } => {
            let out = distinct_vars(e, seen);
            if !var_ids(seen).contains(id) {
                assert(var_ids(out) =~= var_ids(seen).push(id));
                let ids = var_ids(out);
                assert forall|i: int, j: int|
                    0 <= i < ids.len() && 0 <= j < ids.len() && i != j implies ids[i] != ids[j] by {
                    if i == ids.len() - 1 {
                        assert(var_ids(seen)[j] == ids[j]);
                    } else if j == ids.len() - 1 {
                        assert(var_ids(seen)[i] == ids[i]);
                    } else {
                        assert(var_ids(seen)[i] == ids[i] && var_ids(seen)[j] == ids[j]);
                    }
                }
                assert(ids[ids.len() - 1] == id);
                assert forall|x: usize| var_ids(seen).contains(x) implies #[trigger] ids.contains(
                    x,
                ) by {
                    let k = choose|k: int| 0 <= k < var_ids(seen).len() && var_ids(seen)[k] == x;
                    assert(ids[k] == x);
                }
            }
            assert(out.take(seen.len() as int) =~= seen);
        },
        ExprView::Constant { .. } => {
            assert(seen.take(seen.len() as int) =~= seen);
        },
        ExprView::Add { left, right } => {
            lemma_distinct_vars(*left, seen);
            lemma_distinct_vars(*right, distinct_vars(*left, seen));
            lemma_distinct_pair(*left, *right, seen);
        },
        ExprView::Sub { left, right } => {
            lemma_distinct_vars(*left, seen);
            lemma_distinct_vars(*right, distinct_vars(*left, seen));
            lemma_distinct_pair(*left, *right, seen);
        },
        ExprView::Mul { left, right } => {
            lemma_distinct_vars(*left, seen);
            lemma_distinct_vars(*right, distinct_vars(*left, seen));
            lemma_distinct_pair(*left, *right, seen);
        },
        ExprView::Div { left, right } => {
            lemma_distinct_vars(*left, seen);
            lemma_distinct_vars(*right, distinct_vars(*left, seen));
            lemma_distinct_pair(*left, *right, seen);
        },
        ExprView::DequantizeMatmul { activations, weights, .. } => {
            lemma_distinct_vars(*activations, seen);
            lemma_distinct_vars(*weights, distinct_vars(*activations, seen));
            lemma_distinct_pair(*activations, *weights, seen);
        },
    }
}

/// A covered expression stays covered by more ids.
proof fn lemma_covered_more(e: ExprView, few: Seq<usize>, many: Seq<usize>)
    requires
        covered(e, few),
        forall|id: usize| few.contains(id) ==> #[trigger] many.contains(id),
    ensures
        covered(e, many),
    decreases e,
{
    match e {
        ExprView::Variable { .. } => {},
        ExprView::Constant { .. } => {},
        ExprView::Add { left, right } => {
            lemma_covered_more(*left, few, many);
            lemma_covered_more(*right, few, many);
        },
        ExprView::Sub { left, right } => {
            lemma_covered_more(*left, few, many);
            lemma_covered_more(*right, few, many);
        },
        ExprView::Mul { left, right } => {
            lemma_covered_more(*left, few, many);
            lemma_covered_more(*right, few, many);
        },
        ExprView::Div { left, right } => {
            lemma_covered_more(*left, few, many);
            lemma_covered_more(*right, few, many);
        },
        ExprView::DequantizeMatmul { activations, weights, .. } => {
            lemma_covered_more(*activations, few, many);
            lemma_covered_more(*weights, few, many);
        },
    }
}

proof fn lemma_distinct_pair(left: ExprView, right: ExprView, seen: Seq<ExprView>)
    requires
        collects(left, seen),
        collects(right, distinct_vars(left, seen)),
    ensures
        ({
            let mid = distinct_vars(left, seen);
            let out = distinct_vars(right, mid);
            &&& distinct_inputs(out)
            &&& seen.len() <= out.len()
            &&& out.take(seen.len() as int) == seen
            &&& covered(left, var_ids(out))
            &&& covered(right, var_ids(out))
            &&& forall|id: usize|
                var_ids(seen).contains(id) ==> #[trigger] var_ids(out).contains(id)
        }),
{
    let mid = distinct_vars(left, seen);
    let out = distinct_vars(right, mid);
    assert(out.take(seen.len() as int) =~= mid.take(seen.len() as int)) by {
        assert(out.take(mid.len() as int) == mid);
        assert forall|i: int| 0 <= i < seen.len() implies out[i] == mid[i] by {
            assert(out.take(mid.len() as int)[i] == out[i]);
        }
    }
    lemma_covered_more(left, var_ids(mid), var_ids(out));
    assert forall|id: usize| var_ids(seen).contains(id) implies #[trigger] var_ids(out).contains(
        id,
    ) by {
        assert(var_ids(mid).contains(id));
    }
}

/// Places in a list without repetition stay in every longer one.
proof fn lemma_index_stable(few: Seq<usize>, many: Seq<usize>, id: usize)
    requires
        few.no_duplicates(),
        many.no_duplicates(),
        few.len() <= many.len(),
        many.take(few.len() as int) == few,
        few.contains(id),
    ensures
        many.index_of(id) == few.index_of(id),
{
    let i = few.index_of(id);
    assert(0 <= i < few.len() && few[i] == id);
    assert(many.take(few.len() as int)[i] == many[i]);
    assert(many.contains(id)) by {
        assert(many[i] == id);
    }
    let j = many.index_of(id);
    assert(0 <= j < many.len() && many[j] == id);
}

/// A fused operation does not change when inputs are added.
proof fn lemma_fused_stable<F: Fn(FloatOp, u64, u64) -> u64>(
    f: F,
    e: ExprView,
    few: Seq<usize>,
    many: Seq<usize>,
)
    requires
        few.no_duplicates(),
        many.no_duplicates(),
        few.len() <= many.len(),
        many.take(few.len() as int) == few,
        covered(e, few),
    ensures
        fused(f, e, many) == fused(f, e, few),
    decreases e,
{
    match e {
        ExprView::Variable { id, .. } => {
            lemma_index_stable(few, many, id);
        },
        ExprView::Constant { .. } => {},
        ExprView::Add { left, right } => {
            lemma_fused_stable(f, *left, few, many);
            lemma_fused_stable(f, *right, few, many);
        },
        ExprView::Sub { left, right } => {
            lemma_fused_stable(f, *left, few, many);
            lemma_fused_stable(f, *right, few, many);
        },
        ExprView::Mul { left, right } => {
            lemma_fused_stable(f, *left, few, many);
            lemma_fused_stable(f, *right, few, many);
        },
        ExprView::Div { left, right } => {
            lemma_fused_stable(f, *left, few, many);
            lemma_fused_stable(f, *right, few, many);
        },
        ExprView::DequantizeMatmul { .. } => {},
    }
}

// ─── Meaning ─────────────────────────────────────────────────────────────────

/// The double that a fused operation yields for one element of each input.
pub open spec fn op_value<F: Fn(FloatOp, u64, u64) -> u64>(
    f: F,
    op: FusedOp,
    xs: Seq<u64>,
) -> u64
    decreases op,
{
    match op {
        FusedOp::Input(i) => xs[i as int],
        FusedOp::ConstVal(v) => v,
        FusedOp::Add(l, r) => float_answer(
            f,
            FloatOp::Add,
            op_value(f, *l, xs),
            op_value(f, *r, xs),
        ),
        FusedOp::Sub(l, r) => float_answer(
            f,
            FloatOp::Sub,
            op_value(f, *l, xs),
            op_value(f, *r, xs),
        ),
        FusedOp::Mul(l, r) => float_answer(
            f,
            FloatOp::Mul,
            op_value(f, *l, xs),
            op_value(f, *r, xs),
        ),
        FusedOp::Div(l, r) => float_answer(
            f,
            FloatOp::Div,
            op_value(f, *l, xs),
            op_value(f, *r, xs),
        ),
    }
}

/// The double that an expression yields where the variable with id `i` is
/// `env(i)`.
pub open spec fn expr_value<F: Fn(FloatOp, u64, u64) -> u64>(
    f: F,
    e: ExprView,
    env: spec_fn(usize) -> u64,
) -> u64
    decreases e,
{
    match e {
        ExprView::Variable { id, .. } => env(id),
        ExprView::Constant { val } => scalar_double(f, val),
        ExprView::Add { left, right } => float_answer(
            f,
            FloatOp::Add,
            expr_value(f, *left, env),
            expr_value(f, *right, env),
        ),
        ExprView::Sub { left, right } => float_answer(
            f,
            FloatOp::Sub,
            expr_value(f, *left, env),
            expr_value(f, *right, env),
        ),
        ExprView::Mul { left, right } => float_answer(
            f,
            FloatOp::Mul,
            expr_value(f, *left, env),
            expr_value(f, *right, env),
        ),
        ExprView::Div { left, right } => float_answer(
            f,
            FloatOp::Div,
            expr_value(f, *left, env),
            expr_value(f, *right, env),
        ),
        ExprView::DequantizeMatmul { .. } => 0,
    }
}

/// Fusing an expression keeps its value: the fused operation on the elements of
/// its inputs yields what the expression yields.
pub proof fn law_fusion_keeps_value<F: Fn(FloatOp, u64, u64) -> u64>(
    f: F,
    e: ExprView,
    ids: Seq<usize>,
    env: spec_fn(usize) -> u64,
)
    requires
        elementwise(e),
        covered(e, ids),
        ids.len() <= usize::MAX,
    ensures
        op_value(f, fused(f, e, ids), Seq::new(ids.len(), |i: int| env(ids[i]))) == expr_value(
            f,
            e,
            env,
        ),
    decreases e,
{
    match e {
        ExprView::Variable { id, .. } => {
            let i = ids.index_of(id);
            assert(0 <= i < ids.len() && ids[i] == id);
        },
        ExprView::Constant { .. } => {},
        ExprView::Add { left, right } => {
            law_fusion_keeps_value(f, *left, ids, env);
            law_fusion_keeps_value(f, *right, ids, env);
        },
        ExprView::Sub { left, right } => {
            law_fusion_keeps_value(f, *left, ids, env);
            law_fusion_keeps_value(f, *right, ids, env);
        },
        ExprView::Mul { left, right } => {
            law_fusion_keeps_value(f, *left, ids, env);
            law_fusion_keeps_value(f, *right, ids, env);
        },
        ExprView::Div { left, right } => {
            law_fusion_keeps_value(f, *left, ids, env);
            law_fusion_keeps_value(f, *right, ids, env);
        },
        ExprView::DequantizeMatmul { .. } => {},
    }
}

/// That a fused operation reads none but the first `n` inputs.
pub open spec fn op_reads_below(op: FusedOp, n: nat) -> bool
    decreases op,
{
    match op {
        FusedOp::Input(i) => i < n,
        FusedOp::ConstVal(_) => true,
        FusedOp::Add(l, r) => op_reads_below(*l, n) && op_reads_below(*r, n),
        FusedOp::Sub(l, r) => op_reads_below(*l, n) && op_reads_below(*r, n),
        FusedOp::Mul(l, r) => op_reads_below(*l, n) && op_reads_below(*r, n),
        FusedOp::Div(l, r) => op_reads_below(*l, n) && op_reads_below(*r, n),
    }
}

/// The fused operation of a covered expression reads its inputs alone.
pub proof fn lemma_fused_reads<F: Fn(FloatOp, u64, u64) -> u64>(
    f: F,
    e: ExprView,
    ids: Seq<usize>,
)
    requires
        covered(e, ids),
        ids.len() <= usize::MAX,
    ensures
        op_reads_below(fused(f, e, ids), ids.len()),
    decreases e,
{
    match e {
        ExprView::Variable { id, .. } => {
            let i = ids.index_of(id);
            assert(0 <= i < ids.len() && ids[i] == id);
        },
        ExprView::Constant { .. } => {},
        ExprView::Add { left, right } => {
            lemma_fused_reads(f, *left, ids);
            lemma_fused_reads(f, *right, ids);
        },
        ExprView::Sub { left, right } => {
            lemma_fused_reads(f, *left, ids);
            lemma_fused_reads(f, *right, ids);
        },
        ExprView::Mul { left, right } => {
            lemma_fused_reads(f, *left, ids);
            lemma_fused_reads(f, *right, ids);
        },
        ExprView::Div { left, right } => {
            lemma_fused_reads(f, *left, ids);
            lemma_fused_reads(f, *right, ids);
        },
        ExprView::DequantizeMatmul { .. } => {},
    }
}

// ─── Generation ──────────────────────────────────────────────────────────────

/// The place of the variable with the given id in a list, if it is there.
fn find_input(inputs: &Vec<Expr>, id: usize) -> (r: Option<usize>)
    requires
        distinct_inputs(expr_views(inputs@)),
    ensures
        match r {
            Some(p) => {
                &&& p < inputs@.len()
                &&& var_ids(expr_views(inputs@))[p as int] == id
                &&& var_ids(expr_views(inputs@)).index_of(id) == p
            },
            None => !var_ids(expr_views(inputs@)).contains(id),
        },
{
    let ghost ids = var_ids(expr_views(inputs@));
    let mut i: usize = 0;
    while i < inputs.len()
        invariant
            i <= inputs@.len(),
            ids == var_ids(expr_views(inputs@)),
            distinct_inputs(expr_views(inputs@)),
            forall|j: int| 0 <= j < i ==> #[trigger] ids[j] != id,
        decreases inputs@.len() - i,
    {
        assert(expr_views(inputs@)[i as int] is Variable);
        if let Expr::Variable { id: other, .. } = &inputs[i] {
            assert(ids[i as int] == *other);
            if *other == id {
                proof {
                    assert(ids.contains(id));
                    let p = ids.index_of(id);
                    assert(ids[p] == id && 0 <= p < ids.len());
                }
                return Some(i);
            }
        }
        i = i + 1;
    }
    None
}

impl MicroKernel {
    /// That a kernel is what an expression fuses to.
    pub open spec fn is_kernel_of<F: Fn(FloatOp, u64, u64) -> u64>(
        &self,
        f: F,
        e: ExprView,
    ) -> bool {
        &&& expr_views(self.inputs@) == distinct_vars(e, Seq::empty())
        &&& self.op == fused(f, e, var_ids(expr_views(self.inputs@)))
        &&& self.size as nat == expr_size(e)
    }

    /// That the inputs are distinct variables and that the operation reads none
    /// but them.
    pub open spec fn wf(&self) -> bool {
        &&& distinct_inputs(expr_views(self.inputs@))
        &&& op_reads_below(self.op, self.inputs@.len())
    }

    /// Fuses an expression.
    pub fn generate<F: Fn(FloatOp, u64, u64) -> u64>(expr: &Expr, f: &F) -> (r: Self)
        requires
            is_float_unit(*f),
            elementwise(expr@),
            constants_measurable(expr@),
            expr_countable(expr@),
        ensures
            r.is_kernel_of(*f, expr@),
            r.wf(),
            covered(expr@, var_ids(expr_views(r.inputs@))),
    {
        let mut inputs: Vec<Expr> = Vec::new();
        proof {
            assert(expr_views(inputs@) =~= Seq::<ExprView>::empty());
            assert(var_ids(Seq::<ExprView>::empty()) =~= Seq::<usize>::empty());
        }
        let op: FusedOp = Self::traverse(expr, &mut inputs, f);
        let size: usize = expr.size();
        let count: usize = inputs.len();
        proof {
            assert(var_ids(expr_views(inputs@)).len() == count);
            lemma_fused_reads(*f, expr@, var_ids(expr_views(inputs@)));
        }
        MicroKernel { op, inputs, size }
    }

    fn traverse<F: Fn(FloatOp, u64, u64) -> u64>(
        node: &Expr,
        inputs: &mut Vec<Expr>,
        f: &F,
    ) -> (op: FusedOp)
        requires
            is_float_unit(*f),
            elementwise(node@),
            constants_measurable(node@),
            distinct_inputs(expr_views(old(inputs)@)),
        ensures
            expr_views(final(inputs)@) == distinct_vars(node@, expr_views(old(inputs)@)),
            collects(node@, expr_views(old(inputs)@)),
            op == fused(*f, node@, var_ids(expr_views(final(inputs)@))),
        decreases *node,
    {
        let ghost before = expr_views(inputs@);
        proof {
            lemma_distinct_vars(node@, before);
        }
        match node {
            Expr::Variable { id, .. } => {
                match find_input(inputs, *id) {
                    Some(p) => FusedOp::Input(p),
                    None => {
                        let p: usize = inputs.len();
                        inputs.push(node.clone());
                        proof {
                            let after = expr_views(inputs@);
                            assert(after =~= before.push(node@));
                            let ids = var_ids(after);
                            assert(ids[p as int] == *id);
                            let q = ids.index_of(*id);
                            assert(0 <= q < ids.len() && ids[q] == *id);
                        }
                        FusedOp::Input(p)
                    },
                }
            },
            Expr::Constant { val } => FusedOp::ConstVal(val.to_double(f)),
            Expr::Add { left, right } => {
                let l: FusedOp = Self::traverse(left, inputs, f);
                let ghost mid = expr_views(inputs@);
                let r: FusedOp = Self::traverse(right, inputs, f);
                proof {
                    lemma_prefix_ids(mid, expr_views(inputs@));
                    lemma_fused_stable(*f, left@, var_ids(mid), var_ids(expr_views(inputs@)));
                }
                FusedOp::Add(Box::new(l), Box::new(r))
            },
            Expr::Sub { left, right } => {
                let l: FusedOp = Self::traverse(left, inputs, f);
                let ghost mid = expr_views(inputs@);
                let r: FusedOp = Self::traverse(right, inputs, f);
                proof {
                    lemma_prefix_ids(mid, expr_views(inputs@));
                    lemma_fused_stable(*f, left@, var_ids(mid), var_ids(expr_views(inputs@)));
                }
                FusedOp::Sub(Box::new(l), Box::new(r))
            },
            Expr::Mul { left, right } => {
                let l: FusedOp = Self::traverse(left, inputs, f);
                let ghost mid = expr_views(inputs@);
                let r: FusedOp = Self::traverse(right, inputs, f);
                proof {
                    lemma_prefix_ids(mid, expr_views(inputs@));
                    lemma_fused_stable(*f, left@, var_ids(mid), var_ids(expr_views(inputs@)));
                }
                FusedOp::Mul(Box::new(l), Box::new(r))
            },
            Expr::Div { left, right } => {
                let l: FusedOp = Self::traverse(left, inputs, f);
                let ghost mid = expr_views(inputs@);
                let r: FusedOp = Self::traverse(right, inputs, f);
                proof {
                    lemma_prefix_ids(mid, expr_views(inputs@));
                    lemma_fused_stable(*f, left@, var_ids(mid), var_ids(expr_views(inputs@)));
                }
                FusedOp::Div(Box::new(l), Box::new(r))
            },
            Expr::DequantizeMatmul { .. } => FusedOp::ConstVal(0),
        }
    }
}

proof fn lemma_prefix_ids(few: Seq<ExprView>, many: Seq<ExprView>)
    requires
        few.len() <= many.len(),
        many.take(few.len() as int) == few,
    ensures
        var_ids(many).take(var_ids(few).len() as int) == var_ids(few),
{
    assert forall|i: int| 0 <= i < few.len() implies var_ids(many)[i] == var_ids(few)[i] by {
        assert(many.take(few.len() as int)[i] == many[i]);
    }
    assert(var_ids(many).take(var_ids(few).len() as int) =~= var_ids(few));
}

// ─── What a kernel needs ─────────────────────────────────────────────────────

/// That a type takes more than a word or changes with its values.
pub open spec fn needs_limbs(d: DataType) -> bool {
    match d {
        DataType::Float(b) => b > 64,
        DataType::Int(b) => b > 64,
        DataType::ScalableInt(_) => true,
        DataType::ScalableFloat(_, _) => true,
        _ => false,
    }
}

/// That an expression has a leaf whose type takes more than a word or changes
/// with its values.
pub open spec fn expr_needs_limbs(e: ExprView) -> bool
    decreases e,
{
    match e {
        ExprView::Variable { dtype, .. } => needs_limbs(dtype),
        ExprView::Constant { val } => needs_limbs(scalar_type(val)),
        ExprView::Add { left, right } => expr_needs_limbs(*left) || expr_needs_limbs(*right),
        ExprView::Sub { left, right } => expr_needs_limbs(*left) || expr_needs_limbs(*right),
        ExprView::Mul { left, right } => expr_needs_limbs(*left) || expr_needs_limbs(*right),
        ExprView::Div { left, right } => expr_needs_limbs(*left) || expr_needs_limbs(*right),
        ExprView::DequantizeMatmul { activations, weights, .. } => expr_needs_limbs(*activations)
            || expr_needs_limbs(*weights),
    }
}

fn type_needs_limbs(d: DataType) -> (r: bool)
    ensures
        r == needs_limbs(d),
{
    match d {
        DataType::Float(b) => b > 64,
        DataType::Int(b) => b > 64,
        DataType::ScalableInt(_) => true,
        DataType::ScalableFloat(_, _) => true,
        _ => false,
    }
}

/// Whether an expression has to be evaluated limb by limb.
pub fn needs_limb_interpreter(expr: &Expr) -> (r: bool)
    ensures
        r == expr_needs_limbs(expr@),
    decreases *expr,
{
    match expr {
        Expr::Variable { dtype, .. } => type_needs_limbs(*dtype),
        Expr::Constant { val } => type_needs_limbs(val.data_type()),
        Expr::Add { left, right } => needs_limb_interpreter(left) || needs_limb_interpreter(right),
        Expr::Sub { left, right } => needs_limb_interpreter(left) || needs_limb_interpreter(right),
        Expr::Mul { left, right } => needs_limb_interpreter(left) || needs_limb_interpreter(right),
        Expr::Div { left, right } => needs_limb_interpreter(left) || needs_limb_interpreter(right),
        Expr::DequantizeMatmul { activations, weights, .. } => needs_limb_interpreter(activations)
            || needs_limb_interpreter(weights),
    }
}

/// A map of widths with those of an expression's variables; of several
/// variables with one id the last one counts.
pub open spec fn widths_with(e: ExprView, m: Map<usize, u32>) -> Map<usize, u32>
    decreases e,
{
    match e {
        ExprView::Variable { id, dtype, .. } => m.insert(id, dtype_width(dtype)),
        ExprView::Constant { .. } => m,
        ExprView::Add { left, right } => widths_with(*right, widths_with(*left, m)),
        ExprView::Sub { left, right } => widths_with(*right, widths_with(*left, m)),
        ExprView::Mul { left, right } => widths_with(*right, widths_with(*left, m)),
        ExprView::Div { left, right } => widths_with(*right, widths_with(*left, m)),
        ExprView::DequantizeMatmul { activations, weights, .. } => widths_with(
            *weights,
            widths_with(*activations, m),
        ),
    }
}

/// Collects the widths of an expression's variables by their ids.
pub fn collect_original_widths(node: &Expr, map: &mut HashMap<usize, u32>)
    ensures
        final(map)@ == widths_with(node@, old(map)@),
    decreases *node,
{
    broadcast use vstd::std_specs::hash::group_hash_axioms;

    match node {
        Expr::Variable { id, dtype, .. } => {
            map.insert(*id, dtype.bit_width());
        },
        Expr::Constant { .. } => {},
        Expr::Add { left, right } => {
            collect_original_widths(left, map);
            collect_original_widths(right, map);
        },
        Expr::Sub { left, right } => {
            collect_original_widths(left, map);
            collect_original_widths(right, map);
        },
        Expr::Mul { left, right } => {
            collect_original_widths(left, map);
            collect_original_widths(right, map);
        },
        Expr::Div { left, right } => {
            collect_original_widths(left, map);
            collect_original_widths(right, map);
        },
        Expr::DequantizeMatmul { activations, weights, .. } => {
            collect_original_widths(activations, map);
            collect_original_widths(weights, map);
        },
    }
}

} // verus!
