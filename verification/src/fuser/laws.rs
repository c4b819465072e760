//! What kernels compute: the expressions that they are made from.

use crate::bits;
use crate::bits::{
    bits_nat, byte_bit, lemma_bits_nat, lemma_nat_bits_eq, limb_count, nat_bit, signed_value,
    wrap_i64,
};
use crate::elements::{element_scalar, packed_values, value_limbs, wide_value_scalar};
use crate::fuser::exec::{is_double_plan, is_float_mode, is_packed_plan, var_bytes};
use crate::fuser::helpers::{coded_type, limb_len, limb_start, loaded, type_code};
use crate::fuser::kernel::{
    covered, distinct_vars, elementwise, expr_value, fused, law_fusion_keeps_value,
    lemma_distinct_vars, lemma_fused_reads, op_reads_below, op_value, var_ids, widths_with,
    FusedOp,
};
use crate::fuser::plan::{
    double_elements, original_width, output_stores, packed_input, packed_value, plan_exponent,
    plan_scale, stored_values, KernelPlan, OpVal, StoreVal,
};
use crate::fuser::truncate::f64_saturated;
use crate::fuser::words::{lemma_signed_fits, lemma_word_signed, trunc_div, word_of};
use crate::hardware::{trimmed_word, unpacked_bit, unpacked_word};
use crate::ir::{expr_scale, ExprView};
use crate::soft_float::FloatOp;
use crate::types::laws::{int_fits, law_packed_element, law_twos_complement, trimmed};
use crate::types::{codable, dtype_width, scalar_double, DataType};
use vstd::arithmetic::div_mod::*;
use vstd::arithmetic::mul::*;
use vstd::arithmetic::power2::*;
use vstd::prelude::*;

verus! {

// ─── Kernels over doubles ────────────────────────────────────────────────────

/// A kernel over doubles stores what its expression yields, where each input
/// holds the variable with its id.
pub proof fn law_double_kernel_computes_expression<F: Fn(FloatOp, u64, u64) -> u64>(
    f: F,
    plan: KernelPlan,
    e: ExprView,
    bufs: Seq<Seq<u8>>,
    i: nat,
    env: spec_fn(usize) -> u64,
)
    requires
        elementwise(e),
        ({
            let ids = var_ids(distinct_vars(e, Seq::empty()));
            &&& ids.len() <= usize::MAX
            &&& is_double_plan(f, plan, fused(f, e, ids), ids.len())
            &&& forall|k: int|
                0 <= k < ids.len() ==> #[trigger] env(ids[k]) == double_elements(
                    bufs,
                    ids.len(),
                    i,
                )[k]
        }),
    ensures
        stored_values(f, plan.insts@, plan.stores@, bufs, i) == seq![
            StoreVal { width: 64, limb: 0, val: expr_value(f, e, env) },
        ],
{
    let vars = distinct_vars(e, Seq::empty());
    let ids = var_ids(vars);
    lemma_distinct_vars(e, Seq::empty());
    law_fusion_keeps_value(f, e, ids, env);
    assert(double_elements(bufs, ids.len(), i) =~= Seq::new(ids.len(), |k: int| env(ids[k])));
}

// ─── Loads ───────────────────────────────────────────────────────────────────

/// A limb that a kernel loads is the word that unpacking gives.
pub proof fn law_load_is_unpack(buf: Seq<u8>, i: nat, w: u32, limb: u32)
    requires
        1 <= w,
        limb < limb_count(w as nat),
    ensures
        loaded(buf, i, w, limb) == unpacked_word(
            buf,
            w as nat,
            (i * limb_count(w as nat) + limb) as nat,
        ),
{
    let k = limb_count(w as nat);
    let at = (i * k + limb) as nat;
    let p = |t: nat| byte_bit(buf, limb_start(i, w, limb) + t);
    let q = |t: nat| unpacked_bit(buf, w as nat, at, t);
    let n = limb_len(w, limb);
    lemma_fundamental_div_mod_converse(at as int, k as int, i as int, limb as int);
    assert(at / k == i && at % k == limb as nat) by {
        lemma_mul_is_commutative(i as int, k as int);
    }
    lemma_bits_nat(p, n);
    lemma_bits_nat(q, 64);
    bits::lemma_pow2_64();
    bits::lemma_pow2_le(n, 64);
    assert forall|j: nat| j < 64 implies #[trigger] nat_bit(bits_nat(p, n), j) == nat_bit(
        bits_nat(q, 64),
        j,
    ) by {
        assert(nat_bit(bits_nat(q, 64), j) == q(j));
        assert(nat_bit(bits_nat(p, n), j) == (j < n && p(j)));
        if j < n {
            assert(limb_start(i, w, limb) + j == i * w as nat + (64 * limb + j) as nat);
        }
    }
    lemma_nat_bits_eq(bits_nat(p, n), bits_nat(q, 64), 64);
}

/// That a variable has elements of at most two words, and that no variable with
/// its id has another width.
pub open spec fn short_var(v: ExprView, widths: Map<usize, u32>) -> bool {
    match v {
        ExprView::Variable { id, dtype, .. } => {
            &&& 1 <= dtype_width(dtype) <= 128
            &&& original_width(widths, id, dtype_width(dtype)) == dtype_width(dtype)
        },
        _ => false,
    }
}

/// Element `i` of a variable as a double.
pub open spec fn element_double<F: Fn(FloatOp, u64, u64) -> u64>(
    f: F,
    v: ExprView,
    i: nat,
) -> u64 {
    match v {
        ExprView::Variable { dtype, data, scale, steal_sign, .. } => scalar_double(
            f,
            element_scalar(data, i, dtype, scale, steal_sign),
        ),
        _ => 0,
    }
}

/// A kernel that computes with floats reads the elements of its variables.
proof fn lemma_input<F: Fn(FloatOp, u64, u64) -> u64>(
    f: F,
    v: ExprView,
    widths: Map<usize, u32>,
    max_bits: u32,
    i: nat,
)
    requires
        short_var(v, widths),
    ensures
        packed_input(f, v, widths, true, max_bits, var_bytes(v), i) == OpVal::Float(
            element_double(f, v, i),
        ),
{
    match v {
        ExprView::Variable { dtype, data, scale, steal_sign, .. } => {
            let w = dtype_width(dtype);
            let k = limb_count(w as nat);
            law_load_is_unpack(data, i, w, 0);
            let words = Seq::new(k, |l: int| unpacked_word(data, w as nat, (i * k + l) as nat));
            let low = loaded(data, i, w, 0);
            assert(words[0] == low);
            if k > 1 {
                assert(k == 2);
                law_load_is_unpack(data, i, w, 1);
                assert(words =~= seq![low, loaded(data, i, w, 1)]);
            }
            assert(coded_type(type_code(dtype), w, plan_exponent(dtype)) == dtype);
        },
        _ => {},
    }
}

proof fn lemma_op<F: Fn(FloatOp, u64, u64) -> u64>(
    f: F,
    op: FusedOp,
    vars: Seq<ExprView>,
    widths: Map<usize, u32>,
    max_bits: u32,
    bufs: Seq<Seq<u8>>,
    i: nat,
    xs: Seq<u64>,
)
    requires
        op_reads_below(op, vars.len()),
        bufs.len() == vars.len(),
        xs.len() == vars.len(),
        forall|k: int|
            0 <= k < vars.len() ==> packed_input(
                f,
                #[trigger] vars[k],
                widths,
                true,
                max_bits,
                bufs[k],
                i,
            ) == OpVal::Float(xs[k]),
    ensures
        packed_value(f, op, vars, widths, true, max_bits, bufs, i) == OpVal::Float(
            op_value(f, op, xs),
        ),
    decreases op,
{
    match op {
        FusedOp::Input(k) => {
            assert(packed_input(f, vars[k as int], widths, true, max_bits, bufs[k as int], i)
                == OpVal::Float(xs[k as int]));
        },
        FusedOp::ConstVal(_) => {},
        FusedOp::Add(l, r) => {
            lemma_op(f, *l, vars, widths, max_bits, bufs, i, xs);
            lemma_op(f, *r, vars, widths, max_bits, bufs, i, xs);
        },
        FusedOp::Sub(l, r) => {
            lemma_op(f, *l, vars, widths, max_bits, bufs, i, xs);
            lemma_op(f, *r, vars, widths, max_bits, bufs, i, xs);
        },
        FusedOp::Mul(l, r) => {
            lemma_op(f, *l, vars, widths, max_bits, bufs, i, xs);
            lemma_op(f, *r, vars, widths, max_bits, bufs, i, xs);
        },
        FusedOp::Div(l, r) => {
            lemma_op(f, *l, vars, widths, max_bits, bufs, i, xs);
            lemma_op(f, *r, vars, widths, max_bits, bufs, i, xs);
        },
    }
}

// ─── Kernels that compute with floats ────────────────────────────────────────

/// That all variables of an expression are short, and that those with one id have
/// one width.
pub open spec fn short_vars(e: ExprView) -> bool {
    let vars = distinct_vars(e, Seq::empty());
    forall|k: int|
        0 <= k < vars.len() ==> short_var(#[trigger] vars[k], widths_with(e, Map::empty()))
}

/// The bytes of the inputs of an expression.
pub open spec fn input_bytes(e: ExprView) -> Seq<Seq<u8>> {
    let vars = distinct_vars(e, Seq::empty());
    Seq::new(vars.len(), |k: int| var_bytes(vars[k]))
}

/// That an environment gives each variable of an expression its element `i`.
pub open spec fn is_element<F: Fn(FloatOp, u64, u64) -> u64>(
    f: F,
    e: ExprView,
    i: nat,
    env: spec_fn(usize) -> u64,
) -> bool {
    let vars = distinct_vars(e, Seq::empty());
    forall|k: int|
        0 <= k < vars.len() ==> env(var_ids(vars)[k]) == element_double(f, #[trigger] vars[k], i)
}

/// A kernel that computes with floats stores the limbs of what its expression
/// yields for the elements of its variables.
pub proof fn law_packed_kernel_computes_expression<F: Fn(FloatOp, u64, u64) -> u64>(
    f: F,
    plan: KernelPlan,
    e: ExprView,
    d: DataType,
    compute_bits: u32,
    i: nat,
    env: spec_fn(usize) -> u64,
)
    requires
        elementwise(e),
        is_float_mode(d),
        is_packed_plan(f, plan, e, d, compute_bits),
        short_vars(e),
        distinct_vars(e, Seq::empty()).len() <= usize::MAX,
        is_element(f, e, i, env),
    ensures
        stored_values(f, plan.insts@, plan.stores@, input_bytes(e), i) == output_stores(
            f,
            OpVal::Float(expr_value(f, e, env)),
            d,
            expr_scale(e),
        ),
{
    let vars = distinct_vars(e, Seq::empty());
    let ids = var_ids(vars);
    let widths = widths_with(e, Map::empty());
    let bufs = input_bytes(e);
    let xs = Seq::new(ids.len(), |k: int| env(ids[k]));
    lemma_distinct_vars(e, Seq::empty());
    lemma_fused_reads(f, e, ids);
    law_fusion_keeps_value(f, e, ids, env);
    assert forall|k: int| 0 <= k < vars.len() implies packed_input(
        f,
        #[trigger] vars[k],
        widths,
        true,
        compute_bits,
        bufs[k],
        i,
    ) == OpVal::Float(xs[k]) by {
        lemma_input(f, vars[k], widths, compute_bits, i);
        assert(env(ids[k]) == element_double(f, vars[k], i));
    }
    lemma_op(f, fused(f, e, ids), vars, widths, compute_bits, bufs, i, xs);
    assert(stored_values(f, plan.insts@, plan.stores@, bufs, i) == output_stores(
        f,
        packed_value(f, fused(f, e, ids), vars, widths, true, compute_bits, bufs, i),
        d,
        expr_scale(e),
    ));
}

/// That a buffer holds, for element `i`, what the stores of a plan write: of each
/// limb, the bits that lie within the width.
pub open spec fn holds_stores(out: Seq<u8>, i: nat, stores: Seq<StoreVal>) -> bool {
    forall|k: int|
        0 <= k < stores.len() ==> {
            let s = #[trigger] stores[k];
            loaded(out, i, s.width, s.limb) == trimmed_word(s.val, s.width as nat, s.limb as nat)
        }
}

/// Where a buffer holds what a kernel over packed floats stores, its element is
/// the one that packing the expression's values gives.
pub proof fn law_kernel_result_is_packed_value<F: Fn(FloatOp, u64, u64) -> u64>(
    f: F,
    vals: Seq<u64>,
    d: DataType,
    scale: Option<u32>,
    out: Seq<u8>,
    i: nat,
)
    requires
        codable(d, false),
        i < vals.len(),
        holds_stores(
            out,
            i,
            output_stores(f, OpVal::Float(vals[i as int]), d, scale),
        ),
    ensures
        element_scalar(out, i, d, scale, false) == element_scalar(
            packed_values(f, vals, d, scale, false, true),
            i,
            d,
            scale,
            false,
        ),
{
    let w = dtype_width(d);
    let k = limb_count(w as nat);
    let x = vals[i as int];
    let stores = output_stores(f, OpVal::Float(x), d, scale);
    let limbs = value_limbs(f, x, d, scale, false, true);
    crate::elements::lemma_codable_width(d, false);
    crate::elements::lemma_value_limbs_len(f, x, d, scale, false, true);
    law_packed_element(f, vals, d, scale, false, true, i);
    assert(wide_value_scalar(f, x, d, Some(plan_scale(scale))) == wide_value_scalar(
        f,
        x,
        d,
        scale,
    ));
    let words = Seq::new(k, |l: int| unpacked_word(out, w as nat, (i * k + l) as nat));
    assert forall|l: int| 0 <= l < k implies words[l] == trimmed(limbs, w as nat)[l] by {
        let s = stores[l];
        assert(s.width == w && s.limb == l);
        assert(loaded(out, i, s.width, s.limb) == trimmed_word(
            s.val,
            s.width as nat,
            s.limb as nat,
        ));
        law_load_is_unpack(out, i, w, l as u32);
        assert(s.val == limbs[l]);
    }
    assert(words =~= trimmed(limbs, w as nat));
}

// ─── Kernels over packed integers ────────────────────────────────────────────

/// That an expression has no division.
pub open spec fn undivided(e: ExprView) -> bool
    decreases e,
{
    match e {
        ExprView::Variable { .. } => true,
        ExprView::Constant { .. } => true,
        ExprView::Add { left, right } => undivided(*left) && undivided(*right),
        ExprView::Sub { left, right } => undivided(*left) && undivided(*right),
        ExprView::Mul { left, right } => undivided(*left) && undivided(*right),
        ExprView::Div { .. } => false,
        ExprView::DequantizeMatmul { .. } => false,
    }
}

/// The integer that an expression without divisions yields where the variable
/// with id `i` is `env(i)`. Constants are cut towards zero, and held to the range
/// of a word.
pub open spec fn int_value<F: Fn(FloatOp, u64, u64) -> u64>(
    f: F,
    e: ExprView,
    env: spec_fn(usize) -> int,
) -> int
    decreases e,
{
    match e {
        ExprView::Variable { id, .. } => env(id),
        ExprView::Constant { val } => f64_saturated(scalar_double(f, val), 0x8000_0000_0000_0000),
        ExprView::Add { left, right } => int_value(f, *left, env) + int_value(f, *right, env),
        ExprView::Sub { left, right } => int_value(f, *left, env) - int_value(f, *right, env),
        ExprView::Mul { left, right } => int_value(f, *left, env) * int_value(f, *right, env),
        _ => 0,
    }
}

/// The integer that an expression yields in words, where the variable with id `i`
/// is `env(i)`: every result wraps to 64 bits, and quotients are cut towards zero.
pub open spec fn word_value<F: Fn(FloatOp, u64, u64) -> u64>(
    f: F,
    e: ExprView,
    env: spec_fn(usize) -> int,
) -> int
    decreases e,
{
    match e {
        ExprView::Variable { id, .. } => env(id),
        ExprView::Constant { val } => f64_saturated(scalar_double(f, val), 0x8000_0000_0000_0000),
        ExprView::Add { left, right } => wrap_i64(
            word_value(f, *left, env) + word_value(f, *right, env),
        ),
        ExprView::Sub { left, right } => wrap_i64(
            word_value(f, *left, env) - word_value(f, *right, env),
        ),
        ExprView::Mul { left, right } => wrap_i64(
            word_value(f, *left, env) * word_value(f, *right, env),
        ),
        ExprView::Div { left, right } => wrap_i64(
            trunc_div(word_value(f, *left, env), word_value(f, *right, env)),
        ),
        _ => 0,
    }
}

/// That no divisor in an expression is zero.
pub open spec fn divisible<F: Fn(FloatOp, u64, u64) -> u64>(
    f: F,
    e: ExprView,
    env: spec_fn(usize) -> int,
) -> bool
    decreases e,
{
    match e {
        ExprView::Add { left, right } => divisible(f, *left, env) && divisible(f, *right, env),
        ExprView::Sub { left, right } => divisible(f, *left, env) && divisible(f, *right, env),
        ExprView::Mul { left, right } => divisible(f, *left, env) && divisible(f, *right, env),
        ExprView::Div { left, right } => divisible(f, *left, env) && divisible(f, *right, env)
            && word_value(f, *right, env) != 0,
        _ => true,
    }
}

/// Wrapping keeps the word of a number.
proof fn lemma_wrapped_word(n: int)
    ensures
        word_of(wrap_i64(n)) == word_of(n),
        -0x8000_0000_0000_0000 <= wrap_i64(n) <= 0x7fff_ffff_ffff_ffff,
{
    let m = 0x1_0000_0000_0000_0000int;
    let r = n % m;
    lemma_mod_bound(n, m);
    lemma_small_mod(r as nat, m as nat);
    if r >= 0x8000_0000_0000_0000 {
        lemma_mod_add_multiples_vanish(r - m, m);
    }
}

/// An expression without divisions wraps as a whole: what it yields in words has
/// the word of the integer that it yields.
pub proof fn law_words_wrap_once<F: Fn(FloatOp, u64, u64) -> u64>(
    f: F,
    e: ExprView,
    env: spec_fn(usize) -> int,
)
    requires
        undivided(e),
    ensures
        word_of(word_value(f, e, env)) == word_of(int_value(f, e, env)),
        divisible(f, e, env),
    decreases e,
{
    match e {
        ExprView::Add { left, right } => {
            law_words_wrap_once(f, *left, env);
            law_words_wrap_once(f, *right, env);
            let (a, b) = (word_value(f, *left, env), word_value(f, *right, env));
            lemma_wrapped_word(a + b);
            lemma_word_arith(a, b);
            lemma_word_arith(int_value(f, *left, env), int_value(f, *right, env));
        },
        ExprView::Sub { left, right } => {
            law_words_wrap_once(f, *left, env);
            law_words_wrap_once(f, *right, env);
            let (a, b) = (word_value(f, *left, env), word_value(f, *right, env));
            lemma_wrapped_word(a - b);
            lemma_word_arith(a, b);
            lemma_word_arith(int_value(f, *left, env), int_value(f, *right, env));
        },
        ExprView::Mul { left, right } => {
            law_words_wrap_once(f, *left, env);
            law_words_wrap_once(f, *right, env);
            let (a, b) = (word_value(f, *left, env), word_value(f, *right, env));
            lemma_wrapped_word(a * b);
            lemma_word_arith(a, b);
            lemma_word_arith(int_value(f, *left, env), int_value(f, *right, env));
        },
        _ => {},
    }
}

/// That a variable has integers of at most one word, and that no variable with its
/// id has another width.
pub open spec fn narrow_int(v: ExprView, widths: Map<usize, u32>) -> bool {
    match v {
        ExprView::Variable { id, dtype, .. } => {
            &&& dtype is Int || dtype is ScalableInt
            &&& 1 <= dtype_width(dtype) <= 64
            &&& original_width(widths, id, dtype_width(dtype)) == dtype_width(dtype)
        },
        _ => false,
    }
}

/// Element `i` of a variable of integers.
pub open spec fn element_int(v: ExprView, i: nat) -> int {
    match v {
        ExprView::Variable { dtype, data, .. } => signed_value(
            unpacked_word(data, dtype_width(dtype) as nat, i) as nat,
            dtype_width(dtype) as nat,
        ),
        _ => 0,
    }
}

/// That all variables of an expression are integers of at most one word, and that
/// those with one id have one width.
pub open spec fn narrow_ints(e: ExprView) -> bool {
    let vars = distinct_vars(e, Seq::empty());
    forall|k: int|
        0 <= k < vars.len() ==> narrow_int(#[trigger] vars[k], widths_with(e, Map::empty()))
}

/// That an environment gives each variable of an expression its element `i`.
pub open spec fn is_int_element(e: ExprView, i: nat, env: spec_fn(usize) -> int) -> bool {
    let vars = distinct_vars(e, Seq::empty());
    forall|k: int|
        0 <= k < vars.len() ==> env(var_ids(vars)[k]) == element_int(#[trigger] vars[k], i)
}

/// Arithmetic on words is arithmetic on the numbers that they stand for.
proof fn lemma_word_arith(a: int, b: int)
    ensures
        word_of(word_of(a) + word_of(b)) == word_of(a + b),
        word_of(word_of(a) - word_of(b)) == word_of(a - b),
        word_of(word_of(a) * word_of(b)) == word_of(a * b),
{
    let m = 0x1_0000_0000_0000_0000int;
    lemma_mod_bound(a, m);
    lemma_mod_bound(b, m);
    lemma_add_mod_noop(a, b, m);
    lemma_sub_mod_noop(a, b, m);
    lemma_mul_mod_noop(a, b, m);
}

proof fn lemma_int_input<F: Fn(FloatOp, u64, u64) -> u64>(
    f: F,
    v: ExprView,
    widths: Map<usize, u32>,
    max_bits: u32,
    i: nat,
)
    requires
        narrow_int(v, widths),
        max_bits <= 64,
    ensures
        packed_input(f, v, widths, false, max_bits, var_bytes(v), i) == OpVal::Int64(
            word_of(element_int(v, i)),
        ),
{
    match v {
        ExprView::Variable { dtype, data, .. } => {
            let w = dtype_width(dtype);
            assert(limb_count(w as nat) == 1);
            law_load_is_unpack(data, i, w, 0);
            let low = loaded(data, i, w, 0);
            assert(i * 1 + 0 == i);
            if w == 64 {
                bits::lemma_pow2_64();
                lemma_small_mod(low as nat, 0x1_0000_0000_0000_0000);
                let m = 0x1_0000_0000_0000_0000int;
                let s = signed_value(low as nat, 64);
                if s < 0 {
                    lemma_mod_add_multiples_vanish(s, m);
                    lemma_small_mod((s + m) as nat, m as nat);
                } else {
                    lemma_small_mod(s as nat, m as nat);
                }
            }
        },
        _ => {},
    }
}

proof fn lemma_element_int_range(v: ExprView, widths: Map<usize, u32>, i: nat)
    requires
        narrow_int(v, widths),
    ensures
        -0x8000_0000_0000_0000 <= element_int(v, i) <= 0x7fff_ffff_ffff_ffff,
{
    match v {
        ExprView::Variable { dtype, data, .. } => {
            let w = dtype_width(dtype) as nat;
            lemma_signed_fits(unpacked_word(data, w, i) as nat, w);
        },
        _ => {},
    }
}

proof fn lemma_int_op<F: Fn(FloatOp, u64, u64) -> u64>(
    f: F,
    e: ExprView,
    vars: Seq<ExprView>,
    widths: Map<usize, u32>,
    max_bits: u32,
    bufs: Seq<Seq<u8>>,
    i: nat,
    env: spec_fn(usize) -> int,
)
    requires
        elementwise(e),
        divisible(f, e, env),
        max_bits <= 64,
        covered(e, var_ids(vars)),
        vars.len() <= usize::MAX,
        forall|k: int|
            0 <= k < vars.len() ==> {
                let x = env(var_ids(vars)[k]);
                &&& packed_input(f, #[trigger] vars[k], widths, false, max_bits, bufs[k], i)
                    == OpVal::Int64(word_of(x))
                &&& -0x8000_0000_0000_0000 <= x <= 0x7fff_ffff_ffff_ffff
            },
    ensures
        packed_value(f, fused(f, e, var_ids(vars)), vars, widths, false, max_bits, bufs, i)
            == OpVal::Int64(word_of(word_value(f, e, env))),
        -0x8000_0000_0000_0000 <= word_value(f, e, env) <= 0x7fff_ffff_ffff_ffff,
    decreases e,
{
    let ids = var_ids(vars);
    match e {
        ExprView::Variable { id, .. } => {
            let k = ids.index_of(id);
            assert(0 <= k < ids.len() && ids[k] == id);
            assert(packed_input(f, vars[k], widths, false, max_bits, bufs[k], i) == OpVal::Int64(
                word_of(env(ids[k])),
            ));
        },
        ExprView::Constant { .. } => {},
        ExprView::Add { left, right } => {
            lemma_int_op(f, *left, vars, widths, max_bits, bufs, i, env);
            lemma_int_op(f, *right, vars, widths, max_bits, bufs, i, env);
            let (a, b) = (word_value(f, *left, env), word_value(f, *right, env));
            lemma_word_arith(a, b);
            lemma_wrapped_word(a + b);
        },
        ExprView::Sub { left, right } => {
            lemma_int_op(f, *left, vars, widths, max_bits, bufs, i, env);
            lemma_int_op(f, *right, vars, widths, max_bits, bufs, i, env);
            let (a, b) = (word_value(f, *left, env), word_value(f, *right, env));
            lemma_word_arith(a, b);
            lemma_wrapped_word(a - b);
        },
        ExprView::Mul { left, right } => {
            lemma_int_op(f, *left, vars, widths, max_bits, bufs, i, env);
            lemma_int_op(f, *right, vars, widths, max_bits, bufs, i, env);
            let (a, b) = (word_value(f, *left, env), word_value(f, *right, env));
            lemma_word_arith(a, b);
            lemma_wrapped_word(a * b);
        },
        ExprView::Div { left, right } => {
            lemma_int_op(f, *left, vars, widths, max_bits, bufs, i, env);
            lemma_int_op(f, *right, vars, widths, max_bits, bufs, i, env);
            let (a, b) = (word_value(f, *left, env), word_value(f, *right, env));
            lemma_word_signed(a);
            lemma_word_signed(b);
            lemma_word_signed(0);
            lemma_wrapped_word(trunc_div(a, b));
        },
        _ => {},
    }
}

/// A kernel over packed integers, computed in one word, stores what its expression
/// yields in words for the elements of its variables, where no divisor is zero.
pub proof fn law_int_kernel_computes_expression<F: Fn(FloatOp, u64, u64) -> u64>(
    f: F,
    plan: KernelPlan,
    e: ExprView,
    d: DataType,
    compute_bits: u32,
    i: nat,
    env: spec_fn(usize) -> int,
)
    requires
        elementwise(e),
        divisible(f, e, env),
        !is_float_mode(d),
        dtype_width(d) <= 64,
        compute_bits <= 64,
        is_packed_plan(f, plan, e, d, compute_bits),
        narrow_ints(e),
        distinct_vars(e, Seq::empty()).len() <= usize::MAX,
        is_int_element(e, i, env),
    ensures
        stored_values(f, plan.insts@, plan.stores@, input_bytes(e), i) == seq![
            StoreVal { width: dtype_width(d), limb: 0, val: word_of(word_value(f, e, env)) },
        ],
{
    let vars = distinct_vars(e, Seq::empty());
    let ids = var_ids(vars);
    let widths = widths_with(e, Map::empty());
    let bufs = input_bytes(e);
    lemma_distinct_vars(e, Seq::empty());
    assert forall|k: int| 0 <= k < vars.len() implies ({
        let x = env(ids[k]);
        &&& packed_input(f, #[trigger] vars[k], widths, false, compute_bits, bufs[k], i)
            == OpVal::Int64(word_of(x))
        &&& -0x8000_0000_0000_0000 <= x <= 0x7fff_ffff_ffff_ffff
    }) by {
        lemma_int_input(f, vars[k], widths, compute_bits, i);
        assert(env(ids[k]) == element_int(vars[k], i));
        lemma_element_int_range(vars[k], widths, i);
    }
    lemma_int_op(f, e, vars, widths, compute_bits, bufs, i, env);
    assert(stored_values(f, plan.insts@, plan.stores@, bufs, i) == output_stores(
        f,
        packed_value(f, fused(f, e, ids), vars, widths, false, compute_bits, bufs, i),
        d,
        expr_scale(e),
    ));
}

/// Where a buffer holds what a kernel over packed integers stores, its element is
/// the number that was computed, wrapped to the width; where it fits, it is that
/// number.
pub proof fn law_int_result_wraps(v: int, b: u32, out: Seq<u8>, i: nat)
    requires
        1 <= b <= 64,
        holds_stores(out, i, seq![StoreVal { width: b, limb: 0, val: word_of(v) }]),
    ensures
        signed_value(unpacked_word(out, b as nat, i) as nat, b as nat) == signed_value(
            (v % pow2(b as nat) as int) as nat,
            b as nat,
        ),
        int_fits(v, b as nat) ==> signed_value(
            unpacked_word(out, b as nat, i) as nat,
            b as nat,
        ) == v,
{
    let w = b as nat;
    let p = pow2(w) as int;
    let s = seq![StoreVal { width: b, limb: 0, val: word_of(v) }][0];
    assert(limb_count(w) == 1);
    assert(loaded(out, i, s.width, s.limb) == trimmed_word(s.val, s.width as nat, s.limb as nat));
    law_load_is_unpack(out, i, b, 0);
    assert(i * 1 + 0 == i);
    bits::lemma_pow2_64();
    bits::lemma_pow2_le(w, 64);
    lemma_pow2_pos(w);
    bits::lemma_mod_pow2_mod(v, w, 64);
    lemma_mod_bound(v, 0x1_0000_0000_0000_0000);
    lemma_mod_bound(v, p);
    lemma_mod_bound(word_of(v) as int, p);
    lemma_mod_twice(v, p);
    lemma_mod_twice(word_of(v) as int, p);
    if int_fits(v, w) {
        law_twos_complement(v, w);
    }
}

} // verus!
