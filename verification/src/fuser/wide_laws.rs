//! What kernels over integers of two words compute.

use crate::bits;
use crate::bits::{lemma_limbs_push, lemma_limbs_single, limb_count, limbs_nat, signed_value};
use crate::fuser::exec::{is_float_mode, is_packed_plan, var_bytes};
use crate::fuser::helpers::{half_word, loaded, wide_result, wide_word, ArithOp};
use crate::fuser::kernel::{
    covered, distinct_vars, elementwise, fused, lemma_distinct_vars, var_ids, widths_with,
};
use crate::fuser::laws::{holds_stores, input_bytes, law_load_is_unpack, undivided};
use crate::fuser::plan::{
    original_width, output_stores, packed_input, packed_value, stored_values, KernelPlan, OpVal,
    StoreVal,
};
use crate::fuser::truncate::{f64_saturated, half_128};
use crate::fuser::words::lemma_signed_low_word;
use crate::hardware::{trimmed_word, unpacked_word};
use crate::ir::{expr_scale, ExprView};
use crate::soft_float::FloatOp;
use crate::types::{dtype_width, scalar_double, DataType};
use vstd::arithmetic::div_mod::*;
use vstd::arithmetic::mul::*;
use vstd::arithmetic::power2::*;
use vstd::prelude::*;

verus! {

// ─── Values ──────────────────────────────────────────────────────────────────

/// The number of values of two words.
pub open spec fn wide_modulus() -> int {
    0x1_0000_0000_0000_0000_0000_0000_0000_0000int
}

/// What an expression yields in two words, where the variable with id `i` is
/// `env(i)`: results wrap to 128 bits, and quotients are those of numbers without
/// a sign, zero for a zero divisor.
pub open spec fn wide_value<F: Fn(FloatOp, u64, u64) -> u64>(
    f: F,
    e: ExprView,
    env: spec_fn(usize) -> int,
) -> nat
    decreases e,
{
    match e {
        ExprView::Variable { id, .. } => (env(id) % wide_modulus()) as nat,
        ExprView::Constant { val } => (f64_saturated(scalar_double(f, val), half_128())
            % wide_modulus()) as nat,
        ExprView::Add { left, right } => wide_result(
            ArithOp::Add,
            wide_value(f, *left, env),
            wide_value(f, *right, env),
        ) as nat,
        ExprView::Sub { left, right } => wide_result(
            ArithOp::Sub,
            wide_value(f, *left, env),
            wide_value(f, *right, env),
        ) as nat,
        ExprView::Mul { left, right } => wide_result(
            ArithOp::Mul,
            wide_value(f, *left, env),
            wide_value(f, *right, env),
        ) as nat,
        ExprView::Div { left, right } => wide_result(
            ArithOp::Div,
            wide_value(f, *left, env),
            wide_value(f, *right, env),
        ) as nat,
        _ => 0,
    }
}

/// The integer that an expression without divisions yields where the variable
/// with id `i` is `env(i)`. Constants are cut towards zero, and held to the range
/// of two words.
pub open spec fn wide_int_value<F: Fn(FloatOp, u64, u64) -> u64>(
    f: F,
    e: ExprView,
    env: spec_fn(usize) -> int,
) -> int
    decreases e,
{
    match e {
        ExprView::Variable { id, .. } => env(id),
        ExprView::Constant { val } => f64_saturated(scalar_double(f, val), half_128()),
        ExprView::Add { left, right } => wide_int_value(f, *left, env) + wide_int_value(
            f,
            *right,
            env,
        ),
        ExprView::Sub { left, right } => wide_int_value(f, *left, env) - wide_int_value(
            f,
            *right,
            env,
        ),
        ExprView::Mul { left, right } => wide_int_value(f, *left, env) * wide_int_value(
            f,
            *right,
            env,
        ),
        _ => 0,
    }
}

/// An expression without divisions wraps as a whole.
pub proof fn law_wide_wraps_once<F: Fn(FloatOp, u64, u64) -> u64>(
    f: F,
    e: ExprView,
    env: spec_fn(usize) -> int,
)
    requires
        undivided(e),
    ensures
        wide_value(f, e, env) == wide_int_value(f, e, env) % wide_modulus(),
    decreases e,
{
    let m = wide_modulus();
    lemma_mod_bound(wide_int_value(f, e, env), m);
    match e {
        ExprView::Add { left, right } => {
            law_wide_wraps_once(f, *left, env);
            law_wide_wraps_once(f, *right, env);
            lemma_add_mod_noop(wide_int_value(f, *left, env), wide_int_value(f, *right, env), m);
        },
        ExprView::Sub { left, right } => {
            law_wide_wraps_once(f, *left, env);
            law_wide_wraps_once(f, *right, env);
            lemma_sub_mod_noop(wide_int_value(f, *left, env), wide_int_value(f, *right, env), m);
        },
        ExprView::Mul { left, right } => {
            law_wide_wraps_once(f, *left, env);
            law_wide_wraps_once(f, *right, env);
            lemma_mul_mod_noop(wide_int_value(f, *left, env), wide_int_value(f, *right, env), m);
        },
        _ => {},
    }
}

/// What an expression yields in two words fits them.
pub proof fn lemma_wide_value_bound<F: Fn(FloatOp, u64, u64) -> u64>(
    f: F,
    e: ExprView,
    env: spec_fn(usize) -> int,
)
    ensures
        wide_value(f, e, env) < wide_modulus(),
    decreases e,
{
    let m = wide_modulus();
    match e {
        ExprView::Variable { id, .. } => {
            lemma_mod_bound(env(id), m);
        },
        ExprView::Constant { val } => {
            lemma_mod_bound(f64_saturated(scalar_double(f, val), half_128()), m);
        },
        ExprView::Add { left, right } => {
            lemma_mod_bound((wide_value(f, *left, env) + wide_value(f, *right, env)) as int, m);
        },
        ExprView::Sub { left, right } => {
            lemma_mod_bound(wide_value(f, *left, env) - wide_value(f, *right, env), m);
        },
        ExprView::Mul { left, right } => {
            lemma_mod_bound((wide_value(f, *left, env) * wide_value(f, *right, env)) as int, m);
        },
        ExprView::Div { left, right } => {
            lemma_wide_value_bound(f, *left, env);
            let (a, b) = (wide_value(f, *left, env), wide_value(f, *right, env));
            if b > 0 {
                lemma_div_pos_is_pos(a as int, b as int);
                lemma_div_nonincreasing(a as int, b as int);
            }
        },
        _ => {},
    }
}

// ─── Inputs ──────────────────────────────────────────────────────────────────

/// That a variable has integers of at most two words, and that no variable with its
/// id has another width.
pub open spec fn short_int(v: ExprView, widths: Map<usize, u32>) -> bool {
    match v {
        ExprView::Variable { id, dtype, .. } => {
            &&& dtype is Int || dtype is ScalableInt
            &&& 1 <= dtype_width(dtype) <= 128
            &&& original_width(widths, id, dtype_width(dtype)) == dtype_width(dtype)
        },
        _ => false,
    }
}

/// The words of element `i` of a packed list of width `w`.
pub open spec fn element_words(data: Seq<u8>, w: nat, i: nat) -> Seq<u64> {
    let k = limb_count(w);
    Seq::new(k, |l: int| unpacked_word(data, w, (i * k + l) as nat))
}

/// Element `i` of a variable of integers of any width.
pub open spec fn element_number(v: ExprView, i: nat) -> int {
    match v {
        ExprView::Variable { dtype, data, .. } => signed_value(
            limbs_nat(element_words(data, dtype_width(dtype) as nat, i)),
            dtype_width(dtype) as nat,
        ),
        _ => 0,
    }
}

/// That all variables of an expression are integers of at most two words, and that
/// those with one id have one width.
pub open spec fn short_ints(e: ExprView) -> bool {
    let vars = distinct_vars(e, Seq::empty());
    forall|k: int|
        0 <= k < vars.len() ==> short_int(#[trigger] vars[k], widths_with(e, Map::empty()))
}

/// That an environment gives each variable of an expression its element `i`.
pub open spec fn is_number_element(e: ExprView, i: nat, env: spec_fn(usize) -> int) -> bool {
    let vars = distinct_vars(e, Seq::empty());
    forall|k: int|
        0 <= k < vars.len() ==> env(var_ids(vars)[k]) == element_number(#[trigger] vars[k], i)
}

proof fn lemma_two_limbs(lo: u64, hi: u64)
    ensures
        limbs_nat(seq![lo, hi]) == wide_word(lo, hi),
{
    bits::lemma_pow2_64();
    lemma_limbs_single(lo);
    lemma_limbs_push(seq![lo], hi);
    assert(seq![lo].push(hi) =~= seq![lo, hi]);
    lemma_mul_is_commutative(hi as int, 0x1_0000_0000_0000_0000);
}

pub proof fn lemma_pow2_128()
    ensures
        pow2(128) == wide_modulus(),
        pow2(127) == half_128(),
{
    bits::lemma_pow2_64();
    lemma_pow2_adds(64, 64);
    lemma_pow2_adds(63, 64);
}

proof fn lemma_wide_input<F: Fn(FloatOp, u64, u64) -> u64>(
    f: F,
    v: ExprView,
    widths: Map<usize, u32>,
    max_bits: u32,
    i: nat,
)
    requires
        short_int(v, widths),
        max_bits > 64,
    ensures
        packed_input(f, v, widths, false, max_bits, var_bytes(v), i) == OpVal::Int128(
            (element_number(v, i) % wide_modulus()) as nat,
        ),
{
    match v {
        ExprView::Variable { dtype, data, .. } => {
            let w = dtype_width(dtype);
            let low = loaded(data, i, w, 0);
            let high = loaded(data, i, w, 1);
            let words = element_words(data, w as nat, i);
            law_load_is_unpack(data, i, w, 0);
            assert(words[0] == low);
            if w <= 64 {
                assert(limb_count(w as nat) == 1);
                assert(words =~= seq![low]);
                lemma_limbs_single(low);
                lemma_signed_low_word(low, high, w as nat);
            } else {
                assert(limb_count(w as nat) == 2);
                law_load_is_unpack(data, i, w, 1);
                assert(words =~= seq![low, high]);
                lemma_two_limbs(low, high);
                if w == 128 {
                    lemma_pow2_128();
                    let n = wide_word(low, high);
                    let m = wide_modulus();
                    lemma_small_mod(n, m as nat);
                    if n >= half_128() {
                        lemma_mod_add_multiples_vanish(n - m, m);
                    }
                }
            }
        },
        _ => {},
    }
}

// ─── Kernels ─────────────────────────────────────────────────────────────────

proof fn lemma_wide_op<F: Fn(FloatOp, u64, u64) -> u64>(
    f: F,
    e: ExprView,
    vars: Seq<ExprView>,
    widths: Map<usize, u32>,
    max_bits: u32,
    bufs: Seq<Seq<u8>>,
    i: nat,
    env: spec_fn(usize) -> int,
)
    requires
        elementwise(e),
        max_bits > 64,
        covered(e, var_ids(vars)),
        vars.len() <= usize::MAX,
        forall|k: int|
            0 <= k < vars.len() ==> packed_input(
                f,
                #[trigger] vars[k],
                widths,
                false,
                max_bits,
                bufs[k],
                i,
            ) == OpVal::Int128((env(var_ids(vars)[k]) % wide_modulus()) as nat),
    ensures
        packed_value(f, fused(f, e, var_ids(vars)), vars, widths, false, max_bits, bufs, i)
            == OpVal::Int128(wide_value(f, e, env)),
    decreases e,
{
    let ids = var_ids(vars);
    match e {
        ExprView::Variable { id, .. } => {
            let k = ids.index_of(id);
            assert(0 <= k < ids.len() && ids[k] == id);
            assert(packed_input(f, vars[k], widths, false, max_bits, bufs[k], i)
                == OpVal::Int128((env(ids[k]) % wide_modulus()) as nat));
        },
        ExprView::Constant { .. } => {},
        ExprView::Add { left, right } => {
            lemma_wide_op(f, *left, vars, widths, max_bits, bufs, i, env);
            lemma_wide_op(f, *right, vars, widths, max_bits, bufs, i, env);
        },
        ExprView::Sub { left, right } => {
            lemma_wide_op(f, *left, vars, widths, max_bits, bufs, i, env);
            lemma_wide_op(f, *right, vars, widths, max_bits, bufs, i, env);
        },
        ExprView::Mul { left, right } => {
            lemma_wide_op(f, *left, vars, widths, max_bits, bufs, i, env);
            lemma_wide_op(f, *right, vars, widths, max_bits, bufs, i, env);
        },
        ExprView::Div { left, right } => {
            lemma_wide_op(f, *left, vars, widths, max_bits, bufs, i, env);
            lemma_wide_op(f, *right, vars, widths, max_bits, bufs, i, env);
        },
        _ => {},
    }
}

/// A kernel over packed integers, computed in two words, stores the words of what
/// its expression yields in two words for the elements of its variables.
pub proof fn law_wide_kernel_computes_expression<F: Fn(FloatOp, u64, u64) -> u64>(
    f: F,
    plan: KernelPlan,
    e: ExprView,
    d: DataType,
    compute_bits: u32,
    i: nat,
    env: spec_fn(usize) -> int,
)
    requires
        elementwise(e),
        !is_float_mode(d),
        compute_bits > 64,
        is_packed_plan(f, plan, e, d, compute_bits),
        short_ints(e),
        distinct_vars(e, Seq::empty()).len() <= usize::MAX,
        is_number_element(e, i, env),
    ensures
        stored_values(f, plan.insts@, plan.stores@, input_bytes(e), i) == output_stores(
            f,
            OpVal::Int128(wide_value(f, e, env)),
            d,
            expr_scale(e),
        ),
{
    let vars = distinct_vars(e, Seq::empty());
    let ids = var_ids(vars);
    let widths = widths_with(e, Map::empty());
    let bufs = input_bytes(e);
    lemma_distinct_vars(e, Seq::empty());
    assert forall|k: int| 0 <= k < vars.len() implies packed_input(
        f,
        #[trigger] vars[k],
        widths,
        false,
        compute_bits,
        bufs[k],
        i,
    ) == OpVal::Int128((env(ids[k]) % wide_modulus()) as nat) by {
        lemma_wide_input(f, vars[k], widths, compute_bits, i);
        assert(env(ids[k]) == element_number(vars[k], i));
    }
    lemma_wide_op(f, e, vars, widths, compute_bits, bufs, i, env);
}

/// Where a buffer holds what a kernel over integers of two words stores, its
/// element is the number that was computed, cut to the width.
pub proof fn law_wide_result_wraps(n: nat, b: u32, out: Seq<u8>, i: nat)
    requires
        64 < b <= 128,
        n < wide_modulus(),
        holds_stores(
            out,
            i,
            seq![
                StoreVal { width: b, limb: 0, val: half_word(n as int, 0) },
                StoreVal { width: b, limb: 1, val: half_word(n as int, 1) },
            ],
        ),
    ensures
        limbs_nat(element_words(out, b as nat, i)) == n % pow2(b as nat),
{
    let w = b as nat;
    let base = 0x1_0000_0000_0000_0000int;
    let lo = half_word(n as int, 0);
    let hi = half_word(n as int, 1);
    let stores = seq![
        StoreVal { width: b, limb: 0u32, val: lo },
        StoreVal { width: b, limb: 1u32, val: hi },
    ];
    assert(limb_count(w) == 2);
    lemma_fundamental_div_mod(n as int, base);
    lemma_mod_bound(n as int, base);
    let top = n as int / base;
    lemma_div_is_ordered(n as int, wide_modulus() - 1, base);
    lemma_div_pos_is_pos(n as int, base);
    lemma_small_mod(top as nat, base as nat);
    assert(n == wide_word(lo, hi));
    assert(stores[0].limb == 0 && stores[1].limb == 1);
    law_load_is_unpack(out, i, b, 0);
    law_load_is_unpack(out, i, b, 1);
    let words = element_words(out, w, i);
    assert(loaded(out, i, stores[0].width, stores[0].limb) == trimmed_word(lo, w, 0));
    assert(loaded(out, i, stores[1].width, stores[1].limb) == trimmed_word(hi, w, 1));
    let low = trimmed_word(lo, w, 0);
    let high = trimmed_word(hi, w, 1);
    lemma_small_mod(0, limb_count(w));
    lemma_small_mod(1, limb_count(w));
    assert(low == lo);
    assert(words =~= seq![low, high]);
    lemma_two_limbs(low, high);
    lemma_pow2_128();
    bits::lemma_pow2_64();
    if b == 128 {
        lemma_small_mod(n, pow2(w));
    } else {
        let d = (w - 64) as nat;
        let q = pow2(d) as int;
        let m = hi as int % q;
        assert(high as int == m) by {
            lemma_pow2_pos(d);
            lemma_mod_bound(hi as int, q);
            lemma_mod_decreases(hi as nat, q as nat);
        }
        let t = hi as int / q;
        lemma_pow2_adds(64, d);
        lemma_pow2_pos(d);
        lemma_mod_bound(hi as int, q);
        lemma_fundamental_div_mod(hi as int, q);
        lemma_mul_is_distributive_add(base, q * t, m);
        lemma_mul_is_associative(base, q, t);
        lemma_mul_inequality(m + 1, q, base);
        lemma_mul_is_distributive_add_other_way(base, m, 1);
        lemma_mul_is_commutative(m + 1, base);
        lemma_mul_is_commutative(q, base);
        lemma_mul_is_commutative(m, base);
        lemma_mul_nonnegative(base, m);
        lemma_mul_is_commutative(base * q, t);
        lemma_fundamental_div_mod_converse(n as int, base * q, t, base * m + lo);
    }
}

} // verus!
