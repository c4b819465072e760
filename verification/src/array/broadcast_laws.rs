//! What broadcasting keeps: the elements of the source, at their places.

use crate::array::{broadcast_values, broadcast_view, NumToyArray};
use crate::bits::{limb_count, signed_value};
use crate::elements::{all_non_negative, element_scalar, is_float_type};
use crate::fuser::exec::var_doubles;
use crate::fuser::laws::element_int;
use crate::fuser::words::lemma_signed_fits;
use crate::hardware::unpacked_word;
use crate::ir::{expr_scale, expr_size, expr_steal, expr_type, ExprView};
use crate::shape;
use crate::shape::{
    broadcasts_to, flat_index, is_coordinate, law_source_index_in_range,
    law_source_index_of_coordinate, numel, padded_shape, source_coordinate, source_index,
};
use crate::soft_float::{exact_integer, f64_is_non_negative, f64_of_int, FloatOp};
use crate::tensor::{tiled_values, tiled_view, Tensor};
use crate::types::laws::{
    float_exact, held, law_array_holds_codes, law_exact_float_is_held, law_exact_integer_is_held,
    law_exact_without_sign, type_exponent_width,
};
use crate::types::dtype_width;
use vstd::prelude::*;

verus! {

/// The variable that an array becomes when it is broadcast.
pub open spec fn broadcast_expr<F: Fn(FloatOp, u64, u64) -> u64>(
    f: F,
    a: NumToyArray,
    tgt: Seq<usize>,
    id: usize,
) -> ExprView {
    if a.shape@ == tgt {
        a.expr@
    } else {
        broadcast_view(f, a.expr@, a.shape@, tgt, id)
    }
}

/// The number of the source's element that goes to a coordinate of the target.
pub open spec fn source_element(c: Seq<nat>, src: Seq<usize>, tgt: Seq<usize>) -> nat {
    let p = padded_shape(src, tgt.len());
    flat_index(source_coordinate(c, p), p, 0)
}

/// The element of a source that goes to a coordinate is one of the source, and the
/// element at the coordinate one of the target.
proof fn lemma_places(c: Seq<nat>, src: Seq<usize>, tgt: Seq<usize>)
    requires
        broadcasts_to(src, tgt),
        is_coordinate(c, tgt),
    ensures
        flat_index(c, tgt, 0) < numel(tgt),
        source_index(flat_index(c, tgt, 0), padded_shape(src, tgt.len()), tgt, 0)
            == source_element(c, src, tgt),
        source_element(c, src, tgt) < numel(src),
        src == tgt ==> source_element(c, src, tgt) == flat_index(c, tgt, 0),
{
    let p = padded_shape(src, tgt.len());
    law_source_index_of_coordinate(c, p, tgt, 0);
    shape::lemma_numel(tgt);
    shape::lemma_numel(p);
    shape::law_padding_keeps_numel(src, tgt.len());
    assert forall|j: int| 0 <= j < tgt.len() implies (#[trigger] p[j] == tgt[j] || p[j] == 1) by {
        let x = padded_shape(src, tgt.len())[j];
        assert(x == tgt[j] || x == 1);
    }
    law_source_index_in_range(flat_index(c, tgt, 0), p, tgt, 0);
    if src == tgt {
        assert(p =~= tgt);
        assert(source_coordinate(c, p) =~= c);
    }
}

/// An array broadcast to a target shape holds, at each coordinate, the element of
/// the source at the coordinate that goes with it, where the type holds that
/// element. It has the type and the scale of the source, and to its own shape it
/// is unchanged.
pub proof fn law_broadcast_reads_back<F: Fn(FloatOp, u64, u64) -> u64>(
    f: F,
    a: NumToyArray,
    tgt: Seq<usize>,
    id: usize,
    c: Seq<nat>,
)
    requires
        a.broadcastable(tgt),
        a.expr is Variable,
        expr_size(a.expr@) >= numel(a.shape@),
        is_coordinate(c, tgt),
        a.shape@ != tgt ==> held(
            f,
            var_doubles(f, a.expr@)[source_element(c, a.shape@, tgt) as int],
            expr_type(a.expr@),
            expr_scale(a.expr@),
            expr_steal(broadcast_expr(f, a, tgt, id)),
            false,
        ),
    ensures
        ({
            let r = broadcast_expr(f, a, tgt, id);
            &&& flat_index(c, tgt, 0) < numel(tgt)
            &&& source_element(c, a.shape@, tgt) < numel(a.shape@)
            &&& var_doubles(f, r)[flat_index(c, tgt, 0) as int] == var_doubles(
                f,
                a.expr@,
            )[source_element(c, a.shape@, tgt) as int]
            &&& expr_type(r) == expr_type(a.expr@)
            &&& expr_scale(r) == expr_scale(a.expr@)
            &&& a.shape@ != tgt ==> expr_size(r) == numel(tgt)
            &&& a.shape@ == tgt ==> r == a.expr@
        }),
{
    lemma_places(c, a.shape@, tgt);
    if a.shape@ != tgt {
        let e = a.expr@;
        let r = broadcast_expr(f, a, tgt, id);
        let src = var_doubles(f, e);
        let vals = broadcast_values(src, a.shape@, tgt);
        let i = flat_index(c, tgt, 0);
        let j = source_element(c, a.shape@, tgt);
        assert(shape::prefix_product(tgt, tgt.len()) <= usize::MAX);
        assert(vals[i as int] == src[j as int]);
        law_array_holds_codes(f, vals, expr_type(e), expr_scale(e), expr_steal(r), false, i);
    }
}

/// A tensor broadcast to another shape holds, at each coordinate, the element of
/// the source at the coordinate that goes with it, where the type holds that
/// element. It has the type and the scale of the source.
pub proof fn law_tensor_broadcast_reads_back<F: Fn(FloatOp, u64, u64) -> u64>(
    f: F,
    a: Tensor,
    tgt: Seq<usize>,
    id: usize,
    c: Seq<nat>,
)
    requires
        a.broadcastable(tgt),
        a.shape@ != tgt,
        is_coordinate(c, tgt),
        held(
            f,
            var_doubles(f, a.expr@)[source_element(c, a.shape@, tgt) as int],
            expr_type(a.expr@),
            expr_scale(a.expr@),
            expr_steal(tiled_view(f, a.expr@, a.shape@, tgt, id)),
            false,
        ),
    ensures
        ({
            let r = tiled_view(f, a.expr@, a.shape@, tgt, id);
            &&& flat_index(c, tgt, 0) < numel(tgt)
            &&& source_element(c, a.shape@, tgt) < numel(a.shape@)
            &&& var_doubles(f, r)[flat_index(c, tgt, 0) as int] == var_doubles(
                f,
                a.expr@,
            )[source_element(c, a.shape@, tgt) as int]
            &&& expr_type(r) == expr_type(a.expr@)
            &&& expr_scale(r) == expr_scale(a.expr@)
            &&& expr_size(r) == numel(tgt)
        }),
{
    lemma_places(c, a.shape@, tgt);
    let e = a.expr@;
    let r = tiled_view(f, e, a.shape@, tgt, id);
    let src = var_doubles(f, e);
    let vals = tiled_values(src, a.shape@, tgt);
    let i = flat_index(c, tgt, 0);
    let j = source_element(c, a.shape@, tgt);
    assert(shape::prefix_product(tgt, tgt.len()) <= usize::MAX);
    assert(vals[i as int] == src[j as int]);
    law_array_holds_codes(f, vals, expr_type(e), expr_scale(e), expr_steal(r), false, i);
}

/// The type of a variable of integers of up to 64 bits holds the elements that are
/// exact as doubles.
pub proof fn law_integers_are_held<F: Fn(FloatOp, u64, u64) -> u64>(
    f: F,
    e: ExprView,
    steal_sign: bool,
    j: nat,
)
    requires
        e is Variable,
        expr_type(e) is Int || expr_type(e) is ScalableInt,
        1 <= dtype_width(expr_type(e)) <= 64,
        j < expr_size(e),
        exact_integer(element_int(e, j)),
    ensures
        var_doubles(f, e)[j as int] == f64_of_int(element_int(e, j)),
        held(
            f,
            var_doubles(f, e)[j as int],
            expr_type(e),
            expr_scale(e),
            steal_sign,
            false,
        ),
{
    match e {
        ExprView::Variable { dtype, data, scale, steal_sign: s, .. } => {
            let w = dtype_width(dtype) as nat;
            let n = element_int(e, j);
            let x = unpacked_word(data, w, j);
            assert(limb_count(w) == 1);
            assert(j * 1 + 0 == j);
            lemma_signed_fits(x as nat, w);
            lemma_signed_range(x as nat, w);
            assert(n as i64 == n);
            assert(element_scalar(data, j, dtype, scale, s) == if dtype is Int {
                crate::types::ScalarView::Int(n as i64, w as u32)
            } else {
                crate::types::ScalarView::ScalableInt(n as i64, w as u32)
            });
            law_exact_integer_is_held(f, n, w as u32, scale, steal_sign, false);
        },
        _ => {},
    }
}

/// The two's complement reading of bits fits their number.
proof fn lemma_signed_range(n: nat, w: nat)
    requires
        w >= 1,
    ensures
        crate::types::laws::int_fits(signed_value(n, w), w),
{
    vstd::arithmetic::power2::lemma_pow2_unfold(w);
    vstd::arithmetic::power2::lemma_pow2_pos(w);
    vstd::arithmetic::div_mod::lemma_mod_bound(
        n as int,
        vstd::arithmetic::power2::pow2(w) as int,
    );
}

/// That the float type of a variable holds the first `n` elements exactly.
pub open spec fn exact_floats<F: Fn(FloatOp, u64, u64) -> u64>(f: F, e: ExprView, n: nat) -> bool {
    forall|j: int|
        0 <= j < n ==> float_exact(
            #[trigger] var_doubles(f, e)[j],
            dtype_width(expr_type(e)) as nat,
            type_exponent_width(expr_type(e)) as nat,
            expr_steal(e),
        )
}

/// Where the elements of a float variable are exact in its type, they are held in
/// what it is broadcast to, whether or not that has a sign bit.
pub proof fn law_broadcast_floats_are_held<F: Fn(FloatOp, u64, u64) -> u64>(
    f: F,
    a: NumToyArray,
    tgt: Seq<usize>,
    id: usize,
    c: Seq<nat>,
)
    requires
        a.broadcastable(tgt),
        a.shape@ != tgt,
        expr_size(a.expr@) >= numel(a.shape@),
        is_coordinate(c, tgt),
        is_float_type(expr_type(a.expr@)),
        exact_floats(f, a.expr@, numel(a.shape@)),
    ensures
        held(
            f,
            var_doubles(f, a.expr@)[source_element(c, a.shape@, tgt) as int],
            expr_type(a.expr@),
            expr_scale(a.expr@),
            expr_steal(broadcast_expr(f, a, tgt, id)),
            false,
        ),
{
    let e = a.expr@;
    let d = expr_type(e);
    let src = var_doubles(f, e);
    let vals = broadcast_values(src, a.shape@, tgt);
    let s = expr_steal(broadcast_expr(f, a, tgt, id));
    let i = flat_index(c, tgt, 0);
    let v = src[source_element(c, a.shape@, tgt) as int];
    lemma_places(c, a.shape@, tgt);
    assert(vals[i as int] == v);
    assert(s == all_non_negative(vals));
    if expr_steal(e) && !s {
        let k = choose|k: int| 0 <= k < vals.len() && !f64_is_non_negative(vals[k]);
        let p = padded_shape(a.shape@, tgt.len());
        shape::lemma_numel(tgt);
        shape::lemma_numel(p);
        shape::law_padding_keeps_numel(a.shape@, tgt.len());
        assert forall|j: int| 0 <= j < tgt.len() implies (#[trigger] p[j] == tgt[j] || p[j] == 1) by {
            let x = padded_shape(a.shape@, tgt.len())[j];
            assert(x == tgt[j] || x == 1);
        }
        law_source_index_in_range(k as nat, p, tgt, 0);
        assert(vals[k] == src[source_index(k as nat, p, tgt, 0) as int]);
        assert(false);
    }
    if s && !expr_steal(e) {
        assert(f64_is_non_negative(vals[i as int]));
        law_exact_without_sign(v, dtype_width(d) as nat, type_exponent_width(d) as nat);
    }
    law_exact_float_is_held(f, v, d, expr_scale(e), s, false);
}

} // verus!
