//! Where the elements of arrays lie: slices, transposed and reshaped arrays show
//! elements of the array that they were made of.

use crate::array::NumToyArray;
use crate::binding::{
    law_slice_address, range_fits, slice_len, slice_offset, slice_span, sliceable, sliced_shape,
    sliced_strides, sliced_view, SliceRange,
};
use crate::ir::ExprView;
use crate::shape::{flat_index, is_coordinate, stride_sizes, strides_fit, suffix_product};
use vstd::arithmetic::div_mod::*;
use vstd::arithmetic::mul::*;
use vstd::prelude::*;

verus! {

/// The distance to a coordinate, by its first `k` dimensions.
pub open spec fn distance(strides: Seq<usize>, c: Seq<nat>, k: nat) -> nat
    decreases k,
{
    if k == 0 {
        0
    } else {
        distance(strides, c, (k - 1) as nat) + c[k - 1] * strides[k - 1] as nat
    }
}

/// The first bit of the bytes of a variable.
pub open spec fn first_bit(v: ExprView) -> nat {
    match v {
        ExprView::Variable { bit_offset, .. } => bit_offset as nat,
        _ => 0,
    }
}

/// The bit at which the element of an array at a coordinate begins.
pub open spec fn element_bit(a: NumToyArray, c: Seq<nat>) -> nat {
    first_bit(a.expr@) + distance(a.bit_strides@, c, c.len())
}

/// That two variables have the same bytes, read in the same way.
pub open spec fn same_bytes(v: ExprView, w: ExprView) -> bool {
    match (v, w) {
        (
            ExprView::Variable { dtype: d, data: x, scale: s, steal_sign: t, .. },
            ExprView::Variable { dtype: e, data: y, scale: u, steal_sign: z, .. },
        ) => d == e && x == y && s == u && t == z,
        _ => false,
    }
}

// ─── Slices ──────────────────────────────────────────────────────────────────

/// The range that is taken of a dimension: all of it where none is given.
pub open spec fn range_of(ranges: Seq<SliceRange>, shape: Seq<usize>, i: int) -> SliceRange {
    if i < ranges.len() {
        ranges[i]
    } else {
        SliceRange { start: 0, stop: shape[i], step: 1 }
    }
}

/// The place of a dimension that a range takes as its place `j`.
pub open spec fn taken(r: SliceRange, j: nat) -> nat {
    r.start as nat + j * r.step as nat
}

/// That a place of a dimension lies before the end of a range.
pub open spec fn within(r: SliceRange, dim: usize, place: nat) -> bool {
    place < r.stop && place < dim
}

/// The coordinate of an array that ranges take as the coordinate `c`.
pub open spec fn taken_coordinate(
    ranges: Seq<SliceRange>,
    shape: Seq<usize>,
    c: Seq<nat>,
) -> Seq<nat> {
    Seq::new(c.len(), |i: int| taken(range_of(ranges, shape, i), c[i]))
}

/// That an array shows the elements that ranges take of another one. It has the same
/// dimensions; in each of them as many places as the steps of the range reach before
/// its end and that of the dimension; and its element at a coordinate is the element
/// of the other one at the coordinate that the ranges take.
pub open spec fn shows_slice(a: NumToyArray, ranges: Seq<SliceRange>, r: NumToyArray) -> bool {
    &&& same_bytes(a.expr@, r.expr@)
    &&& r.shape@.len() == a.shape@.len()
    &&& forall|i: int, j: nat|
        #![trigger r.shape@[i], taken(range_of(ranges, a.shape@, i), j)]
        0 <= i < a.shape@.len() ==> (j < r.shape@[i] <==> within(
            range_of(ranges, a.shape@, i),
            a.shape@[i],
            taken(range_of(ranges, a.shape@, i), j),
        ))
    &&& forall|c: Seq<nat>| #[trigger]
        is_coordinate(c, r.shape@) ==> {
            &&& is_coordinate(taken_coordinate(ranges, a.shape@, c), a.shape@)
            &&& element_bit(r, c) == element_bit(a, taken_coordinate(ranges, a.shape@, c))
        }
}

/// A range takes the places that its steps reach before its end and that of the
/// dimension, and no others.
proof fn lemma_places_taken(r: SliceRange, dim: usize, stride: usize, j: nat)
    requires
        range_fits(r, dim, stride),
    ensures
        j < slice_len(r, dim) <==> within(r, dim, taken(r, j)),
        slice_len(r, dim) <= dim,
{
    let span = slice_span(r, dim) as int;
    if span > 0 {
        let step = r.step as int;
        let q = (span + step - 1) / step;
        lemma_fundamental_div_mod(span + step - 1, step);
        lemma_mod_bound(span + step - 1, step);
        lemma_mul_is_commutative(step, q);
        if j < q {
            law_slice_address(r, dim, stride, j);
        } else {
            lemma_mul_inequality(q, j as int, step);
            assert(j * step >= span);
        }
        assert(q <= span) by {
            if q > span {
                lemma_mul_inequality(span + 1, q, step);
                lemma_mul_is_distributive_add_other_way(step, span, 1);
                lemma_mul_inequality(1, step, span);
                lemma_mul_is_commutative(span, step);
            }
        }
    } else {
        lemma_mul_nonnegative(j as int, r.step as int);
    }
}

proof fn lemma_slice_distance(
    ranges: Seq<SliceRange>,
    shape: Seq<usize>,
    strides: Seq<usize>,
    c: Seq<nat>,
    k: nat,
)
    requires
        ranges.len() <= shape.len(),
        strides.len() == shape.len(),
        forall|i: int|
            0 <= i < ranges.len() ==> range_fits(#[trigger] ranges[i], shape[i], strides[i]),
        is_coordinate(c, sliced_shape(ranges, shape)),
        k <= shape.len(),
    ensures
        slice_offset(
            ranges,
            shape,
            strides,
            if k < ranges.len() {
                k
            } else {
                ranges.len()
            },
        ) + distance(sliced_strides(ranges, shape, strides), c, k) == distance(
            strides,
            taken_coordinate(ranges, shape, c),
            k,
        ),
        forall|i: int|
            0 <= i < k ==> #[trigger] taken_coordinate(ranges, shape, c)[i] < shape[i],
    decreases k,
{
    if k > 0 {
        let i = k - 1;
        lemma_slice_distance(ranges, shape, strides, c, i as nat);
        assert(c[i] < sliced_shape(ranges, shape)[i]);
        if i < ranges.len() {
            let r = ranges[i];
            lemma_places_taken(r, shape[i], strides[i], c[i]);
            law_slice_address(r, shape[i], strides[i], c[i]);
            assert(slice_span(r, shape[i]) > 0);
        } else {
            lemma_mul_basics(c[i] as int);
        }
    }
}

/// What is made of ranges and an array by the lengths, strides and offset of its
/// dimensions shows the elements that the ranges take.
pub proof fn law_slice_shows_elements(a: NumToyArray, ranges: Seq<SliceRange>, r: NumToyArray)
    requires
        a.expr@ matches ExprView::Variable { bit_offset, .. } && sliceable(
            ranges,
            a.shape@,
            a.bit_strides@,
            bit_offset,
        ),
        r.shape@ == sliced_shape(ranges, a.shape@),
        r.bit_strides@ == sliced_strides(ranges, a.shape@, a.bit_strides@),
        r.expr@ == sliced_view(a.expr@, ranges, a.shape@, a.bit_strides@),
    ensures
        shows_slice(a, ranges, r),
{
    let shape = a.shape@;
    let strides = a.bit_strides@;
    assert forall|i: int, j: nat|
        #![trigger r.shape@[i], taken(range_of(ranges, shape, i), j)]
        0 <= i < shape.len() implies (j < r.shape@[i] <==> within(
        range_of(ranges, shape, i),
        shape[i],
        taken(range_of(ranges, shape, i), j),
    )) by {
        if i < ranges.len() {
            lemma_places_taken(ranges[i], shape[i], strides[i], j);
        } else {
            lemma_mul_basics(j as int);
        }
    }
    assert forall|c: Seq<nat>| #[trigger] is_coordinate(c, r.shape@) implies {
        &&& is_coordinate(taken_coordinate(ranges, shape, c), shape)
        &&& element_bit(r, c) == element_bit(a, taken_coordinate(ranges, shape, c))
    } by {
        lemma_slice_distance(ranges, shape, strides, c, shape.len());
        assert(slice_offset(ranges, shape, strides, ranges.len()) >= 0);
    }
}

// ─── Transposed arrays ───────────────────────────────────────────────────────

/// That an array shows the elements of another one with its dimensions in the other
/// order.
pub open spec fn shows_transposed(a: NumToyArray, r: NumToyArray) -> bool {
    &&& same_bytes(a.expr@, r.expr@)
    &&& r.shape@.len() == a.shape@.len()
    &&& forall|c: Seq<nat>| #[trigger]
        is_coordinate(c, r.shape@) <==> is_coordinate(c.reverse(), a.shape@)
    &&& forall|c: Seq<nat>| #[trigger]
        is_coordinate(c, r.shape@) ==> element_bit(r, c) == element_bit(a, c.reverse())
}

proof fn lemma_distance_split(strides: Seq<usize>, c: Seq<nat>, k: nat)
    requires
        0 < k <= strides.len(),
        strides.len() == c.len(),
    ensures
        distance(strides, c, k) == c[0] * strides[0] as nat + distance(
            strides.skip(1),
            c.skip(1),
            (k - 1) as nat,
        ),
    decreases k,
{
    if k > 1 {
        lemma_distance_split(strides, c, (k - 1) as nat);
    } else {
        assert(distance(strides, c, 0) == 0);
        assert(distance(strides.skip(1), c.skip(1), 0) == 0);
    }
}

proof fn lemma_distance_prefix(strides: Seq<usize>, c: Seq<nat>, k: nat)
    requires
        k < strides.len(),
        strides.len() == c.len(),
    ensures
        distance(strides.drop_last(), c.drop_last(), k) == distance(strides, c, k),
    decreases k,
{
    if k > 0 {
        lemma_distance_prefix(strides, c, (k - 1) as nat);
    }
}

proof fn lemma_distance_reversed(strides: Seq<usize>, c: Seq<nat>)
    requires
        strides.len() == c.len(),
    ensures
        distance(strides.reverse(), c, c.len()) == distance(strides, c.reverse(), c.len()),
    decreases c.len(),
{
    let n = c.len();
    if n > 0 {
        let rest = strides.skip(1);
        lemma_distance_reversed(rest, c.drop_last());
        lemma_distance_prefix(strides.reverse(), c, (n - 1) as nat);
        assert(strides.reverse().drop_last() =~= rest.reverse());
        lemma_distance_split(strides, c.reverse(), n);
        assert(c.reverse().skip(1) =~= c.drop_last().reverse());
        assert(c.reverse()[0] == c[n - 1]);
        assert(strides.reverse()[n - 1] == strides[0]);
    }
}

/// The layout of an array in the other order shows its elements with their
/// dimensions in the other order.
pub proof fn law_transpose_shows_elements(a: NumToyArray, r: NumToyArray)
    requires
        a.expr@ is Variable,
        a.bit_strides@.len() == a.shape@.len(),
        r.shape@ == a.shape@.reverse(),
        r.bit_strides@ == a.bit_strides@.reverse(),
        r.expr@ == crate::array::with_layout(
            a.expr@,
            a.shape@.reverse(),
            a.bit_strides@.reverse(),
        ),
    ensures
        shows_transposed(a, r),
{
    assert forall|c: Seq<nat>| #[trigger]
        is_coordinate(c, r.shape@) <==> is_coordinate(c.reverse(), a.shape@) by {
        let n = a.shape@.len() as int;
        if is_coordinate(c, r.shape@) {
            assert forall|i: int| 0 <= i < n implies #[trigger] c.reverse()[i] < a.shape@[i] by {
                assert(c[n - 1 - i] < r.shape@[n - 1 - i]);
            }
        }
        if is_coordinate(c.reverse(), a.shape@) {
            assert forall|i: int| 0 <= i < n implies #[trigger] c[i] < r.shape@[i] by {
                assert(c.reverse()[n - 1 - i] < a.shape@[n - 1 - i]);
            }
        }
    }
    assert forall|c: Seq<nat>| #[trigger]
        is_coordinate(c, r.shape@) implies element_bit(r, c) == element_bit(a, c.reverse()) by {
        lemma_distance_reversed(a.bit_strides@, c);
    }
}

// ─── Row-major arrays ────────────────────────────────────────────────────────

proof fn lemma_row_major(s: Seq<usize>, unit: nat, c: Seq<nat>, k: nat)
    requires
        strides_fit(s, unit),
        c.len() == s.len(),
        k <= s.len(),
    ensures
        distance(stride_sizes(s, unit), c, k) + unit * flat_index(c, s, k) == unit * flat_index(
            c,
            s,
            0,
        ),
    decreases k,
{
    if k > 0 {
        let i = (k - 1) as nat;
        lemma_row_major(s, unit, c, i);
        let t = suffix_product(s, k);
        assert(stride_sizes(s, unit)[i as int] as nat == unit * t);
        lemma_mul_is_distributive_add(
            unit as int,
            (c[i as int] * t) as int,
            flat_index(c, s, k) as int,
        );
        lemma_mul_is_associative(unit as int, c[i as int] as int, t as int);
        lemma_mul_is_associative(c[i as int] as int, unit as int, t as int);
        lemma_mul_is_commutative(unit as int, c[i as int] as int);
    }
}

/// That the elements of a shape lie row by row: the element at a coordinate lies as
/// many elements behind the first one as its number says.
pub open spec fn lies_by_rows(strides: Seq<usize>, s: Seq<usize>, unit: nat) -> bool {
    forall|c: Seq<nat>| #[trigger]
        is_coordinate(c, s) ==> distance(strides, c, c.len()) == unit * flat_index(c, s, 0)
}

/// With row-major strides the elements lie row by row.
pub proof fn law_row_major_places(s: Seq<usize>, unit: nat)
    requires
        strides_fit(s, unit),
    ensures
        lies_by_rows(stride_sizes(s, unit), s, unit),
{
    assert forall|c: Seq<nat>| #[trigger] is_coordinate(c, s) implies distance(
        stride_sizes(s, unit),
        c,
        c.len(),
    ) == unit * flat_index(c, s, 0) by {
        lemma_row_major(s, unit, c, s.len());
        lemma_mul_basics(unit as int);
    }
}

/// Two shapes of the same elements: the elements whose numbers are equal lie at the
/// same place.
pub proof fn law_reshape_keeps_elements(
    s: Seq<usize>,
    t: Seq<usize>,
    unit: nat,
    c: Seq<nat>,
    d: Seq<nat>,
)
    requires
        strides_fit(s, unit),
        strides_fit(t, unit),
        is_coordinate(c, s),
        is_coordinate(d, t),
        flat_index(c, s, 0) == flat_index(d, t, 0),
    ensures
        distance(stride_sizes(s, unit), c, c.len()) == distance(
            stride_sizes(t, unit),
            d,
            d.len(),
        ),
{
    law_row_major_places(s, unit);
    law_row_major_places(t, unit);
}

} // verus!
