//! Shapes, strides and broadcasting.

use crate::array::view_laws::{law_row_major_places, lies_by_rows};
use vstd::arithmetic::div_mod::*;
use vstd::arithmetic::mul::*;
use vstd::prelude::*;

verus! {

// ─── Element counts ──────────────────────────────────────────────────────────

/// The product of the first `k` dimensions.
pub open spec fn prefix_product(s: Seq<usize>, k: nat) -> nat
    decreases k,
{
    if k == 0 {
        1
    } else {
        prefix_product(s, (k - 1) as nat) * s[k - 1] as nat
    }
}

/// The product of the dimensions from `i` on.
pub open spec fn suffix_product(s: Seq<usize>, i: nat) -> nat
    decreases s.len() - i,
{
    if i >= s.len() {
        1
    } else {
        s[i as int] as nat * suffix_product(s, i + 1)
    }
}

/// The number of elements of a shape.
pub open spec fn numel(s: Seq<usize>) -> nat {
    prefix_product(s, s.len())
}

/// That a shape can be counted from its first dimension on.
pub open spec fn countable_shape(s: Seq<usize>) -> bool {
    forall|k: nat| k <= s.len() ==> #[trigger] prefix_product(s, k) <= usize::MAX
}

/// The products before and after a place make up the whole.
pub proof fn lemma_split_product(s: Seq<usize>, k: nat)
    requires
        k <= s.len(),
    ensures
        prefix_product(s, k) * suffix_product(s, k) == numel(s),
    decreases s.len() - k,
{
    if k < s.len() {
        lemma_split_product(s, k + 1);
        lemma_mul_is_associative(
            prefix_product(s, k) as int,
            s[k as int] as int,
            suffix_product(s, k + 1) as int,
        );
    } else {
        lemma_mul_basics(numel(s) as int);
    }
}

/// The number of elements of a shape, from its last dimension on.
pub proof fn lemma_numel(s: Seq<usize>)
    ensures
        suffix_product(s, 0) == numel(s),
{
    lemma_split_product(s, 0);
    lemma_mul_basics(suffix_product(s, 0) as int);
}

/// A shape with elements has no empty dimension.
pub proof fn lemma_positive(s: Seq<usize>, i: nat)
    requires
        suffix_product(s, 0) > 0,
        i <= s.len(),
    ensures
        suffix_product(s, i) > 0,
        i < s.len() ==> s[i as int] > 0,
    decreases i,
{
    if i > 0 {
        lemma_positive(s, (i - 1) as nat);
        if suffix_product(s, i) == 0 {
            lemma_mul_basics(s[i - 1] as int);
        }
    }
    if i < s.len() && s[i as int] == 0 {
        lemma_mul_basics(suffix_product(s, i + 1) as int);
    }
}

/// The number of elements of a shape.
pub fn count_elements(shape: &[usize]) -> (r: usize)
    requires
        countable_shape(shape@),
    ensures
        r as nat == numel(shape@),
{
    let mut r: usize = 1;
    let mut i: usize = 0;
    while i < shape.len()
        invariant
            countable_shape(shape@),
            i <= shape@.len(),
            r as nat == prefix_product(shape@, i as nat),
        decreases shape@.len() - i,
    {
        assert(prefix_product(shape@, i as nat + 1) <= usize::MAX);
        r = r * shape[i];
        i = i + 1;
    }
    r
}

// ─── Strides ─────────────────────────────────────────────────────────────────

/// Row-major strides in units of `unit` for each element.
pub open spec fn strides(s: Seq<usize>, unit: nat) -> Seq<nat> {
    Seq::new(s.len(), |i: int| unit * suffix_product(s, (i + 1) as nat))
}

/// That the strides of a shape can be counted.
pub open spec fn strides_fit(s: Seq<usize>, unit: nat) -> bool {
    forall|i: nat| 1 <= i <= s.len() ==> unit * #[trigger] suffix_product(s, i) <= usize::MAX
}

/// A list of sizes as numbers.
pub open spec fn as_nats(s: Seq<usize>) -> Seq<nat> {
    Seq::new(s.len(), |i: int| s[i] as nat)
}

/// Row-major strides as sizes.
pub open spec fn stride_sizes(s: Seq<usize>, unit: nat) -> Seq<usize> {
    Seq::new(s.len(), |i: int| (unit * suffix_product(s, (i + 1) as nat)) as usize)
}

/// Row-major strides in bits.
pub fn row_major_bit_strides(shape: &[usize], bits_per_element: usize) -> (r: Vec<usize>)
    requires
        strides_fit(shape@, bits_per_element as nat),
    ensures
        as_nats(r@) == strides(shape@, bits_per_element as nat),
        r@ == stride_sizes(shape@, bits_per_element as nat),
        lies_by_rows(r@, shape@, bits_per_element as nat),
{
    let n: usize = shape.len();
    let ghost unit = bits_per_element as nat;
    let mut r: Vec<usize> = Vec::with_capacity(n);
    let mut i: usize = 0;
    while i < n
        invariant
            i <= n,
            r@.len() == i,
            forall|j: int| 0 <= j < i ==> #[trigger] r@[j] == bits_per_element,
        decreases n - i,
    {
        r.push(bits_per_element);
        i = i + 1;
    }
    if n > 0 {
        let mut i: usize = n - 1;
        proof {
            lemma_mul_basics(unit as int);
            assert(suffix_product(shape@, n as nat) == 1);
        }
        while i > 0
            invariant
                i < n,
                n == shape@.len(),
                r@.len() == n,
                unit == bits_per_element,
                strides_fit(shape@, unit),
                forall|j: int|
                    i <= j < n ==> #[trigger] r@[j] as nat == unit * suffix_product(
                        shape@,
                        (j + 1) as nat,
                    ),
            decreases i,
        {
            let ghost k = i as nat;
            proof {
                assert(unit * suffix_product(shape@, k) <= usize::MAX);
                lemma_mul_is_associative(
                    unit as int,
                    suffix_product(shape@, k + 1) as int,
                    shape@[i as int] as int,
                );
                lemma_mul_is_commutative(
                    suffix_product(shape@, k + 1) as int,
                    shape@[i as int] as int,
                );
            }
            let s: usize = r[i] * shape[i];
            r.set(i - 1, s);
            i = i - 1;
        }
    }
    assert(as_nats(r@) =~= strides(shape@, unit));
    assert(r@ =~= stride_sizes(shape@, unit));
    proof {
        law_row_major_places(shape@, unit);
    }
    r
}

/// Row-major strides in elements.
pub fn row_major_element_strides(shape: &[usize]) -> (r: Vec<usize>)
    requires
        strides_fit(shape@, 1),
    ensures
        as_nats(r@) == strides(shape@, 1),
        lies_by_rows(r@, shape@, 1),
{
    row_major_bit_strides(shape, 1)
}

// ─── Broadcasting ────────────────────────────────────────────────────────────

/// A shape with dimensions of one before it, up to the given rank.
pub open spec fn padded_shape(s: Seq<usize>, rank: nat) -> Seq<usize> {
    Seq::new(
        rank,
        |i: int|
            if i < rank - s.len() {
                1usize
            } else {
                s[i - (rank - s.len())]
            },
    )
}

/// Dimensions of one before a shape change none of its products.
proof fn lemma_padded_product(s: Seq<usize>, rank: nat, k: nat)
    requires
        s.len() <= rank,
        k <= rank,
    ensures
        suffix_product(padded_shape(s, rank), k) == suffix_product(
            s,
            if k < rank - s.len() {
                0
            } else {
                (k - (rank - s.len())) as nat
            },
        ),
    decreases rank - k,
{
    if k < rank {
        lemma_padded_product(s, rank, k + 1);
    }
}

/// Dimensions of one before a shape leave the number of elements as it is.
pub proof fn law_padding_keeps_numel(s: Seq<usize>, rank: nat)
    requires
        s.len() <= rank,
    ensures
        numel(padded_shape(s, rank)) == numel(s),
{
    lemma_numel(s);
    lemma_numel(padded_shape(s, rank));
    lemma_padded_product(s, rank, 0);
}

/// The strides of a padded shape can be counted where those of the shape can.
pub proof fn lemma_padded_fits(s: Seq<usize>, rank: nat)
    requires
        s.len() <= rank,
        countable_shape(s),
        strides_fit(s, 1),
    ensures
        strides_fit(padded_shape(s, rank), 1),
{
    lemma_numel(s);
    assert(prefix_product(s, s.len()) <= usize::MAX);
    assert forall|i: nat| 1 <= i <= rank implies 1 * #[trigger] suffix_product(
        padded_shape(s, rank),
        i,
    ) <= usize::MAX by {
        lemma_padded_product(s, rank, i);
        if i >= rank - s.len() {
            let j = (i - (rank - s.len())) as nat;
            assert(j >= 1 ==> 1 * suffix_product(s, j) <= usize::MAX);
        }
    }
}

/// The larger of two ranks.
pub open spec fn joint_rank(a: Seq<usize>, b: Seq<usize>) -> nat {
    if a.len() > b.len() {
        a.len()
    } else {
        b.len()
    }
}

/// That two shapes agree, or one of them is one, in every dimension, from the
/// last one on.
pub open spec fn compatible(a: Seq<usize>, b: Seq<usize>) -> bool {
    let n = joint_rank(a, b);
    forall|i: int|
        0 <= i < n ==> {
            let x = #[trigger] padded_shape(a, n)[i];
            let y = padded_shape(b, n)[i];
            x == y || x == 1 || y == 1
        }
}

/// The shape of two compatible ones together.
pub open spec fn joint_shape(a: Seq<usize>, b: Seq<usize>) -> Seq<usize> {
    let n = joint_rank(a, b);
    Seq::new(
        n,
        |i: int|
            if padded_shape(a, n)[i] == 1 {
                padded_shape(b, n)[i]
            } else {
                padded_shape(a, n)[i]
            },
    )
}

/// Shapes broadcast in either order alike.
pub proof fn law_broadcast_commutes(a: Seq<usize>, b: Seq<usize>)
    requires
        compatible(a, b),
    ensures
        compatible(b, a),
        joint_shape(a, b) == joint_shape(b, a),
{
    let n = joint_rank(a, b);
    assert forall|i: int| 0 <= i < n implies ({
        let x = #[trigger] padded_shape(b, n)[i];
        let y = padded_shape(a, n)[i];
        x == y || x == 1 || y == 1
    }) by {
        assert(padded_shape(a, n)[i] == padded_shape(a, n)[i]);
    }
    assert forall|i: int| 0 <= i < n implies joint_shape(a, b)[i] == joint_shape(b, a)[i] by {
        let x = padded_shape(a, n)[i];
        let y = padded_shape(b, n)[i];
        assert(x == y || x == 1 || y == 1);
    }
    assert(joint_shape(a, b) =~= joint_shape(b, a));
}

/// That a shape broadcasts to another: it has no more dimensions, and each is
/// that of the other or one.
pub open spec fn broadcasts_to(s: Seq<usize>, t: Seq<usize>) -> bool {
    &&& s.len() <= t.len()
    &&& forall|i: int|
        0 <= i < t.len() ==> {
            let x = #[trigger] padded_shape(s, t.len())[i];
            x == t[i] || x == 1
        }
}

/// Two compatible shapes broadcast to their joint one.
pub proof fn law_broadcast_reaches(a: Seq<usize>, b: Seq<usize>)
    requires
        compatible(a, b),
    ensures
        broadcasts_to(a, joint_shape(a, b)),
        broadcasts_to(b, joint_shape(a, b)),
{
    let n = joint_rank(a, b);
    let t = joint_shape(a, b);
    assert forall|i: int| 0 <= i < n implies ({
        let x = #[trigger] padded_shape(b, n)[i];
        x == t[i] || x == 1
    }) by {
        let x = padded_shape(a, n)[i];
        assert(x == padded_shape(b, n)[i] || x == 1 || padded_shape(b, n)[i] == 1);
    }
}

/// The element of a source that goes to element `rem` of a target, from
/// dimension `d` on.
pub open spec fn source_index(rem: nat, src: Seq<usize>, tgt: Seq<usize>, d: nat) -> nat
    decreases tgt.len() - d,
{
    if d >= tgt.len() {
        0
    } else {
        let t = suffix_product(tgt, d + 1);
        let c = rem / t;
        (if src[d as int] == 1 {
            0
        } else {
            c * suffix_product(src, d + 1)
        }) + source_index(rem % t, src, tgt, d + 1)
    }
}

/// Every element of a target comes from an element of the source.
pub proof fn law_source_index_in_range(rem: nat, src: Seq<usize>, tgt: Seq<usize>, d: nat)
    requires
        src.len() == tgt.len(),
        d <= tgt.len(),
        forall|i: int| 0 <= i < tgt.len() ==> (#[trigger] src[i] == tgt[i] || src[i] == 1),
        suffix_product(tgt, 0) > 0,
        rem < suffix_product(tgt, d),
    ensures
        source_index(rem, src, tgt, d) < suffix_product(src, d),
    decreases tgt.len() - d,
{
    if d < tgt.len() {
        let t = suffix_product(tgt, d + 1);
        let s = suffix_product(src, d + 1);
        let x = tgt[d as int] as nat;
        lemma_positive(tgt, d + 1);
        lemma_mod_bound(rem as int, t as int);
        law_source_index_in_range(rem % t, src, tgt, d + 1);
        let c = rem / t;
        assert(c < x) by {
            lemma_mul_is_commutative(x as int, t as int);
            lemma_multiply_divide_lt(rem as int, t as int, x as int);
        }
        if src[d as int] == 1 {
            lemma_mul_basics(s as int);
        } else {
            lemma_mul_inequality(c as int + 1, x as int, s as int);
            lemma_mul_is_distributive_add_other_way(s as int, c as int, 1);
        }
    }
}

/// A broadcast to a shape itself moves nothing.
pub proof fn law_source_index_identity(rem: nat, s: Seq<usize>, d: nat)
    requires
        d <= s.len(),
        suffix_product(s, 0) > 0,
        rem < suffix_product(s, d),
    ensures
        source_index(rem, s, s, d) == rem,
    decreases s.len() - d,
{
    if d < s.len() {
        let t = suffix_product(s, d + 1);
        lemma_positive(s, d + 1);
        lemma_mod_bound(rem as int, t as int);
        law_source_index_identity(rem % t, s, d + 1);
        lemma_fundamental_div_mod(rem as int, t as int);
        lemma_mul_is_commutative(t as int, (rem / t) as int);
        if s[d as int] == 1 {
            lemma_mul_basics(t as int);
            lemma_basic_div(rem as int, t as int);
            lemma_small_mod(rem, t);
        }
    }
}

/// That a list of places is one of a shape: in every dimension one of its sizes.
pub open spec fn is_coordinate(c: Seq<nat>, s: Seq<usize>) -> bool {
    &&& c.len() == s.len()
    &&& forall|i: int| 0 <= i < s.len() ==> #[trigger] c[i] < s[i]
}

/// The number of the element at a coordinate, row by row, from dimension `d` on.
pub open spec fn flat_index(c: Seq<nat>, s: Seq<usize>, d: nat) -> nat
    decreases s.len() - d,
{
    if d >= s.len() {
        0
    } else {
        c[d as int] * suffix_product(s, d + 1) + flat_index(c, s, d + 1)
    }
}

/// The coordinate of a source that goes to a coordinate of a target: the first
/// place in every dimension of one, and else the same.
pub open spec fn source_coordinate(c: Seq<nat>, src: Seq<usize>) -> Seq<nat> {
    Seq::new(
        c.len(),
        |i: int|
            if src[i] == 1 {
                0
            } else {
                c[i]
            },
    )
}

/// The element of a target at a coordinate comes from the element of the source
/// at the coordinate that goes with it.
pub proof fn law_source_index_of_coordinate(
    c: Seq<nat>,
    src: Seq<usize>,
    tgt: Seq<usize>,
    d: nat,
)
    requires
        src.len() == tgt.len(),
        d <= tgt.len(),
        is_coordinate(c, tgt),
    ensures
        flat_index(c, tgt, d) < suffix_product(tgt, d),
        source_index(flat_index(c, tgt, d), src, tgt, d) == flat_index(
            source_coordinate(c, src),
            src,
            d,
        ),
    decreases tgt.len() - d,
{
    if d < tgt.len() {
        law_source_index_of_coordinate(c, src, tgt, d + 1);
        let t = suffix_product(tgt, d + 1) as int;
        let x = c[d as int] as int;
        let rest = flat_index(c, tgt, d + 1) as int;
        lemma_mul_is_commutative(x, t);
        lemma_fundamental_div_mod_converse(flat_index(c, tgt, d) as int, t, x, rest);
        lemma_mul_inequality(x + 1, tgt[d as int] as int, t);
        lemma_mul_is_distributive_add_other_way(t, x, 1);
        lemma_mul_basics(suffix_product(src, d + 1) as int);
    }
}

/// Whether two lists of sizes are equal.
pub fn same_sizes(a: &[usize], b: &[usize]) -> (r: bool)
    ensures
        r == (a@ == b@),
{
    if a.len() != b.len() {
        return false;
    }
    let mut i: usize = 0;
    while i < a.len()
        invariant
            i <= a@.len(),
            a@.len() == b@.len(),
            forall|j: int| 0 <= j < i ==> a@[j] == b@[j],
        decreases a@.len() - i,
    {
        if a[i] != b[i] {
            return false;
        }
        i = i + 1;
    }
    assert(a@ =~= b@);
    true
}

/// A shape with dimensions of one before it.
pub fn pad_shape(s: &[usize], rank: usize) -> (r: Vec<usize>)
    requires
        s@.len() <= rank,
    ensures
        r@ == padded_shape(s@, rank as nat),
{
    let gap: usize = rank - s.len();
    let mut r: Vec<usize> = Vec::with_capacity(rank);
    let mut i: usize = 0;
    while i < rank
        invariant
            i <= rank,
            s@.len() <= rank,
            gap == rank - s@.len(),
            r@.len() == i,
            forall|j: int| 0 <= j < i ==> #[trigger] r@[j] == padded_shape(s@, rank as nat)[j],
        decreases rank - i,
    {
        if i < gap {
            r.push(1);
        } else {
            r.push(s[i - gap]);
        }
        i = i + 1;
    }
    assert(r@ =~= padded_shape(s@, rank as nat));
    r
}

/// Whether two shapes are compatible.
pub fn are_compatible(a: &[usize], b: &[usize]) -> (r: bool)
    ensures
        r == compatible(a@, b@),
{
    let rank: usize = if a.len() > b.len() {
        a.len()
    } else {
        b.len()
    };
    let x: Vec<usize> = pad_shape(a, rank);
    let y: Vec<usize> = pad_shape(b, rank);
    let mut i: usize = 0;
    while i < rank
        invariant
            i <= rank,
            rank as nat == joint_rank(a@, b@),
            x@ == padded_shape(a@, rank as nat),
            y@ == padded_shape(b@, rank as nat),
            forall|j: int| 0 <= j < i ==> (#[trigger] x@[j] == y@[j] || x@[j] == 1 || y@[j] == 1),
        decreases rank - i,
    {
        if !(x[i] == y[i] || x[i] == 1 || y[i] == 1) {
            proof {
                let n = joint_rank(a@, b@);
                let p = padded_shape(a@, n)[i as int];
                assert(!(p == padded_shape(b@, n)[i as int] || p == 1 || padded_shape(
                    b@,
                    n,
                )[i as int] == 1));
            }
            return false;
        }
        i = i + 1;
    }
    true
}

/// The shape of two compatible ones together.
pub fn broadcast_shape(a: &[usize], b: &[usize]) -> (r: Vec<usize>)
    requires
        compatible(a@, b@),
    ensures
        r@ == joint_shape(a@, b@),
{
    let rank: usize = if a.len() > b.len() {
        a.len()
    } else {
        b.len()
    };
    let x: Vec<usize> = pad_shape(a, rank);
    let y: Vec<usize> = pad_shape(b, rank);
    let mut out: Vec<usize> = Vec::with_capacity(rank);
    let mut i: usize = 0;
    while i < rank
        invariant
            i <= rank,
            rank as nat == joint_rank(a@, b@),
            compatible(a@, b@),
            x@ == padded_shape(a@, rank as nat),
            y@ == padded_shape(b@, rank as nat),
            out@.len() == i,
            forall|j: int| 0 <= j < i ==> #[trigger] out@[j] == joint_shape(a@, b@)[j],
        decreases rank - i,
    {
        proof {
            let p = padded_shape(a@, rank as nat)[i as int];
            assert(p == padded_shape(b@, rank as nat)[i as int] || p == 1 || padded_shape(
                b@,
                rank as nat,
            )[i as int] == 1);
        }
        let d: usize = if x[i] == y[i] {
            x[i]
        } else if x[i] == 1 {
            y[i]
        } else {
            x[i]
        };
        out.push(d);
        i = i + 1;
    }
    assert(out@ =~= joint_shape(a@, b@));
    out
}

/// The source of each element of a target, for a source with as many
/// dimensions.
pub fn source_of(flat: usize, src: &Vec<usize>, src_strides: &Vec<usize>, tgt_strides: &Vec<usize>,
    tgt: &Vec<usize>) -> (r: usize)
    requires
        src@.len() == tgt@.len(),
        forall|i: int| 0 <= i < tgt@.len() ==> (#[trigger] src@[i] == tgt@[i] || src@[i] == 1),
        as_nats(src_strides@) == strides(src@, 1),
        as_nats(tgt_strides@) == strides(tgt@, 1),
        flat < suffix_product(tgt@, 0),
        suffix_product(src@, 0) <= usize::MAX,
    ensures
        r as nat == source_index(flat as nat, src@, tgt@, 0),
        (r as nat) < suffix_product(src@, 0),
{
    let rank: usize = tgt.len();
    let mut acc: usize = 0;
    let mut rem: usize = flat;
    let mut d: usize = 0;
    proof {
        law_source_index_in_range(flat as nat, src@, tgt@, 0);
    }
    while d < rank
        invariant
            d <= rank,
            rank == tgt@.len(),
            src@.len() == tgt@.len(),
            forall|i: int| 0 <= i < tgt@.len() ==> (#[trigger] src@[i] == tgt@[i] || src@[i] == 1),
            as_nats(src_strides@) == strides(src@, 1),
            as_nats(tgt_strides@) == strides(tgt@, 1),
            suffix_product(tgt@, 0) > 0,
            suffix_product(src@, 0) <= usize::MAX,
            rem < suffix_product(tgt@, d as nat),
            acc as nat + source_index(rem as nat, src@, tgt@, d as nat) == source_index(
                flat as nat,
                src@,
                tgt@,
                0,
            ),
            source_index(flat as nat, src@, tgt@, 0) < suffix_product(src@, 0),
        decreases rank - d,
    {
        proof {
            let k = d as nat;
            assert(as_nats(src_strides@).len() == strides(src@, 1).len());
            assert(as_nats(tgt_strides@).len() == strides(tgt@, 1).len());
            assert(as_nats(src_strides@)[d as int] == strides(src@, 1)[d as int]);
            assert(as_nats(tgt_strides@)[d as int] == strides(tgt@, 1)[d as int]);
            lemma_mul_basics(suffix_product(src@, k + 1) as int);
            lemma_mul_basics(suffix_product(tgt@, k + 1) as int);
            lemma_positive(tgt@, k + 1);
            lemma_mod_bound(rem as int, suffix_product(tgt@, k + 1) as int);
            assert(tgt_strides@[d as int] as nat == suffix_product(tgt@, k + 1));
            assert(src_strides@[d as int] as nat == suffix_product(src@, k + 1));
        }
        let stride: usize = tgt_strides[d];
        let coord: usize = rem / stride;
        rem = rem % stride;
        if src[d] != 1 {
            acc = acc + coord * src_strides[d];
        }
        d = d + 1;
    }
    acc
}

} // verus!
