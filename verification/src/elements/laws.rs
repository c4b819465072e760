//! Scalable types hold the values for which they are chosen.

use crate::elements::{
    all_non_negative, is_float_type, scalable_float_type, widest_float, widest_int,
};
use crate::soft_float::{
    exact_integer, f64_exp, f64_frac, f64_is_infinite, f64_is_nan, f64_is_non_negative,
    f64_is_zero, f64_of_int, f64_rounded, lemma_top_bit, top_bit, FloatOp,
};
use crate::types::float_codec::{
    exponent_fits, first_fit, float_config, float_exponent, float_layout,
    mantissa_width, scalable_mantissa,
};
use crate::types::int_codec::scalable_int_bits;
use crate::types::laws::{float_exact, int_fits, law_array_holds_codes, law_exact_integer_is_held};
use crate::types::{codable, dtype_width, DataType};
use vstd::arithmetic::power2::*;
use vstd::prelude::*;

verus! {

// ─── Floats ──────────────────────────────────────────────────────────────────

/// That a double is a number other than zero, for which a width is chosen.
pub open spec fn is_measured(v: u64) -> bool {
    !f64_is_zero(v) && !f64_is_nan(v) && !f64_is_infinite(v)
}

/// The least exponent width, two bits at least, that holds the exponent of a double.
pub open spec fn is_least_exponent(v: u64, e: nat) -> bool {
    &&& 2 <= e <= 15
    &&& exponent_fits(float_exponent(v), e)
    &&& forall|d: nat| 2 <= d < e ==> !#[trigger] exponent_fits(float_exponent(v), d)
}

/// That a width `b` and an exponent width `e` hold the values of a list. The
/// exponent of each value fits, and `e` is four or no larger than a value asks for.
/// Each value has the mantissa that its magnitude asks for, but for what four
/// exponent bits take of it; and `b` is no larger than that of eight bits, that of a
/// mantissa bit beside the exponent, or what a value asks for.
pub open spec fn holds_floats(vals: Seq<u64>, steal_sign: bool, b: nat, e: nat) -> bool {
    let sign: nat = if steal_sign {
        0
    } else {
        1
    };
    &&& 4 <= e <= 15
    &&& float_layout(b, e, steal_sign)
    &&& mantissa_width(b, e, steal_sign) >= 1
    &&& forall|i: int|
        #![trigger vals[i]]
        0 <= i < vals.len() && is_measured(vals[i]) ==> {
            &&& exponent_fits(float_exponent(vals[i]), e)
            &&& mantissa_width(b, e, steal_sign) >= asked_mantissa(vals[i])
        }
    &&& e > 4 ==> exists|i: int|
        #![trigger vals[i]]
        0 <= i < vals.len() && is_measured(vals[i]) && !exponent_fits(
            float_exponent(vals[i]),
            (e - 1) as nat,
        )
    &&& b > 8 && b > e + sign + 1 ==> exists|i: int, d: nat|
        #![trigger is_least_exponent(vals[i], d)]
        0 <= i < vals.len() && is_measured(vals[i]) && is_least_exponent(vals[i], d) && b == d
            + scalable_mantissa(float_exponent(vals[i])) + sign
}

/// The mantissa that a double is given: that of its magnitude, less what it lacks of
/// four exponent bits.
pub open spec fn asked_mantissa(v: u64) -> nat {
    let x = float_exponent(v);
    let m = scalable_mantissa(x) as nat;
    if exponent_fits(x, 2) {
        (m - 2) as nat
    } else if exponent_fits(x, 3) {
        (m - 1) as nat
    } else {
        m
    }
}

proof fn lemma_fits_range(x: int, e: nat)
    requires
        2 <= e,
    ensures
        exponent_fits(x, e) <==> 2 - pow2((e - 1) as nat) <= x <= pow2((e - 1) as nat) - 1,
{
    lemma_pow2_unfold(e);
}

proof fn lemma_fits_wider(x: int, e: nat, d: nat)
    requires
        2 <= e <= d,
        exponent_fits(x, e),
    ensures
        exponent_fits(x, d),
{
    lemma_fits_range(x, e);
    lemma_fits_range(x, d);
    crate::bits::lemma_pow2_le((e - 1) as nat, (d - 1) as nat);
}

proof fn lemma_first_fit_is_least(x: int, from: nat)
    requires
        2 <= from <= 15,
        -2097 <= x <= 1024,
    ensures
        from <= first_fit(x, from) <= 15,
        exponent_fits(x, first_fit(x, from)),
        forall|d: nat| from <= d < first_fit(x, from) ==> !#[trigger] exponent_fits(x, d),
    decreases 15 - from,
{
    if from >= 15 {
        lemma_fits_range(x, 15);
        lemma2_to64();
    } else if !exponent_fits(x, from) {
        lemma_first_fit_is_least(x, from + 1);
    }
}

proof fn lemma_config(v: u64, steal_sign: bool)
    requires
        is_measured(v),
    ensures
        is_least_exponent(v, float_config(v, steal_sign).1 as nat),
        float_config(v, steal_sign).0 == float_config(v, steal_sign).1 + scalable_mantissa(
            float_exponent(v),
        ) + if steal_sign {
            0int
        } else {
            1
        },
        float_config(v, steal_sign).1 < 4 ==> asked_mantissa(v) + 4 == scalable_mantissa(
            float_exponent(v),
        ) + float_config(v, steal_sign).1,
        float_config(v, steal_sign).1 >= 4 ==> asked_mantissa(v) == scalable_mantissa(
            float_exponent(v),
        ),
{
    let x = float_exponent(v);
    crate::types::float_codec::lemma_float_fraction_bound(v);
    lemma_first_fit_is_least(x, 2);
    let e = first_fit(x, 2);
    if e > 2 {
        assert(!exponent_fits(x, 2));
    }
    if e > 3 {
        assert(!exponent_fits(x, 3));
    }
}

/// A value that needs a wider exponent has no smaller magnitude.
proof fn lemma_wider_is_larger(x: int, y: int, e: nat)
    requires
        2 <= e,
        exponent_fits(x, e),
        !exponent_fits(y, e),
    ensures
        scalable_mantissa(x) <= scalable_mantissa(y),
{
    lemma_fits_range(x, e);
    lemma_fits_range(y, e);
    lemma_pow2_pos((e - 1) as nat);
}

proof fn lemma_widest(vals: Seq<u64>, steal_sign: bool)
    ensures
        ({
            let (b, e) = widest_float(vals, steal_sign);
            let sign: nat = if steal_sign {
                0
            } else {
                1
            };
            &&& 8 <= b <= 56
            &&& 4 <= e <= 15
            &&& forall|i: int|
                #![trigger vals[i]]
                0 <= i < vals.len() && is_measured(vals[i]) ==> {
                    &&& exponent_fits(float_exponent(vals[i]), e)
                    &&& b >= asked_mantissa(vals[i]) + e + sign
                }
            &&& e > 4 ==> exists|i: int|
                #![trigger vals[i]]
                0 <= i < vals.len() && is_measured(vals[i]) && is_least_exponent(vals[i], e) && b
                    >= e + scalable_mantissa(float_exponent(vals[i])) + sign
            &&& b > 8 ==> exists|i: int, d: nat|
                #![trigger is_least_exponent(vals[i], d)]
                0 <= i < vals.len() && is_measured(vals[i]) && is_least_exponent(vals[i], d) && b
                    == d + scalable_mantissa(float_exponent(vals[i])) + sign
        }),
    decreases vals.len(),
{
    if vals.len() > 0 {
        let rest = vals.drop_last();
        let last = vals.last();
        let n = vals.len() - 1;
        lemma_widest(rest, steal_sign);
        let sign: nat = if steal_sign {
            0
        } else {
            1
        };
        let (rb, re) = widest_float(rest, steal_sign);
        let (cb, ce) = float_config(last, steal_sign);
        let (b, e) = widest_float(vals, steal_sign);
        let x = float_exponent(last);
        assert forall|i: int| 0 <= i < n implies #[trigger] vals[i] == rest[i] by {}
        assert(vals[n] == last);
        if is_measured(last) {
            lemma_config(last, steal_sign);
            lemma_fits_wider(x, ce as nat, e);
            if ce < 4 {
                lemma_fits_wider(x, ce as nat, 4);
            }
            if re > 4 {
                let j = choose|j: int|
                    #![trigger rest[j]]
                    0 <= j < rest.len() && is_measured(rest[j]) && is_least_exponent(rest[j], re)
                        && rb >= re + scalable_mantissa(float_exponent(rest[j])) + sign;
                assert(vals[j] == rest[j]);
                let y = float_exponent(rest[j]);
                if ce < re {
                    // A wider exponent comes with no smaller mantissa.
                    let w: nat = if ce < 4 {
                        4
                    } else {
                        ce as nat
                    };
                    lemma_fits_wider(x, ce as nat, w);
                    assert(!exponent_fits(y, w));
                    lemma_wider_is_larger(x, y, w);
                } else {
                    lemma_fits_wider(y, re, ce as nat);
                }
            }
            assert(b >= asked_mantissa(last) + e + sign);
        }
        assert forall|i: int|
            #![trigger vals[i]]
            0 <= i < vals.len() && is_measured(vals[i]) implies {
            &&& exponent_fits(float_exponent(vals[i]), e)
            &&& b >= asked_mantissa(vals[i]) + e + sign
        } by {
            if i < n {
                let z = float_exponent(rest[i]);
                assert(exponent_fits(z, re));
                lemma_fits_wider(z, re, e);
                if e > re {
                    assert(!exponent_fits(x, re)) by {
                        if is_measured(last) {
                            assert(is_least_exponent(last, ce as nat));
                        }
                    }
                    lemma_wider_is_larger(z, x, re);
                }
            }
        }
        if e > 4 {
            if e > re {
                assert(is_measured(vals[n]) && is_least_exponent(vals[n], e));
            } else {
                let j = choose|j: int|
                    #![trigger rest[j]]
                    0 <= j < rest.len() && is_measured(rest[j]) && is_least_exponent(rest[j], re)
                        && rb >= re + scalable_mantissa(float_exponent(rest[j])) + sign;
                assert(vals[j] == rest[j]);
            }
        }
        if b > 8 {
            if b > rb {
                assert(is_measured(vals[n]) && is_least_exponent(vals[n], ce as nat));
            } else {
                let (j, d) = choose|j: int, d: nat|
                    #![trigger is_least_exponent(rest[j], d)]
                    0 <= j < rest.len() && is_measured(rest[j]) && is_least_exponent(rest[j], d)
                        && rb == d + scalable_mantissa(float_exponent(rest[j])) + sign;
                assert(vals[j] == rest[j]);
                assert(is_least_exponent(vals[j], d));
            }
        }
    }
}

/// The scalable float type of a list of values holds each of them, and is no wider
/// than that takes.
pub proof fn law_scalable_float_holds(vals: Seq<u64>, steal_sign: bool)
    ensures
        scalable_float_type(vals, steal_sign) matches DataType::ScalableFloat(b, e) && b <= 64
            && holds_floats(vals, steal_sign, b as nat, e as nat),
{
    let (b, e) = widest_float(vals, steal_sign);
    lemma_widest(vals, steal_sign);
    if e > 4 {
        let i = choose|i: int|
            #![trigger vals[i]]
            0 <= i < vals.len() && is_measured(vals[i]) && is_least_exponent(vals[i], e);
        assert(!exponent_fits(float_exponent(vals[i]), (e - 1) as nat));
    }
}

/// That a double has no more fraction bits than the mantissa that it is given: zero,
/// infinity, or a normal number.
pub open spec fn is_short(v: u64) -> bool {
    ||| v == 0
    ||| f64_is_infinite(v)
    ||| {
        &&& 0 < f64_exp(v) < 2047
        &&& f64_frac(v) % pow2((52 - asked_mantissa(v)) as nat) == 0
    }
}

/// Short values are exact in the scalable float type of a list that has them.
pub proof fn law_short_floats_are_exact(vals: Seq<u64>, i: int)
    requires
        0 <= i < vals.len(),
        is_short(vals[i]),
    ensures
        ({
            let s = all_non_negative(vals);
            scalable_float_type(vals, s) matches DataType::ScalableFloat(b, e) && float_exact(
                vals[i],
                b as nat,
                e as nat,
                s,
            )
        }),
{
    let s = all_non_negative(vals);
    law_scalable_float_holds(vals, s);
    let d = scalable_float_type(vals, s);
    let b = dtype_width(d) as nat;
    let e = crate::types::laws::type_exponent_width(d) as nat;
    let v = vals[i];
    let m = mantissa_width(b, e, s);
    if s {
        assert(f64_is_non_negative(v));
    }
    if 0 < f64_exp(v) < 2047 {
        let x = float_exponent(v);
        assert(exponent_fits(x, e));
        let a = asked_mantissa(v);
        if m < 52 {
            let lo = (52 - m) as nat;
            let hi = (52 - a) as nat;
            crate::bits::lemma_mod_pow2_mod(f64_frac(v) as int, lo, hi);
            lemma_pow2_pos(lo);
            vstd::arithmetic::div_mod::lemma_small_mod(0, pow2(lo));
        }
    }
}

/// An array of a list of short values under their scalable float type is read back
/// as the values.
pub proof fn law_scalable_floats_come_back<F: Fn(FloatOp, u64, u64) -> u64>(
    f: F,
    id: usize,
    name: Seq<char>,
    vals: Seq<u64>,
    scale: Option<u32>,
)
    requires
        vals.len() <= usize::MAX,
        forall|i: int| 0 <= i < vals.len() ==> is_short(#[trigger] vals[i]),
    ensures
        crate::fuser::exec::var_doubles(
            f,
            crate::binding::var_view(
                f,
                id,
                name,
                scalable_float_type(vals, all_non_negative(vals)),
                vals,
                scale,
            ),
        ) == vals,
{
    let s = all_non_negative(vals);
    let d = scalable_float_type(vals, s);
    law_scalable_float_holds(vals, s);
    assert forall|i: int| 0 <= i < vals.len() implies float_exact(
        #[trigger] vals[i],
        dtype_width(d) as nat,
        crate::types::laws::type_exponent_width(d) as nat,
        s,
    ) by {
        law_short_floats_are_exact(vals, i);
    }
    assert(is_float_type(d));
    assert(codable(d, s));
    crate::binding::law_values_come_back(f, id, name, d, vals, scale);
}

// ─── Integers ────────────────────────────────────────────────────────────────

/// That a width holds the values of a list as integers, and that no smaller one has
/// room for their magnitudes and a sign.
pub open spec fn holds_integers(vals: Seq<u64>, b: nat) -> bool {
    &&& 2 <= b <= 64
    &&& forall|i: int| 0 <= i < vals.len() ==> int_fits(f64_rounded(#[trigger] vals[i]), b)
    &&& b > 2 ==> exists|i: int|
        #![trigger vals[i]]
        0 <= i < vals.len() && {
            let n = f64_rounded(vals[i]);
            n >= pow2((b - 2) as nat) || -n >= pow2((b - 2) as nat)
        }
}

proof fn lemma_int_bits(x: int, b: nat)
    requires
        -0x8000_0000_0000_0000 <= x <= 0x7fff_ffff_ffff_ffff,
        scalable_int_bits(x) <= b <= 64,
        b >= 2,
    ensures
        int_fits(x, b),
        2 <= scalable_int_bits(x) <= 64,
        scalable_int_bits(x) > 2 ==> {
            let m = pow2((scalable_int_bits(x) - 2) as nat);
            x >= m || -x >= m
        },
{
    let m: nat = if x < 0 {
        (-x) as nat
    } else {
        x as nat
    };
    crate::bits::lemma_pow2_64();
    lemma_pow2_unfold(64);
    if m == 0 {
        lemma_pow2_pos((b - 1) as nat);
    } else {
        lemma_top_bit(m);
        if scalable_int_bits(x) < 64 {
            crate::bits::lemma_pow2_le(top_bit(m) + 1, (b - 1) as nat);
        } else {
            crate::bits::lemma_pow2_le(62, top_bit(m));
        }
    }
}

/// The scalable integer type of a list of values holds each of them as an integer, and
/// is no wider than that takes.
pub proof fn law_scalable_int_holds(vals: Seq<u64>)
    ensures
        holds_integers(vals, widest_int(vals)),
    decreases vals.len(),
{
    if vals.len() > 0 {
        let rest = vals.drop_last();
        let n = vals.len() - 1;
        let b = widest_int(vals);
        law_scalable_int_holds(rest);
        assert forall|i: int| 0 <= i < n implies #[trigger] vals[i] == rest[i] by {}
        let x = f64_rounded(vals[n]);
        lemma_int_bits(x, scalable_int_bits(x));
        lemma_int_bits(x, b);
        assert forall|i: int| 0 <= i < vals.len() implies int_fits(
            f64_rounded(#[trigger] vals[i]),
            b,
        ) by {
            if i < n {
                assert(int_fits(f64_rounded(rest[i]), widest_int(rest)));
                crate::bits::lemma_pow2_le((widest_int(rest) - 1) as nat, (b - 1) as nat);
            }
        }
        if b > 2 {
            if b == widest_int(rest) {
                let j = choose|j: int|
                    #![trigger rest[j]]
                    0 <= j < rest.len() && {
                        let k = f64_rounded(rest[j]);
                        k >= pow2((b - 2) as nat) || -k >= pow2((b - 2) as nat)
                    };
                assert(vals[j] == rest[j]);
            }
        }
    }
}

/// An array of a list of integers under their scalable integer type is read back as the
/// integers.
pub proof fn law_scalable_integers_come_back<F: Fn(FloatOp, u64, u64) -> u64>(
    f: F,
    id: usize,
    name: Seq<char>,
    vals: Seq<u64>,
    scale: Option<u32>,
    i: int,
    n: int,
)
    requires
        vals.len() <= usize::MAX,
        0 <= i < vals.len(),
        vals[i] == f64_of_int(n),
        exact_integer(n),
    ensures
        crate::fuser::exec::var_doubles(
            f,
            crate::binding::var_view(
                f,
                id,
                name,
                DataType::ScalableInt(widest_int(vals) as u32),
                vals,
                scale,
            ),
        )[i] == vals[i],
{
    let b = widest_int(vals) as u32;
    law_scalable_int_holds(vals);
    assert(int_fits(f64_rounded(vals[i]), b as nat));
    law_exact_integer_is_held(f, n, b, scale, false, false);
    law_array_holds_codes(f, vals, DataType::ScalableInt(b), scale, false, false, i as nat);
}

} // verus!
