//! What wide integers are as doubles: the same number, where doubles hold it.

use crate::bits::{lemma_limbs_bit, lemma_limbs_bound, limb_count, limbs_nat, signed_value};
use crate::limbs::{lemma_limbs_of, limbs_of};
use crate::soft_float::laws::{apart, f64_is_finite, f64_units, law_built_double_has_value};
use crate::soft_float::{f64_of_int, f64_of_nat, f64_scaled, f64_sign, float_answer, FloatOp};
use crate::types::int_codec::{
    f64_negated, int_limbs_double, limbs_as_double, limbs_negative, magnitude_limbs,
};
use vstd::arithmetic::div_mod::*;
use vstd::arithmetic::mul::*;
use vstd::arithmetic::power2::*;
use vstd::prelude::*;

verus! {

// ─── Exact doubles ───────────────────────────────────────────────────────────

/// That a double is exactly a whole number, of any size.
pub open spec fn denotes(x: u64, n: int) -> bool {
    &&& f64_is_finite(x)
    &&& f64_units(x) == apart(n, 0) * pow2(1074)
    &&& n != 0 ==> f64_sign(x) == (n < 0)
}

/// That there is a double for a whole number.
pub open spec fn has_double(n: int) -> bool {
    exists|x: u64| denotes(x, n)
}

/// That a floating-point unit gives the sum and the product of whole numbers where there
/// is a double for it.
#[verifier::opaque]
pub open spec fn sums_and_multiplies<F: Fn(FloatOp, u64, u64) -> u64>(f: F) -> bool {
    forall|x: u64, y: u64, a: int, b: int| #[trigger]
        denotes(x, a) && #[trigger] denotes(y, b) ==> {
            &&& has_double(a + b) ==> denotes(float_answer(f, FloatOp::Add, x, y), a + b)
            &&& has_double(a * b) ==> denotes(float_answer(f, FloatOp::Mul, x, y), a * b)
        }
}

proof fn lemma_sum_and_product<F: Fn(FloatOp, u64, u64) -> u64>(
    f: F,
    x: u64,
    y: u64,
    a: int,
    b: int,
)
    requires
        sums_and_multiplies(f),
        denotes(x, a),
        denotes(y, b),
    ensures
        has_double(a + b) ==> denotes(float_answer(f, FloatOp::Add, x, y), a + b),
        has_double(a * b) ==> denotes(float_answer(f, FloatOp::Mul, x, y), a * b),
{
    reveal(sums_and_multiplies);
}

/// That the first `n` limbs, at their places, and their sums have doubles.
pub open spec fn limbs_have_doubles(s: Seq<u64>, n: nat) -> bool {
    forall|i: nat| i < n ==> #[trigger] limb_has_doubles(s, i)
}

pub open spec fn limb_has_doubles(s: Seq<u64>, i: nat) -> bool {
    let v = s[i as int] as int;
    &&& denotes(f64_of_int(v), v)
    &&& has_double(v * pow2(64 * i))
    &&& has_double(limbs_nat(s.take(i as int + 1)) as int)
}

/// A power of two is a double.
proof fn lemma_place_double(i: nat)
    requires
        i < 16,
    ensures
        denotes(f64_scaled(false, 0, 64 * i as int), pow2(64 * i) as int),
{
    law_built_double_has_value(false, 0, 64 * i as int);
    lemma2_to64_rest();
    lemma_pow2_adds(52, (64 * i + 1022) as nat);
    lemma_pow2_adds(64 * i, 1074);
    lemma_pow2_pos(64 * i);
}

proof fn lemma_limbs_sum<F: Fn(FloatOp, u64, u64) -> u64>(f: F, s: Seq<u64>, n: nat)
    requires
        sums_and_multiplies(f),
        n <= s.len(),
        n <= 16,
        limbs_have_doubles(s, n),
    ensures
        denotes(limbs_as_double(f, s, n), limbs_nat(s.take(n as int)) as int),
    decreases n,
{
    if n == 0 {
        lemma_zero_double();
        assert(s.take(0) =~= Seq::empty());
    } else {
        let i = (n - 1) as nat;
        lemma_limbs_sum(f, s, i);
        assert(limb_has_doubles(s, i));
        let v = s[i as int] as int;
        lemma_place_double(i);
        let x = f64_of_nat(false, s[i as int] as nat);
        let y = f64_scaled(false, 0, 64 * (n - 1));
        assert(denotes(x, v));
        assert(denotes(y, pow2(64 * i) as int));
        lemma_sum_and_product(f, x, y, v, pow2(64 * i) as int);
        let t = s.take(n as int);
        assert(t.drop_last() =~= s.take(i as int));
        assert(limbs_nat(t) == limbs_nat(s.take(i as int)) + v * pow2(64 * i));
        assert(s.take(i as int + 1) == t);
        lemma_sum_and_product(
            f,
            limbs_as_double(f, s, i),
            float_answer(f, FloatOp::Mul, x, y),
            limbs_nat(s.take(i as int)) as int,
            v * pow2(64 * i),
        );
    }
}

proof fn lemma_zero_double()
    ensures
        denotes(0, 0),
{
    lemma_mul_basics(pow2(1074) as int);
    assert(crate::soft_float::f64_sig(0) == 0);
    lemma_mul_basics(pow2((crate::soft_float::f64_weight(0) + 1074) as nat) as int);
}

/// A double with its sign turned is the negative number.
proof fn lemma_negated(x: u64, n: int)
    requires
        denotes(x, n),
    ensures
        denotes(f64_negated(x), -n),
{
    let y = f64_negated(x);
    assert(crate::soft_float::f64_exp(y) == crate::soft_float::f64_exp(x)
        && crate::soft_float::f64_frac(y) == crate::soft_float::f64_frac(x)) by {
        let h = 0x8000_0000_0000_0000nat;
        let a = x as nat % h;
        assert((a / 0x10_0000_0000_0000) % 2048 == ((a + h) / 0x10_0000_0000_0000) % 2048);
        assert(a % 0x10_0000_0000_0000 == (a + h) % 0x10_0000_0000_0000);
    }
}

// ─── Magnitudes ──────────────────────────────────────────────────────────────

/// Cutting the last limb cuts the number.
proof fn lemma_top_cut(t: Seq<u64>, bits: nat)
    requires
        t.len() > 0,
        t.len() == limb_count(bits),
        bits % 64 > 0,
    ensures
        limbs_nat(t.update(t.len() - 1, (t.last() as nat % pow2(bits % 64)) as u64)) == limbs_nat(t)
            % pow2(bits),
{
    let k = t.len();
    let e = (64 * (k - 1)) as nat;
    let r = bits % 64;
    let p = pow2(r) as int;
    let top = t.last() as int;
    let w = top % p;
    let q = top / p;
    lemma_pow2_pos(r);
    lemma_pow2_pos(e);
    lemma_fundamental_div_mod(top, p);
    lemma_mod_bound(top, p);
    lemma_mod_decreases(top as nat, p as nat);
    let cut = t.update(k - 1, w as u64);
    let lo = limbs_nat(t.drop_last()) as int;
    assert(cut.drop_last() =~= t.drop_last());
    lemma_limbs_bound(t.drop_last());
    let place = pow2(e) as int;
    assert(bits == e + r);
    lemma_pow2_adds(e, r);
    assert(limbs_nat(cut) == lo + w * place);
    assert(limbs_nat(t) == lo + top * place);
    lemma_mul_is_distributive_add_other_way(place, p * q, w);
    lemma_mul_is_associative(q, p, place);
    lemma_mul_is_commutative(p, q);
    lemma_mul_is_commutative(p, place);
    lemma_mul_inequality(w, p - 1, place);
    lemma_mul_is_distributive_sub_other_way(place, p, 1);
    lemma_fundamental_div_mod_converse(
        limbs_nat(t) as int,
        pow2(bits) as int,
        q,
        limbs_nat(cut) as int,
    );
}

/// The magnitude of a negative number is the number without its sign.
proof fn lemma_magnitude(l: Seq<u64>, bits: nat)
    requires
        bits >= 1,
        l.len() == limb_count(bits),
        limbs_nat(l) < pow2(bits),
        limbs_negative(l, bits),
    ensures
        limbs_nat(magnitude_limbs(l, bits)) == -signed_value(limbs_nat(l), bits),
        magnitude_limbs(l, bits).len() == l.len(),
        signed_value(limbs_nat(l), bits) < 0,
{
    let n = limbs_nat(l) as int;
    let k = l.len();
    let all = pow2((64 * k) as nat) as int;
    let m = pow2(bits) as int;
    lemma_pow2_pos((64 * k) as nat);
    lemma_pow2_pos(bits);
    lemma_limbs_bit(l, (bits - 1) as nat);
    crate::types::laws::lemma_sign_bit(limbs_nat(l), bits);
    lemma_small_mod(limbs_nat(l), pow2(bits));
    assert(n > 0) by {
        lemma_pow2_pos((bits - 1) as nat);
    }
    lemma_mod_bound(-n, all);
    let x = ((-n) % all) as nat;
    lemma_limbs_of(x, k);
    lemma_small_mod(x, all as nat);
    let t = limbs_of(x, k);
    crate::bits::lemma_mod_pow2_mod(-n, bits, (64 * k) as nat);
    assert((-n) % m == m - n) by {
        lemma_mod_add_multiples_vanish(-n, m);
        lemma_small_mod((m - n) as nat, m as nat);
    }
    if bits % 64 > 0 {
        lemma_top_cut(t, bits);
    } else {
        assert(64 * k == bits);
    }
}

/// A wide integer is converted to the double that it is: where there are doubles for its
/// limbs, at their places, and for their sums, what comes out is the number in two's
/// complement that the limbs hold.
pub proof fn law_wide_integer_is_its_double<F: Fn(FloatOp, u64, u64) -> u64>(
    f: F,
    l: Seq<u64>,
    bits: nat,
)
    requires
        sums_and_multiplies(f),
        1 <= bits <= 1024,
        l.len() == limb_count(bits),
        limbs_nat(l) < pow2(bits),
        limbs_have_doubles(
            if limbs_negative(l, bits) {
                magnitude_limbs(l, bits)
            } else {
                l
            },
            l.len(),
        ),
    ensures
        denotes(int_limbs_double(f, l, bits), signed_value(limbs_nat(l), bits)),
{
    let k = l.len();
    if limbs_negative(l, bits) {
        let t = magnitude_limbs(l, bits);
        lemma_magnitude(l, bits);
        lemma_limbs_sum(f, t, k);
        assert(t.take(k as int) =~= t);
        lemma_negated(limbs_as_double(f, t, k), limbs_nat(t) as int);
    } else {
        lemma_limbs_sum(f, l, k);
        assert(l.take(k as int) =~= l);
        lemma_limbs_bit(l, (bits - 1) as nat);
        crate::types::laws::lemma_sign_bit(limbs_nat(l), bits);
        lemma_small_mod(limbs_nat(l), pow2(bits));
    }
}

} // verus!
