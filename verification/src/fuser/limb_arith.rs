//! Fixed-width integer arithmetic on limb strings.

use crate::bits::{
    lemma_limbs_bound, lemma_limbs_push, lemma_limbs_update, lemma_mod_pow2_mod, lemma_pow2_step,
    limb_count, limbs_nat,
};
use crate::limbs::{
    count_limbs, lemma_padded, lemma_padded_step, limb_at, padded, split_u128, trim_top, zero_limbs,
};
use vstd::arithmetic::div_mod::*;
use vstd::arithmetic::mul::*;
use vstd::arithmetic::power2::*;
use vstd::prelude::*;

verus! {

/// Adds two limb strings modulo `2^bits`.
pub fn add_limbs(a: &[u64], b: &[u64], bits: u32) -> (res: Vec<u64>)
    requires
        bits <= u32::MAX - 63,
    ensures
        res@.len() == limb_count(bits as nat),
        limbs_nat(res@) == (limbs_nat(a@) + limbs_nat(b@)) % pow2(bits as nat),
{
    let k: usize = count_limbs(bits);
    let mut res: Vec<u64> = Vec::with_capacity(k);
    let mut carry: u64 = 0;
    let mut i: usize = 0;
    proof {
        lemma2_to64();
        assert(padded(a@, 0) =~= Seq::<u64>::empty());
        assert(padded(b@, 0) =~= Seq::<u64>::empty());
    }
    while i < k
        invariant
            i <= k,
            res@.len() == i,
            carry <= 1,
            limbs_nat(res@) + carry * pow2((64 * i) as nat) == limbs_nat(padded(a@, i as nat))
                + limbs_nat(padded(b@, i as nat)),
        decreases k - i,
    {
        let va: u64 = limb_at(a, i);
        let vb: u64 = limb_at(b, i);
        let total: u128 = va as u128 + vb as u128 + carry as u128;
        let (low, high) = split_u128(total);
        proof {
            let p = pow2((64 * i) as nat);
            let q = 0x1_0000_0000_0000_0000int;
            lemma_pow2_step((64 * i) as nat);
            assert(64 * i + 64 == 64 * (i + 1));
            lemma_padded_step(a@, i as nat);
            lemma_padded_step(b@, i as nat);
            lemma_limbs_push(res@, low);
            assert((low as int) * p + (high as int) * (q * p) == (va as int) * p + (vb as int) * p
                + (carry as int) * p) by (nonlinear_arith)
                requires
                    low + high * q == va + vb + carry,
            ;
        }
        res.push(low);
        carry = high;
        i = i + 1;
    }
    let ghost m = pow2((64 * k) as nat);
    proof {
        let na = limbs_nat(a@) as int;
        let nb = limbs_nat(b@) as int;
        lemma_padded(a@, k as nat);
        lemma_padded(b@, k as nat);
        lemma_pow2_pos((64 * k) as nat);
        lemma_limbs_bound(res@);
        lemma_add_mod_noop(na, nb, m as int);
        lemma_mod_multiples_vanish(carry as int, limbs_nat(res@) as int, m as int);
        lemma_small_mod(limbs_nat(res@), m);
        assert(limbs_nat(res@) as int == (na + nb) % (m as int));
        lemma_mod_pow2_mod(na + nb, bits as nat, (64 * k) as nat);
    }
    trim_top(&mut res, bits);
    res
}

/// Subtracts `b` from `a` modulo `2^bits`.
pub fn sub_limbs(a: &[u64], b: &[u64], bits: u32) -> (res: Vec<u64>)
    requires
        bits <= u32::MAX - 63,
    ensures
        res@.len() == limb_count(bits as nat),
        limbs_nat(res@) as int == (limbs_nat(a@) - limbs_nat(b@)) % pow2(bits as nat) as int,
{
    let k: usize = count_limbs(bits);
    let mut res: Vec<u64> = Vec::with_capacity(k);
    let mut borrow: u64 = 0;
    let mut i: usize = 0;
    proof {
        lemma2_to64();
        assert(padded(a@, 0) =~= Seq::<u64>::empty());
        assert(padded(b@, 0) =~= Seq::<u64>::empty());
    }
    while i < k
        invariant
            i <= k,
            res@.len() == i,
            borrow <= 1,
            limbs_nat(res@) - borrow * pow2((64 * i) as nat) == limbs_nat(padded(a@, i as nat))
                - limbs_nat(padded(b@, i as nat)),
        decreases k - i,
    {
        let va: u64 = limb_at(a, i);
        let vb: u64 = limb_at(b, i);
        let diff: u64 = va.wrapping_sub(vb).wrapping_sub(borrow);
        let next: u64 = if (va as u128) < vb as u128 + borrow as u128 {
            1
        } else {
            0
        };
        proof {
            let p = pow2((64 * i) as nat);
            let q = 0x1_0000_0000_0000_0000int;
            lemma_pow2_step((64 * i) as nat);
            assert(64 * i + 64 == 64 * (i + 1));
            lemma_padded_step(a@, i as nat);
            lemma_padded_step(b@, i as nat);
            lemma_limbs_push(res@, diff);
            assert(diff - next * q == va - vb - borrow);
            assert((diff as int) * p - (next as int) * (q * p) == (va as int) * p - (vb as int) * p
                - (borrow as int) * p) by (nonlinear_arith)
                requires
                    diff - next * q == va - vb - borrow,
            ;
        }
        res.push(diff);
        borrow = next;
        i = i + 1;
    }
    let ghost m = pow2((64 * k) as nat);
    proof {
        let na = limbs_nat(a@) as int;
        let nb = limbs_nat(b@) as int;
        lemma_padded(a@, k as nat);
        lemma_padded(b@, k as nat);
        lemma_pow2_pos((64 * k) as nat);
        lemma_limbs_bound(res@);
        lemma_sub_mod_noop(na, nb, m as int);
        let d = limbs_nat(padded(a@, k as nat)) - limbs_nat(padded(b@, k as nat));
        assert(limbs_nat(res@) as int == d + borrow * m);
        lemma_mod_multiples_vanish(borrow as int, d, m as int);
        assert(m * borrow + d == d + borrow * m) by (nonlinear_arith);
        lemma_small_mod(limbs_nat(res@), m);
        assert(limbs_nat(res@) as int == (na - nb) % (m as int));
        lemma_mod_pow2_mod(na - nb, bits as nat, (64 * k) as nat);
    }
    trim_top(&mut res, bits);
    res
}

/// Adds `va * b * 2^(64 i)` to `res`, dropping what runs past its end.
fn add_scaled_row(res: &mut Vec<u64>, va: u64, b: &[u64], i: usize)
    requires
        i <= old(res)@.len(),
    ensures
        final(res)@.len() == old(res)@.len(),
        limbs_nat(final(res)@) as int == (limbs_nat(old(res)@) + va * limbs_nat(b@) * pow2(
            (64 * i) as nat,
        )) % pow2((64 * old(res)@.len()) as nat) as int,
{
    let k: usize = res.len();
    let ghost start = res@;
    let ghost pi = pow2((64 * i) as nat);
    let mut carry: u64 = 0;
    let mut j: usize = 0;
    proof {
        assert(padded(b@, 0) =~= Seq::<u64>::empty());
        lemma_mul_basics(pi as int);
        lemma_mul_basics(va as int);
        lemma_mul_basics(pow2((64 * (i + 0)) as nat) as int);
    }
    while j < k - i
        invariant
            i <= k,
            j <= k - i,
            res@.len() == k,
            start.len() == k,
            pi == pow2((64 * i) as nat),
            forall|t: int| i + j <= t < k ==> res@[t] == start[t],
            limbs_nat(res@) + carry * pow2((64 * (i + j)) as nat) == limbs_nat(start) + va
                * limbs_nat(padded(b@, j as nat)) * pi,
        decreases k - i - j,
    {
        let vb: u64 = limb_at(b, j);
        let r: u64 = res[i + j];
        proof {
            assert((va as int) * (vb as int) <= 0xffff_ffff_ffff_ffff * 0xffff_ffff_ffff_ffff)
                by (nonlinear_arith)
                requires
                    0 <= va <= 0xffff_ffff_ffff_ffff,
                    0 <= vb <= 0xffff_ffff_ffff_ffff,
            ;
        }
        let prod: u128 = (va as u128) * (vb as u128) + (r as u128) + (carry as u128);
        let (low, high) = split_u128(prod);
        let ghost pre = res@;
        res.set(i + j, low);
        proof {
            let e = (64 * (i + j)) as nat;
            let p = pow2(e);
            let pj = pow2((64 * j) as nat);
            let q = 0x1_0000_0000_0000_0000int;
            lemma_pow2_step(e);
            assert(e + 64 == 64 * (i + (j + 1)));
            lemma_limbs_update(pre, (i + j) as int, low);
            lemma_padded_step(b@, j as nat);
            lemma_pow2_adds((64 * i) as nat, (64 * j) as nat);
            assert((64 * i) as nat + (64 * j) as nat == e);
            let nb = limbs_nat(padded(b@, j as nat)) as int;
            assert((low - r) * p + (high as int) * (q * p) == (va * vb) * p + (carry as int) * p)
                by (nonlinear_arith)
                requires
                    low + high * q == va * vb + r + carry,
            ;
            assert(va * (nb + vb * pj) * pi == va * nb * pi + (va * vb) * p) by (nonlinear_arith)
                requires
                    p == pi * pj,
            ;
        }
        carry = high;
        j = j + 1;
    }
    proof {
        let m = pow2((64 * k) as nat);
        let w = (k - i) as nat;
        let pw = pow2((64 * w) as nat);
        let nb = limbs_nat(b@) as int;
        let lb = limbs_nat(padded(b@, w)) as int;
        lemma_padded(b@, w);
        lemma_pow2_pos((64 * w) as nat);
        lemma_pow2_pos((64 * k) as nat);
        lemma_pow2_adds((64 * i) as nat, (64 * w) as nat);
        assert((64 * i) as nat + (64 * w) as nat == (64 * k) as nat);
        lemma_fundamental_div_mod(nb, pw as int);
        let t = nb / (pw as int);
        let n0 = limbs_nat(start) as int;
        assert(va * nb * pi == va * lb * pi + (va * t) * m) by (nonlinear_arith)
            requires
                nb == pw * t + lb,
                m == pi * pw,
        ;
        let total = n0 + va * nb * pi;
        lemma_limbs_bound(res@);
        assert(total == limbs_nat(res@) + (carry + va * t) * m) by (nonlinear_arith)
            requires
                total == n0 + va * lb * pi + (va * t) * m,
                limbs_nat(res@) + carry * m == n0 + va * lb * pi,
        ;
        lemma_mod_multiples_vanish(carry + va * t, limbs_nat(res@) as int, m as int);
        assert(m * (carry + va * t) == (carry + va * t) * m) by (nonlinear_arith);
        lemma_small_mod(limbs_nat(res@), m);
    }
}

/// Multiplies two limb strings modulo `2^bits`.
pub fn mul_limbs(a: &[u64], b: &[u64], bits: u32) -> (res: Vec<u64>)
    requires
        bits <= u32::MAX - 63,
    ensures
        res@.len() == limb_count(bits as nat),
        limbs_nat(res@) == (limbs_nat(a@) * limbs_nat(b@)) % pow2(bits as nat),
{
    let k: usize = count_limbs(bits);
    let mut res: Vec<u64> = zero_limbs(k);
    let ghost m = pow2((64 * k) as nat);
    let ghost nb = limbs_nat(b@) as int;
    let mut i: usize = 0;
    proof {
        lemma_pow2_pos((64 * k) as nat);
        assert(padded(a@, 0) =~= Seq::<u64>::empty());
        lemma_mul_basics(nb);
        lemma_small_mod(0, m);
    }
    while i < k
        invariant
            i <= k,
            res@.len() == k,
            m == pow2((64 * k) as nat),
            m > 0,
            nb == limbs_nat(b@),
            limbs_nat(res@) as int == (limbs_nat(padded(a@, i as nat)) * nb) % (m as int),
        decreases k - i,
    {
        let va: u64 = limb_at(a, i);
        let ghost pi = pow2((64 * i) as nat);
        let ghost pa = limbs_nat(padded(a@, i as nat)) as int;
        let ghost before = limbs_nat(res@) as int;
        proof {
            lemma_padded_step(a@, i as nat);
            assert((pa + va * pi) * nb == pa * nb + va * nb * pi) by (nonlinear_arith);
        }
        if va != 0 {
            add_scaled_row(&mut res, va, b, i);
            proof {
                lemma_add_mod_noop(pa * nb, va * nb * pi, m as int);
                lemma_add_mod_noop(before, va * nb * pi, m as int);
                lemma_mod_twice(pa * nb, m as int);
            }
        } else {
            proof {
                assert(va * nb * pi == 0) by (nonlinear_arith)
                    requires
                        va == 0,
                ;
            }
        }
        i = i + 1;
    }
    proof {
        let na = limbs_nat(a@) as int;
        lemma_padded(a@, k as nat);
        lemma_mul_mod_noop_left(na, nb, m as int);
        lemma_mod_pow2_mod(na * nb, bits as nat, (64 * k) as nat);
        assert(na * nb >= 0) by (nonlinear_arith)
            requires
                na >= 0,
                nb >= 0,
        ;
    }
    trim_top(&mut res, bits);
    res
}

} // verus!
