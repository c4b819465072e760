//! Operations on limb strings that the integer and float codecs share.

use crate::bits::{
    lemma_limbs_unique, lemma_nat_bit_past, lemma_nat_bit_split, lemma_nat_bits_eq, lemma_pow2_64,
    lemma_div_multiples_vanish_fancy_sum, lemma_limbs_bit, lemma_limbs_bound, lemma_limbs_push,
    lemma_limbs_take, lemma_limbs_zero, lemma_pow2_le, lemma_pow2_step, limb_bit, limb_count,
    limbs_nat, nat_bit, word_bit, word_low, word_set_bit,
};
use vstd::arithmetic::div_mod::*;
use vstd::arithmetic::mul::*;
use vstd::arithmetic::power2::*;
use vstd::prelude::*;

verus! {

/// The first `k` limbs of `a`, filled up with zero limbs.
pub open spec fn padded(a: Seq<u64>, k: nat) -> Seq<u64> {
    Seq::new(k, |i: int| if i < a.len() { a[i] } else { 0u64 })
}

/// Padding or cutting to `k` limbs keeps the value modulo `2^(64 k)`.
pub proof fn lemma_padded(a: Seq<u64>, k: nat)
    ensures
        limbs_nat(padded(a, k)) == limbs_nat(a) % pow2((64 * k) as nat),
    decreases k,
{
    let e = (64 * k) as nat;
    lemma_pow2_pos(e);
    if k <= a.len() {
        assert(padded(a, k) =~= a.take(k as int));
        lemma_limbs_take(a, k as int);
    } else {
        let j = (k - 1) as nat;
        lemma_padded(a, j);
        lemma_limbs_bound(a);
        lemma_pow2_le((64 * a.len()) as nat, (64 * j) as nat);
        lemma_pow2_le((64 * a.len()) as nat, e);
        lemma_small_mod(limbs_nat(a), pow2((64 * j) as nat));
        lemma_small_mod(limbs_nat(a), pow2(e));
        assert(padded(a, k) =~= padded(a, j).push(0u64));
        lemma_limbs_push(padded(a, j), 0u64);
        lemma_mul_basics(pow2((64 * j) as nat) as int);
    }
}

pub proof fn lemma_padded_step(a: Seq<u64>, i: nat)
    ensures
        limbs_nat(padded(a, i + 1)) == limbs_nat(padded(a, i)) + (if i < a.len() {
            a[i as int] as nat
        } else {
            0
        }) * pow2((64 * i) as nat),
{
    let x = if i < a.len() {
        a[i as int]
    } else {
        0u64
    };
    assert(padded(a, i + 1) =~= padded(a, i).push(x));
    lemma_limbs_push(padded(a, i), x);
}

/// The limb at `i`, or zero past the end.
pub fn limb_at(a: &[u64], i: usize) -> (x: u64)
    ensures
        x == if i < a@.len() {
            a@[i as int]
        } else {
            0u64
        },
{
    if i < a.len() {
        a[i]
    } else {
        0
    }
}

/// How many limbs hold `bits` bits.
pub fn count_limbs(bits: u32) -> (k: usize)
    requires
        bits <= u32::MAX - 63,
    ensures
        k as nat == limb_count(bits as nat),
{
    ((bits + 63) / 64) as usize
}

/// A string of `k` zero limbs.
pub fn zero_limbs(k: usize) -> (s: Vec<u64>)
    ensures
        s@.len() == k,
        forall|i: int| 0 <= i < k ==> s@[i] == 0,
        limbs_nat(s@) == 0,
{
    let s: Vec<u64> = vec![0u64; k];
    proof {
        lemma_limbs_zero(s@);
    }
    s
}

/// Clears every bit from position `bits` on in a string that holds `bits` bits.
pub fn trim_top(limbs: &mut Vec<u64>, bits: u32)
    requires
        old(limbs)@.len() == limb_count(bits as nat),
    ensures
        final(limbs)@.len() == old(limbs)@.len(),
        limbs_nat(final(limbs)@) == limbs_nat(old(limbs)@) % pow2(bits as nat),
{
    let r: u32 = bits % 64;
    let k: usize = limbs.len();
    proof {
        lemma_limbs_bound(limbs@);
        lemma_pow2_pos(bits as nat);
    }
    if r > 0 && k > 0 {
        let v: u64 = limbs[k - 1];
        let w: u64 = word_low(v, r);
        let ghost before = limbs@;
        limbs.set(k - 1, w);
        proof {
            let e = (64 * (k - 1)) as nat;
            let p = pow2(e);
            let lo = limbs_nat(before.drop_last());
            let n = limbs_nat(before);
            assert(limbs@.drop_last() =~= before.drop_last());
            lemma_limbs_bound(before.drop_last());
            lemma_pow2_pos(e);
            lemma_pow2_pos(r as nat);
            assert(e + r as nat == bits as nat);
            lemma_pow2_adds(e, r as nat);
            assert((v as nat) * p == p * (v as nat)) by (nonlinear_arith);
            assert((w as nat) * p == p * (w as nat)) by (nonlinear_arith);
            lemma_div_multiples_vanish_fancy_sum(lo, v as nat, p);
            lemma_basic_div(lo as int, p as int);
            lemma_small_mod(lo, p);
            lemma_mod_breakdown(n as int, p as int, pow2(r as nat) as int);
        }
    } else {
        proof {
            assert(64 * k == bits);
            lemma_small_mod(limbs_nat(limbs@), pow2(bits as nat));
        }
    }
}

/// Replaces a limb string by its two's complement.
pub fn negate(limbs: &mut Vec<u64>)
    ensures
        final(limbs)@.len() == old(limbs)@.len(),
        limbs_nat(final(limbs)@) as int == (-limbs_nat(old(limbs)@)) % pow2(
            (64 * old(limbs)@.len()) as nat,
        ) as int,
        forall|i: int|
            0 <= i < old(limbs)@.len() && (forall|j: int| 0 <= j < i ==> old(limbs)@[j] == 0)
                ==> #[trigger] final(limbs)@[i] as int == (-old(limbs)@[i]) % 0x1_0000_0000_0000_0000,
{
    let k: usize = limbs.len();
    let ghost before = limbs@;
    let mut carry: u64 = 1;
    let mut i: usize = 0;
    proof {
        lemma2_to64();
        assert(before.take(0) =~= Seq::<u64>::empty());
        assert(limbs@.take(0) =~= Seq::<u64>::empty());
    }
    while i < k
        invariant
            i <= k,
            k == before.len(),
            limbs@.len() == k,
            carry <= 1,
            carry == 1 <==> (forall|j: int| 0 <= j < i ==> before[j] == 0),
            forall|j: int| i <= j < k ==> limbs@[j] == before[j],
            limbs_nat(limbs@.take(i as int)) + carry * pow2((64 * i) as nat) + limbs_nat(
                before.take(i as int),
            ) == pow2((64 * i) as nat),
            forall|m: int|
                0 <= m < i && (forall|j: int| 0 <= j < m ==> before[j] == 0)
                    ==> #[trigger] limbs@[m] as int == (-before[m]) % 0x1_0000_0000_0000_0000,
        decreases k - i,
    {
        let x: u64 = limbs[i];
        let inv: u64 = u64::MAX - x;
        let sum: u64 = inv.wrapping_add(carry);
        let ghost pre = limbs@;
        limbs.set(i, sum);
        let next: u64 = if carry == 1 && sum == 0 {
            1
        } else {
            0
        };
        proof {
            let p = pow2((64 * i) as nat);
            lemma_pow2_step((64 * i) as nat);
            assert(64 * i + 64 == 64 * (i + 1));
            assert(limbs@.take(i + 1) =~= pre.take(i as int).push(sum));
            assert(before.take(i + 1) =~= before.take(i as int).push(x));
            lemma_limbs_push(pre.take(i as int), sum);
            lemma_limbs_push(before.take(i as int), x);
            assert(sum + next * 0x1_0000_0000_0000_0000 == inv + carry);
            let q = 0x1_0000_0000_0000_0000int;
            assert((sum as int) * p + (next as int) * (q * p) + (x as int) * p == (q - 1 + carry)
                * p) by (nonlinear_arith)
                requires
                    sum + next * q == (q - 1 - x) + carry,
            ;
            assert((q - 1 + carry) * p == q * p - p + carry * p) by (nonlinear_arith);
            assert forall|m: int|
                0 <= m < i + 1 && (forall|j: int| 0 <= j < m ==> before[j] == 0)
                implies #[trigger] limbs@[m] as int == (-before[m]) % 0x1_0000_0000_0000_0000 by {
                if m == i {
                    assert(carry == 1);
                } else {
                    assert(limbs@[m] == pre[m]);
                }
            }
            if next == 1 {
                assert(x == 0);
            } else if forall|j: int| 0 <= j < i + 1 ==> before[j] == 0 {
                assert(before[i as int] == 0);
                assert(carry == 1);
            }
        }
        carry = next;
        i = i + 1;
    }
    proof {
        assert(limbs@.take(k as int) =~= limbs@);
        assert(before.take(k as int) =~= before);
        let m = pow2((64 * k) as nat);
        let n = limbs_nat(before) as int;
        lemma_limbs_bound(before);
        lemma_pow2_pos((64 * k) as nat);
        if carry == 1 {
            assert(limbs_nat(limbs@) + m + n == m);
            lemma_small_mod(0, m);
        } else {
            lemma_limbs_bound(limbs@);
            lemma_mod_add_multiples_vanish(-n, m as int);
            lemma_small_mod(limbs_nat(limbs@), m);
        }
    }
}

/// The low and the high word of a double word.
pub fn split_u128(p: u128) -> (r: (u64, u64))
    ensures
        r.0 as int == p % 0x1_0000_0000_0000_0000,
        r.1 as int == p / 0x1_0000_0000_0000_0000,
{
    let base: u128 = 0x1_0000_0000_0000_0000;
    ((p % base) as u64, (p / base) as u64)
}

/// Copies `bit_len` bits of `value_limbs`, from its bit 0 on, to the bits of
/// `limbs` from `bit_offset` on. Bits that fall outside `limbs` are dropped.
pub fn set_bits(limbs: &mut Vec<u64>, value_limbs: &[u64], bit_offset: u32, bit_len: u32)
    requires
        bit_offset + bit_len <= u32::MAX,
    ensures
        final(limbs)@.len() == old(limbs)@.len(),
        forall|j: nat|
            j < 64 * old(limbs)@.len() ==> #[trigger] limb_bit(final(limbs)@, j) == if bit_offset
                <= j < bit_offset + bit_len {
                limb_bit(value_limbs@, (j - bit_offset) as nat)
            } else {
                limb_bit(old(limbs)@, j)
            },
{
    let ghost before = limbs@;
    let mut i: u32 = 0;
    while i < bit_len
        invariant
            i <= bit_len,
            bit_offset + bit_len <= u32::MAX,
            limbs@.len() == before.len(),
            forall|j: nat|
                j < 64 * before.len() ==> #[trigger] limb_bit(limbs@, j) == if bit_offset <= j
                    < bit_offset + i {
                    limb_bit(value_limbs@, (j - bit_offset) as nat)
                } else {
                    limb_bit(before, j)
                },
        decreases bit_len - i,
    {
        let src_limb: usize = (i / 64) as usize;
        let src_bit: u32 = i % 64;
        let bit: bool = src_limb < value_limbs.len() && word_bit(value_limbs[src_limb], src_bit);
        assert(bit == limb_bit(value_limbs@, i as nat));
        let dest: u32 = bit_offset + i;
        let dest_limb: usize = (dest / 64) as usize;
        let dest_bit: u32 = dest % 64;
        let ghost pre = limbs@;
        if dest_limb < limbs.len() {
            let w: u64 = word_set_bit(limbs[dest_limb], dest_bit, bit);
            limbs.set(dest_limb, w);
        }
        proof {
            assert forall|j: nat| j < 64 * before.len() implies #[trigger] limb_bit(limbs@, j)
                == if bit_offset <= j < bit_offset + i + 1 {
                limb_bit(value_limbs@, (j - bit_offset) as nat)
            } else {
                limb_bit(before, j)
            } by {
                assert(limb_bit(pre, j) == if bit_offset <= j < bit_offset + i {
                    limb_bit(value_limbs@, (j - bit_offset) as nat)
                } else {
                    limb_bit(before, j)
                });
                if j / 64 == dest_limb as nat {
                    assert(nat_bit(limbs@[dest_limb as int] as nat, j % 64) == if j % 64
                        == dest_bit as nat {
                        bit
                    } else {
                        nat_bit(pre[dest_limb as int] as nat, j % 64)
                    });
                    if j % 64 == dest_bit as nat {
                        assert(j == dest as nat);
                    } else {
                        assert(j != dest as nat);
                    }
                } else {
                    assert(j != dest as nat);
                }
            }
        }
        i = i + 1;
    }
}

/// The `bit_len` bits of `limbs` from `bit_offset` on, as a limb string.
pub fn get_bits(limbs: &[u64], bit_offset: u32, bit_len: u32) -> (res: Vec<u64>)
    requires
        bit_offset + bit_len <= u32::MAX,
        bit_len <= u32::MAX - 63,
    ensures
        res@.len() == limb_count(bit_len as nat),
        forall|j: nat|
            #[trigger] limb_bit(res@, j) == (j < bit_len && limb_bit(limbs@, bit_offset as nat + j)),
        limbs_nat(res@) == (limbs_nat(limbs@) / pow2(bit_offset as nat)) % pow2(bit_len as nat),
{
    let k: usize = count_limbs(bit_len);
    let mut res: Vec<u64> = zero_limbs(k);
    proof {
        assert forall|j: nat| !#[trigger] limb_bit(res@, j) by {
            lemma_limbs_bit(res@, j);
            lemma_pow2_pos(j);
            lemma_div_of0(pow2(j) as int);
        }
    }
    let mut i: u32 = 0;
    while i < bit_len
        invariant
            i <= bit_len,
            bit_offset + bit_len <= u32::MAX,
            res@.len() == k,
            k == limb_count(bit_len as nat),
            forall|j: nat|
                #[trigger] limb_bit(res@, j) == (j < i && limb_bit(limbs@, bit_offset as nat + j)),
        decreases bit_len - i,
    {
        let src: u32 = bit_offset + i;
        let src_limb: usize = (src / 64) as usize;
        let src_bit: u32 = src % 64;
        let bit: bool = src_limb < limbs.len() && word_bit(limbs[src_limb], src_bit);
        assert(bit == limb_bit(limbs@, bit_offset as nat + i as nat));
        let dest_limb: usize = (i / 64) as usize;
        let dest_bit: u32 = i % 64;
        let ghost pre = res@;
        if dest_limb < res.len() && bit {
            let w: u64 = word_set_bit(res[dest_limb], dest_bit, true);
            res.set(dest_limb, w);
        }
        proof {
            assert(dest_limb < k);
            assert forall|j: nat| #[trigger] limb_bit(res@, j) == (j < i + 1 && limb_bit(
                limbs@,
                bit_offset as nat + j,
            )) by {
                assert(limb_bit(pre, j) == (j < i && limb_bit(limbs@, bit_offset as nat + j)));
                if j / 64 == dest_limb as nat && bit {
                    assert(nat_bit(res@[dest_limb as int] as nat, j % 64) == if j % 64
                        == dest_bit as nat {
                        true
                    } else {
                        nat_bit(pre[dest_limb as int] as nat, j % 64)
                    });
                }
                if j / 64 == dest_limb as nat && j % 64 == dest_bit as nat {
                    assert(j == i as nat);
                } else {
                    assert(j != i as nat);
                }
            }
        }
        i = i + 1;
    }
    proof {
        lemma_field_of_limbs(limbs@, res@, bit_offset as nat, bit_len as nat);
    }
    res
}

/// Bit `j` of the `len` bits of `n` from `off` on.
pub proof fn lemma_field_bit(n: nat, off: nat, len: nat, j: nat)
    ensures
        nat_bit((n / pow2(off)) % pow2(len), j) == (j < len && nat_bit(n, off + j)),
{
    lemma_pow2_pos(off);
    lemma_pow2_pos(len);
    let q = n / pow2(off);
    let lo = q % pow2(len);
    let hi = q / pow2(len);
    lemma_fundamental_div_mod(q as int, pow2(len) as int);
    lemma_mod_bound(q as int, pow2(len) as int);
    lemma_nat_bit_split(lo, hi, len, j);
    lemma_pow2_adds(off, j);
    lemma_pow2_pos(j);
    lemma_div_denominator(n as int, pow2(off) as int, pow2(j) as int);
    if j >= len {
        lemma_pow2_le(len, j);
        lemma_nat_bit_past(lo, j);
    }
}

proof fn lemma_field_of_limbs(limbs: Seq<u64>, res: Seq<u64>, off: nat, len: nat)
    requires
        forall|j: nat| #[trigger] limb_bit(res, j) == (j < len && limb_bit(limbs, off + j)),
        res.len() == limb_count(len),
    ensures
        limbs_nat(res) == (limbs_nat(limbs) / pow2(off)) % pow2(len),
{
    let n = limbs_nat(limbs);
    let v = (n / pow2(off)) % pow2(len);
    let w = (64 * res.len()) as nat;
    lemma_limbs_bound(res);
    lemma_pow2_pos(len);
    lemma_mod_bound((n / pow2(off)) as int, pow2(len) as int);
    lemma_pow2_le(len, w);
    assert forall|j: nat| j < w implies #[trigger] nat_bit(limbs_nat(res), j) == nat_bit(v, j) by {
        lemma_limbs_bit(res, j);
        lemma_limbs_bit(limbs, off + j);
        lemma_field_bit(n, off, len, j);
        assert(limb_bit(res, j) == (j < len && limb_bit(limbs, off + j)));
    }
    lemma_nat_bits_eq(limbs_nat(res), v, w);
}

/// The `k` limbs of the number `n`, taken modulo `2^(64 k)`.
pub open spec fn limbs_of(n: nat, k: nat) -> Seq<u64> {
    Seq::new(k, |i: int| ((n / pow2((64 * i) as nat)) % 0x1_0000_0000_0000_0000) as u64)
}

pub proof fn lemma_limbs_of(n: nat, k: nat)
    ensures
        limbs_of(n, k).len() == k,
        limbs_nat(limbs_of(n, k)) == n % pow2((64 * k) as nat),
    decreases k,
{
    lemma2_to64();
    if k == 0 {
        assert(n % 1 == 0);
    } else {
        let j = (k - 1) as nat;
        let e = (64 * j) as nat;
        lemma_limbs_of(n, j);
        assert(limbs_of(n, k).drop_last() =~= limbs_of(n, j));
        lemma_pow2_step(e);
        assert(e + 64 == 64 * k);
        lemma_pow2_64();
        lemma_mod_breakdown(n as int, pow2(e) as int, 0x1_0000_0000_0000_0000);
        assert(pow2(e) * 0x1_0000_0000_0000_0000 == 0x1_0000_0000_0000_0000 * pow2(e));
        let d = (n / pow2(e)) % 0x1_0000_0000_0000_0000;
        assert(pow2(e) * d == d * pow2(e)) by (nonlinear_arith);
    }
}

/// A limb string is the one of its value.
pub proof fn lemma_limbs_of_nat(s: Seq<u64>)
    ensures
        limbs_of(limbs_nat(s), s.len()) == s,
{
    lemma_limbs_of(limbs_nat(s), s.len());
    lemma_limbs_bound(s);
    lemma_small_mod(limbs_nat(s), pow2((64 * s.len()) as nat));
    lemma_limbs_unique(limbs_of(limbs_nat(s), s.len()), s);
}

/// A limb string of known length and value is the one of that value.
pub proof fn lemma_limbs_are(s: Seq<u64>, n: nat, k: nat)
    requires
        s.len() == k,
        limbs_nat(s) == n,
    ensures
        s == limbs_of(n, k),
{
    lemma_limbs_of_nat(s);
}

} // verus!
