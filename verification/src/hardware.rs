//! The packing engine: elements of any width in one dense stream of bits.
//!
//! Element `i` of width `w` takes the bits from `i * w` up to `(i + 1) * w`, the
//! least significant bit of each element and of each byte first.

use crate::bits;
use crate::bits::{
    bits_nat, byte_bit, lemma_bits_nat, lemma_bits_nat_unique, limb_bit, limb_count, nat_bit,
    word_bit,
};
use crate::limbs::{count_limbs, zero_limbs};
use vstd::arithmetic::div_mod::*;
use vstd::arithmetic::mul::*;
use vstd::arithmetic::power2::*;
use vstd::prelude::*;

verus! {

// ─── The packed layout ───────────────────────────────────────────────────────

/// How many elements of width `w` a list of words holds: one word each for up
/// to 64 bits, as many limbs as needed above.
pub open spec fn element_count(words: nat, w: nat) -> nat {
    if w == 0 {
        0
    } else {
        words / limb_count(w)
    }
}

/// How many bytes `n` elements of width `w` take.
pub open spec fn packed_len(n: nat, w: nat) -> nat {
    (n * w + 7) / 8
}

/// Bit `j` of the packed stream.
pub open spec fn packed_bit(src: Seq<u64>, w: nat, j: nat) -> bool {
    j < element_count(src.len(), w) * w && limb_bit(
        src,
        64 * (limb_count(w) * (j / w)) + j % w,
    )
}

/// The packed stream of a list of words.
pub open spec fn packed(src: Seq<u64>, w: nat) -> Seq<u8> {
    Seq::new(
        packed_len(element_count(src.len(), w), w),
        |i: int| bits_nat(|t: nat| packed_bit(src, w, (8 * i + t) as nat), 8) as u8,
    )
}

/// Bit `t` of word `i` read back from a packed stream.
pub open spec fn unpacked_bit(src: Seq<u8>, w: nat, i: nat, t: nat) -> bool {
    let k = limb_count(w);
    let b = 64 * (i % k) + t;
    b < w && byte_bit(src, (i / k) * w + b)
}

/// Word `i` read back from a packed stream.
pub open spec fn unpacked_word(src: Seq<u8>, w: nat, i: nat) -> u64 {
    bits_nat(|t: nat| unpacked_bit(src, w, i, t), 64) as u64
}

/// The words of `count` elements read back from a packed stream.
pub open spec fn unpacked(src: Seq<u8>, count: nat, w: nat) -> Seq<u64> {
    if w == 0 {
        Seq::new(count, |i: int| 0u64)
    } else {
        Seq::new(count * limb_count(w), |i: int| unpacked_word(src, w, i as nat))
    }
}

/// What is left of word `i` of a list of elements of width `w`: all of a word
/// that lies below the width, the low part of the one that crosses it.
pub open spec fn trimmed_word(x: u64, w: nat, i: nat) -> u64 {
    let b = 64 * (i % limb_count(w));
    if b + 64 <= w {
        x
    } else {
        (x as nat % pow2((w - b) as nat)) as u64
    }
}

proof fn lemma_limb_span(w: nat)
    requires
        w > 0,
    ensures
        limb_count(w) > 0,
        64 * limb_count(w) < w + 64,
        w <= 64 * limb_count(w),
{
}

/// Unpacking what was packed gives every element back, cut to its width.
pub proof fn law_unpack_packed(src: Seq<u64>, w: nat, i: nat)
    requires
        w > 0,
        i < element_count(src.len(), w) * limb_count(w),
    ensures
        i < src.len(),
        unpacked(packed(src, w), element_count(src.len(), w), w)[i as int] == trimmed_word(
            src[i as int],
            w,
            i,
        ),
{
    let k = limb_count(w);
    let n = element_count(src.len(), w);
    let bytes = packed(src, w);
    lemma_limb_span(w);
    lemma_fundamental_div_mod(src.len() as int, k as int);
    lemma_mul_is_commutative(n as int, k as int);
    lemma_fundamental_div_mod(i as int, k as int);
    let e = i / k;
    let r = i % k;
    assert(e < n) by {
        lemma_multiply_divide_lt(i as int, k as int, n as int);
    }
    let x = src[i as int];
    let b = 64 * r;
    assert(b < w) by {
        assert(r <= k - 1);
    }
    let p = |t: nat| unpacked_bit(bytes, w, i, t);
    lemma_bits_nat(p, 64);
    bits::lemma_pow2_64();
    let keep: nat = if b + 64 <= w {
        64
    } else {
        (w - b) as nat
    };
    let y = trimmed_word(x, w, i);
    lemma_pow2_pos(keep);
    assert(y as nat == x as nat % pow2(keep)) by {
        if keep == 64 {
            lemma_small_mod(x as nat, pow2(64));
        } else {
            lemma_mod_bound(x as int, pow2(keep) as int);
            bits::lemma_pow2_le(keep, 64);
        }
    }
    assert forall|t: nat| t < 64 implies #[trigger] nat_bit(y as nat, t) == p(t) by {
        lemma2_to64();
        assert(x as nat / 1 == x as nat);
        crate::limbs::lemma_field_bit(x as nat, 0, keep, t);
        let q = b + t;
        if q < w {
            let j = e * w + q;
            lemma_packed_position(e, n, w, q);
            let bp = |s: nat| packed_bit(src, w, (8 * (j / 8) as int + s) as nat);
            lemma_bits_nat(bp, 8);
            assert(bytes[(j / 8) as int] == bits_nat(bp, 8) as u8);
            assert(pow2(8) == 256);
            assert(bytes[(j / 8) as int] as nat == bits_nat(bp, 8));
            assert(bp(j % 8) == packed_bit(src, w, j));
            assert(byte_bit(bytes, j) == packed_bit(src, w, j));
            lemma_mul_is_commutative(e as int, k as int);
            assert(64 * (k * e) + q == 64 * i + t);
            assert((64 * i + t) / 64 == i);
            assert((64 * i + t) % 64 == t);
        }
    }
    lemma_bits_nat_unique(p, 64, y as nat);
}

/// Where bit `q` of element `e` lies in the stream.
proof fn lemma_packed_position(e: nat, n: nat, w: nat, q: nat)
    requires
        e < n,
        q < w,
    ensures
        e * w + q < n * w,
        (e * w + q) / w == e,
        (e * w + q) % w == q,
        (e * w + q) / 8 < packed_len(n, w),
{
    assert(e * w + q < n * w) by (nonlinear_arith)
        requires
            e < n,
            q < w,
    ;
    lemma_fundamental_div_mod_converse((e * w + q) as int, w as int, e as int, q as int);
}

/// Words that fit their width come back unchanged.
pub proof fn law_unpack_packed_exact(src: Seq<u64>, w: nat)
    requires
        w > 0,
        src.len() % limb_count(w) == 0,
        forall|i: int|
            0 <= i < src.len() ==> trimmed_word(#[trigger] src[i], w, i as nat) == src[i],
    ensures
        unpacked(packed(src, w), element_count(src.len(), w), w) == src,
{
    let n = element_count(src.len(), w);
    lemma_limb_span(w);
    lemma_fundamental_div_mod(src.len() as int, limb_count(w) as int);
    lemma_mul_is_commutative(n as int, limb_count(w) as int);
    let back = unpacked(packed(src, w), n, w);
    assert forall|i: int| 0 <= i < src.len() implies back[i] == #[trigger] src[i] by {
        law_unpack_packed(src, w, i as nat);
    }
    assert(back =~= src);
}

// ─── Reading and writing bits ────────────────────────────────────────────────

/// Bit `j` of a byte string, zero past its end.
pub fn read_bit(src: &[u8], j: usize) -> (b: bool)
    ensures
        b == byte_bit(src@, j as nat),
{
    let i: usize = j / 8;
    if i < src.len() {
        let t: u32 = (j % 8) as u32;
        proof {
            bits::lemma_u8_bit(src@[i as int], t);
        }
        (src[i] >> t) & 1 == 1
    } else {
        false
    }
}

/// The number made of the `n` bits from bit `start` of a byte string on.
pub fn read_bits(src: &[u8], start: usize, n: u32) -> (r: u64)
    requires
        n <= 64,
        start + n <= usize::MAX,
    ensures
        r as nat == bits_nat(|t: nat| byte_bit(src@, start as nat + t), n as nat),
{
    let ghost p = |t: nat| byte_bit(src@, start as nat + t);
    let mut r: u64 = 0;
    let mut t: u32 = 0;
    proof {
        lemma2_to64();
    }
    while t < n
        invariant
            t <= n <= 64,
            start + n <= usize::MAX,
            p == (|t: nat| byte_bit(src@, start as nat + t)),
            r as nat == bits_nat(p, t as nat),
            (r as nat) < pow2(t as nat),
        decreases n - t,
    {
        proof {
            bits::lemma_u64_one_shl(t);
            lemma_pow2_unfold(t as nat + 1);
            bits::lemma_pow2_le(t as nat + 1, 64);
            bits::lemma_pow2_64();
        }
        if read_bit(src, start + t as usize) {
            r = r + (1u64 << t);
        }
        t = t + 1;
    }
    r
}

/// Sets bit `j` of a byte.
fn byte_with_bit(x: u8, j: u32, b: bool) -> (r: u8)
    requires
        j < 8,
    ensures
        forall|i: nat|
            i < 8 ==> #[trigger] nat_bit(r as nat, i) == if i == j as nat {
                b
            } else {
                nat_bit(x as nat, i)
            },
{
    let r: u8 = if b {
        x | (1u8 << j)
    } else {
        x & !(1u8 << j)
    };
    proof {
        assert forall|i: nat| i < 8 implies #[trigger] nat_bit(r as nat, i) == if i == j as nat {
            b
        } else {
            nat_bit(x as nat, i)
        } by {
            let t = i as u32;
            bits::lemma_u8_bit(x, t);
            bits::lemma_u8_bit(r, t);
            assert(j < 8 && t < 8 ==> (((x | (1u8 << j)) >> t) & 1) == if t == j {
                1u8
            } else {
                (x >> t) & 1
            }) by (bit_vector);
            assert(j < 8 && t < 8 ==> (((x & !(1u8 << j)) >> t) & 1) == if t == j {
                0u8
            } else {
                (x >> t) & 1
            }) by (bit_vector);
        }
    }
    r
}

/// Writes the low `n` bits of a word over a byte string from bit `start` on.
pub fn write_bits(dst: &mut Vec<u8>, start: usize, n: u32, val: u64)
    requires
        n <= 64,
        start + n <= usize::MAX,
        start + n <= 8 * old(dst)@.len(),
    ensures
        final(dst)@.len() == old(dst)@.len(),
        forall|j: nat|
            #[trigger] byte_bit(final(dst)@, j) == if start <= j < start + n {
                nat_bit(val as nat, (j - start) as nat)
            } else {
                byte_bit(old(dst)@, j)
            },
{
    let ghost before = dst@;
    let mut t: u32 = 0;
    while t < n
        invariant
            t <= n <= 64,
            start + n <= usize::MAX,
            start + n <= 8 * dst@.len(),
            dst@.len() == before.len(),
            forall|j: nat|
                #[trigger] byte_bit(dst@, j) == if start <= j < start + t {
                    nat_bit(val as nat, (j - start) as nat)
                } else {
                    byte_bit(before, j)
                },
        decreases n - t,
    {
        let at: usize = start + t as usize;
        let i: usize = at / 8;
        let s: u32 = (at % 8) as u32;
        let b: bool = word_bit(val, t);
        let ghost pre = dst@;
        let x: u8 = byte_with_bit(dst[i], s, b);
        dst.set(i, x);
        proof {
            assert forall|j: nat| #[trigger] byte_bit(dst@, j) == if start <= j < start + t + 1 {
                nat_bit(val as nat, (j - start) as nat)
            } else {
                byte_bit(before, j)
            } by {
                assert(byte_bit(pre, j) == if start <= j < start + t {
                    nat_bit(val as nat, (j - start) as nat)
                } else {
                    byte_bit(before, j)
                });
                assert(nat_bit(x as nat, j % 8) == if j % 8 == s as nat {
                    b
                } else {
                    nat_bit(pre[i as int] as nat, j % 8)
                });
                if j / 8 == i {
                    if j % 8 == s {
                        assert(j == at);
                    }
                }
            }
        }
        t = t + 1;
    }
}

// ─── The engine ──────────────────────────────────────────────────────────────

/// The packing engine.
pub struct HardwareEngine {}

impl HardwareEngine {
    /// An engine, ready for use.
    pub fn new() -> (r: Self)
        ensures
            r == (HardwareEngine {  }),
    {
        HardwareEngine {  }
    }

    /// Packs elements of `bit_width` bits into a dense stream of bytes. An
    /// element is one word for up to 64 bits, and as many limbs as its width
    /// needs above.
    pub fn pack(&self, src: &[u64], bit_width: u32) -> (r: Vec<u8>)
        requires
            bit_width <= u32::MAX - 63,
            src@.len() * bit_width + 7 <= usize::MAX,
        ensures
            r@ == packed(src@, bit_width as nat),
    {
        if src.len() == 0 || bit_width == 0 {
            let r: Vec<u8> = Vec::new();
            proof {
                if bit_width > 0 {
                    lemma_limb_span(bit_width as nat);
                    lemma_div_of0(limb_count(bit_width as nat) as int);
                }
                assert(0 * bit_width == 0) by (nonlinear_arith);
                assert(r@ =~= packed(src@, bit_width as nat));
            }
            return r;
        }
        let k: usize = count_limbs(bit_width);
        let ghost w = bit_width as nat;
        proof {
            lemma_limb_span(w);
        }
        let n: usize = src.len() / k;
        let width: usize = bit_width as usize;
        proof {
            lemma_div_nonincreasing(src@.len() as int, k as int);
            lemma_mul_inequality(n as int, src@.len() as int, w as int);
        }
        let total: usize = n * width;
        let len: usize = (total + 7) / 8;
        let mut r: Vec<u8> = Vec::with_capacity(len);
        let mut i: usize = 0;
        while i < len
            invariant
                i <= len,
                len as nat == packed_len(n as nat, w),
                total == n * width,
                total + 7 <= usize::MAX,
                len == (total + 7) / 8,
                width == bit_width,
                w == bit_width,
                w > 0,
                k as nat == limb_count(w),
                n as nat == element_count(src@.len(), w),
                r@.len() == i,
                forall|j: int| 0 <= j < i ==> #[trigger] r@[j] == packed(src@, w)[j],
            decreases len - i,
        {
            let b: u8 = Self::packed_byte(src, i, total, width, k);
            r.push(b);
            i = i + 1;
        }
        assert(r@ =~= packed(src@, w));
        r
    }

    /// Byte `i` of the packed stream.
    fn packed_byte(src: &[u64], i: usize, total: usize, width: usize, k: usize) -> (r: u8)
        requires
            width > 0,
            k as nat == limb_count(width as nat),
            total as nat == element_count(src@.len(), width as nat) * width as nat,
            8 * i < total,
            total + 7 <= usize::MAX,
        ensures
            r as nat == bits_nat(
                |t: nat| packed_bit(src@, width as nat, (8 * i + t) as nat),
                8,
            ),
    {
        let ghost w = width as nat;
        let ghost n = element_count(src@.len(), w);
        let ghost p = |t: nat| packed_bit(src@, w, (8 * i + t) as nat);
        let mut r: u8 = 0;
        let mut t: u32 = 0;
        proof {
            lemma2_to64();
        }
        while t < 8
            invariant
                t <= 8,
                w == width,
                width > 0,
                k as nat == limb_count(w),
                n == element_count(src@.len(), w),
                total as nat == n * w,
                8 * i < total,
                total + 7 <= usize::MAX,
                p == (|t: nat| packed_bit(src@, w, (8 * i + t) as nat)),
                r as nat == bits_nat(p, t as nat),
                (r as nat) < pow2(t as nat),
            decreases 8 - t,
        {
            let j: usize = 8 * i + t as usize;
            let mut bit: bool = false;
            if j < total {
                let e: usize = j / width;
                let q: usize = j % width;
                let words: usize = src.len();
                proof {
                    lemma_limb_span(w);
                    lemma_multiply_divide_lt(j as int, w as int, n as int);
                    lemma_fundamental_div_mod(src@.len() as int, k as int);
                    lemma_mul_inequality(e as int + 1, n as int, k as int);
                    lemma_mul_is_distributive_add(k as int, e as int, 1);
                    lemma_mul_is_commutative(e as int + 1, k as int);
                    lemma_mul_is_commutative(n as int, k as int);
                    lemma_mod_bound(j as int, w as int);
                    assert(q / 64 < k);
                    assert(k * e + q / 64 < words);
                }
                let limb: usize = k * e + q / 64;
                bit = word_bit(src[limb], (q % 64) as u32);
                proof {
                    let g = 64 * (k as nat * e as nat) + q as nat;
                    assert(g / 64 == limb as nat);
                    assert(g % 64 == q as nat % 64);
                }
            }
            proof {
                assert(bit == p(t as nat));
                lemma_pow2_unfold(t as nat + 1);
                bits::lemma_pow2_le(t as nat + 1, 8);
                bits::lemma_u64_one_shl(t);
                lemma2_to64();
            }
            if bit {
                let one: u64 = 1u64 << t;
                r = r + one as u8;
            }
            t = t + 1;
        }
        r
    }

    /// Reads `count` elements of `bit_width` bits back from a packed stream.
    /// Bits past its end are zero.
    pub fn unpack(&self, src: &[u8], count: usize, bit_width: u32) -> (r: Vec<u64>)
        requires
            bit_width <= u32::MAX - 63,
            count * bit_width + 64 <= usize::MAX,
        ensures
            r@ == unpacked(src@, count as nat, bit_width as nat),
    {
        if bit_width == 0 {
            let r: Vec<u64> = zero_limbs(count);
            assert(r@ =~= unpacked(src@, count as nat, 0));
            return r;
        }
        let ghost w = bit_width as nat;
        let k: usize = count_limbs(bit_width);
        let width: usize = bit_width as usize;
        let mut r: Vec<u64> = Vec::new();
        let mut e: usize = 0;
        proof {
            lemma_limb_span(w);
            assert(0 * k == 0) by (nonlinear_arith);
        }
        while e < count
            invariant
                e <= count,
                w == bit_width,
                width == bit_width,
                w > 0,
                k as nat == limb_count(w),
                k >= 1,
                64 * k < w + 64,
                count * bit_width + 64 <= usize::MAX,
                r@.len() == e * k,
                forall|j: int| 0 <= j < e * k ==> #[trigger] r@[j] == unpacked_word(src@, w, j as nat),
            decreases count - e,
        {
            let mut l: usize = 0;
            while l < k
                invariant
                    l <= k,
                    e < count,
                    w == bit_width,
                    width == bit_width,
                    w > 0,
                    k as nat == limb_count(w),
                    64 * k < w + 64,
                    count * bit_width + 64 <= usize::MAX,
                    r@.len() == e * k + l,
                    forall|j: int|
                        0 <= j < e * k + l ==> #[trigger] r@[j] == unpacked_word(
                            src@,
                            w,
                            j as nat,
                        ),
                decreases k - l,
            {
                let base: usize = 64 * l;
                let rest: usize = width - base;
                let len: u32 = if rest < 64 {
                    rest as u32
                } else {
                    64
                };
                proof {
                    lemma_mul_inequality(e as int + 1, count as int, w as int);
                    lemma_mul_is_distributive_add_other_way(w as int, e as int, 1);
                }
                let x: u64 = read_bits(src, e * width + base, len);
                proof {
                    let i = (e * k + l) as nat;
                    lemma_fundamental_div_mod_converse(i as int, k as int, e as int, l as int);
                    let start = (e * width + base) as nat;
                    let p = |t: nat| byte_bit(src@, start + t);
                    let q = |t: nat| unpacked_bit(src@, w, i, t);
                    lemma_bits_nat(p, len as nat);
                    bits::lemma_pow2_le(len as nat, 64);
                    bits::lemma_pow2_64();
                    assert forall|t: nat| t < 64 implies #[trigger] nat_bit(x as nat, t) == q(t) by {
                        assert(nat_bit(bits_nat(p, len as nat), t) == (t < len as nat && p(t)));
                    }
                    lemma_bits_nat_unique(q, 64, x as nat);
                    assert(x == unpacked_word(src@, w, i));
                }
                r.push(x);
                l = l + 1;
            }
            proof {
                lemma_mul_is_distributive_add_other_way(k as int, e as int, 1);
            }
            e = e + 1;
        }
        proof {
            assert(r@ =~= unpacked(src@, count as nat, w));
        }
        r
    }
}

} // verus!
