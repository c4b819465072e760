//! Bits, limbs and bytes as natural numbers.
//!
//! A *limb string* is a little-endian sequence of 64-bit words. Two models of
//! it are used side by side: the number it denotes (`limbs_nat`) and the bit
//! found at a position (`limb_bit`). The lemmas here move between the two.

use vstd::arithmetic::div_mod::*;
use vstd::arithmetic::mul::*;
use vstd::arithmetic::power2::*;
use vstd::bits::*;
use vstd::prelude::*;

verus! {

// ─── Models ──────────────────────────────────────────────────────────────────

/// Bit `j` of the number `n`.
pub open spec fn nat_bit(n: nat, j: nat) -> bool {
    (n / pow2(j)) % 2 == 1
}

/// The number that a little-endian sequence of 64-bit words denotes.
pub open spec fn limbs_nat(s: Seq<u64>) -> nat
    decreases s.len(),
{
    if s.len() == 0 {
        0
    } else {
        limbs_nat(s.drop_last()) + (s.last() as nat) * pow2((64 * (s.len() - 1)) as nat)
    }
}

/// Bit `j` of a limb string; positions past its end read as zero.
pub open spec fn limb_bit(s: Seq<u64>, j: nat) -> bool {
    j / 64 < s.len() && nat_bit(s[(j / 64) as int] as nat, j % 64)
}

/// Bit `j` of a byte string, least significant bit of each byte first;
/// positions past its end read as zero.
pub open spec fn byte_bit(s: Seq<u8>, j: nat) -> bool {
    j / 8 < s.len() && nat_bit(s[(j / 8) as int] as nat, j % 8)
}

/// How many 64-bit words hold `bits` bits.
pub open spec fn limb_count(bits: nat) -> nat {
    (bits + 63) / 64
}

/// The two's complement reading of the low `bits` bits of `n`.
pub open spec fn signed_value(n: nat, bits: nat) -> int {
    if bits == 0 {
        0
    } else {
        let m = n % pow2(bits);
        if m >= pow2((bits - 1) as nat) {
            m - pow2(bits)
        } else {
            m as int
        }
    }
}

/// The `i64` with the same low 64 bits as `n`.
pub open spec fn wrap_i64(n: int) -> int {
    let m = n % 0x1_0000_0000_0000_0000;
    if m >= 0x8000_0000_0000_0000 {
        m - 0x1_0000_0000_0000_0000
    } else {
        m
    }
}

// ─── Powers of two ───────────────────────────────────────────────────────────

pub proof fn lemma_pow2_64()
    ensures
        pow2(64) == 0x1_0000_0000_0000_0000,
        pow2(63) == 0x8000_0000_0000_0000,
{
    lemma2_to64();
    lemma2_to64_rest();
}

pub proof fn lemma_pow2_step(e: nat)
    ensures
        pow2(e + 64) == 0x1_0000_0000_0000_0000 * pow2(e),
        pow2(e) > 0,
{
    lemma_pow2_64();
    lemma_pow2_adds(e, 64);
    lemma_pow2_pos(e);
    assert(pow2(e) * 0x1_0000_0000_0000_0000 == 0x1_0000_0000_0000_0000 * pow2(e));
}

pub proof fn lemma_pow2_le(a: nat, b: nat)
    requires
        a <= b,
    ensures
        0 < pow2(a) <= pow2(b),
{
    lemma_pow2_pos(a);
    if a < b {
        lemma_pow2_strictly_increases(a, b);
    }
}

/// A number modulo a power of two keeps its residue modulo a smaller power.
pub proof fn lemma_mod_pow2_mod(x: int, a: nat, b: nat)
    requires
        a <= b,
    ensures
        (x % pow2(b) as int) % pow2(a) as int == x % pow2(a) as int,
{
    let q = (b - a) as nat;
    lemma_pow2_adds(a, q);
    lemma_pow2_pos(a);
    lemma_pow2_pos(q);
    lemma_mod_mod(x, pow2(a) as int, pow2(q) as int);
}

// ─── Single bits of numbers ──────────────────────────────────────────────────

pub proof fn lemma_nat_bit_past(n: nat, j: nat)
    requires
        n < pow2(j),
    ensures
        !nat_bit(n, j),
{
    lemma_basic_div(n as int, pow2(j) as int);
}

/// Bits below `k` of `lo + 2^k * hi` are those of `lo`, those from `k` on are
/// those of `hi`.
pub proof fn lemma_nat_bit_split(lo: nat, hi: nat, k: nat, j: nat)
    requires
        lo < pow2(k),
    ensures
        nat_bit(lo + pow2(k) * hi, j) == if j < k {
            nat_bit(lo, j)
        } else {
            nat_bit(hi, (j - k) as nat)
        },
{
    lemma_pow2_pos(j);
    lemma_pow2_pos(k);
    let n = lo + pow2(k) * hi;
    if j < k {
        let r = (k - j) as nat;
        lemma_pow2_adds(j, r);
        lemma_pow2_unfold(r);
        let t = pow2((r - 1) as nat) * hi;
        assert(pow2(k) * hi == pow2(j) * (2 * t)) by (nonlinear_arith)
            requires
                pow2(k) == pow2(j) * pow2(r),
                pow2(r) == 2 * pow2((r - 1) as nat),
                t == pow2((r - 1) as nat) * hi,
        ;
        lemma_div_multiples_vanish_fancy_sum(lo, 2 * t, pow2(j));
        assert(n / pow2(j) == lo / pow2(j) + 2 * t);
        assert((lo / pow2(j) + 2 * t) % 2 == (lo / pow2(j)) % 2);
    } else {
        let r = (j - k) as nat;
        lemma_pow2_adds(k, r);
        lemma_pow2_pos(r);
        lemma_div_denominator(n as int, pow2(k) as int, pow2(r) as int);
        lemma_div_multiples_vanish_fancy_sum(lo, hi, pow2(k));
        lemma_basic_div(lo as int, pow2(k) as int);
    }
}

/// `(x + d * q) / d == x / d + q`.
pub proof fn lemma_div_multiples_vanish_fancy_sum(x: nat, q: nat, d: nat)
    requires
        d > 0,
    ensures
        (x + d * q) / d == x / d + q,
        (x + d * q) % d == x % d,
{
    lemma_hoist_over_denominator(x as int, q as int, d);
    lemma_mod_multiples_vanish(q as int, x as int, d as int);
    assert(d * q == q * d) by (nonlinear_arith);
}

/// A number is fixed by its bits.
pub proof fn lemma_nat_bits_eq(x: nat, y: nat, n: nat)
    requires
        x < pow2(n),
        y < pow2(n),
        forall|j: nat| j < n ==> #[trigger] nat_bit(x, j) == nat_bit(y, j),
    ensures
        x == y,
    decreases n,
{
    if n == 0 {
        lemma2_to64();
    } else {
        lemma_pow2_unfold(n);
        lemma2_to64();
        assert(nat_bit(x, 0) == nat_bit(y, 0));
        assert(x % 2 == y % 2);
        assert forall|j: nat| j < (n - 1) as nat implies #[trigger] nat_bit(x / 2, j) == nat_bit(
            y / 2,
            j,
        ) by {
            lemma_nat_bit_half(x, j);
            lemma_nat_bit_half(y, j);
            assert(nat_bit(x, j + 1) == nat_bit(y, j + 1));
        }
        lemma_nat_bits_eq(x / 2, y / 2, (n - 1) as nat);
        lemma_fundamental_div_mod(x as int, 2);
        lemma_fundamental_div_mod(y as int, 2);
    }
}

pub proof fn lemma_nat_bit_half(x: nat, j: nat)
    ensures
        nat_bit(x / 2, j) == nat_bit(x, j + 1),
{
    lemma_pow2_adds(1, j);
    lemma2_to64();
    lemma_pow2_pos(j);
    lemma_div_denominator(x as int, 2, pow2(j) as int);
}

// ─── Words ───────────────────────────────────────────────────────────────────

pub proof fn lemma_u64_shr(x: u64, j: u32)
    requires
        j < 64,
    ensures
        (x >> j) as nat == x as nat / pow2(j as nat),
{
    lemma_u64_shr_is_div(x, j as u64);
}

pub proof fn lemma_u64_one_shl(j: u32)
    requires
        j < 64,
    ensures
        (1u64 << j) as nat == pow2(j as nat),
{
    lemma_u64_pow2_no_overflow(j as nat);
    lemma_u64_shl_is_mul(1, j as u64);
}

pub proof fn lemma_u64_bit(x: u64, j: u32)
    requires
        j < 64,
    ensures
        nat_bit(x as nat, j as nat) == ((x >> j) & 1 == 1),
{
    lemma_u64_shr(x, j);
    let y = x >> j;
    assert(y & 1 == y % 2) by (bit_vector);
}

pub proof fn lemma_u8_bit(x: u8, j: u32)
    requires
        j < 8,
    ensures
        nat_bit(x as nat, j as nat) == ((x >> j) & 1 == 1),
{
    lemma_u8_shr_is_div(x, j as u8);
    let y = x >> j;
    assert(y & 1 == y % 2) by (bit_vector);
}

/// Reads bit `j` of a word.
pub fn word_bit(x: u64, j: u32) -> (b: bool)
    requires
        j < 64,
    ensures
        b == nat_bit(x as nat, j as nat),
{
    proof {
        lemma_u64_bit(x, j);
    }
    (x >> j) & 1 == 1
}

/// Keeps the low `n` bits of a word.
pub fn word_low(x: u64, n: u32) -> (r: u64)
    requires
        n < 64,
    ensures
        r as nat == x as nat % pow2(n as nat),
{
    proof {
        lemma_u64_one_shl(n);
        lemma_u64_pow2_no_overflow(n as nat);
        lemma_u64_low_bits_mask_is_mod(x, n as nat);
    }
    x & ((1u64 << n) - 1)
}

/// Writes bit `j` of a word.
pub fn word_set_bit(x: u64, j: u32, b: bool) -> (r: u64)
    requires
        j < 64,
    ensures
        forall|i: nat|
            i < 64 ==> #[trigger] nat_bit(r as nat, i) == if i == j as nat {
                b
            } else {
                nat_bit(x as nat, i)
            },
{
    let r: u64 = if b {
        x | (1u64 << j)
    } else {
        x & !(1u64 << j)
    };
    proof {
        assert forall|i: nat| i < 64 implies #[trigger] nat_bit(r as nat, i) == if i == j as nat {
            b
        } else {
            nat_bit(x as nat, i)
        } by {
            let k = i as u32;
            lemma_u64_bit(x, k);
            lemma_u64_bit(r, k);
            assert(j < 64 && k < 64 ==> (((x | (1u64 << j)) >> k) & 1) == if k == j {
                1u64
            } else {
                (x >> k) & 1
            }) by (bit_vector);
            assert(j < 64 && k < 64 ==> (((x & !(1u64 << j)) >> k) & 1) == if k == j {
                0u64
            } else {
                (x >> k) & 1
            }) by (bit_vector);
        }
    }
    r
}

// ─── Limb strings ────────────────────────────────────────────────────────────

pub proof fn lemma_limbs_bound(s: Seq<u64>)
    ensures
        limbs_nat(s) < pow2((64 * s.len()) as nat),
    decreases s.len(),
{
    if s.len() == 0 {
        lemma2_to64();
    } else {
        let e = (64 * (s.len() - 1)) as nat;
        lemma_limbs_bound(s.drop_last());
        lemma_pow2_step(e);
        assert(e + 64 == 64 * s.len());
        let p = pow2(e);
        let h = s.last() as nat;
        assert(h * p <= 0xffff_ffff_ffff_ffff * p) by (nonlinear_arith)
            requires
                h <= 0xffff_ffff_ffff_ffff,
        ;
    }
}

pub proof fn lemma_limbs_bit(s: Seq<u64>, j: nat)
    ensures
        limb_bit(s, j) == nat_bit(limbs_nat(s), j),
    decreases s.len(),
{
    lemma_limbs_bound(s);
    if j >= 64 * s.len() {
        lemma_pow2_le((64 * s.len()) as nat, j);
        lemma_nat_bit_past(limbs_nat(s), j);
    } else {
        let n = (s.len() - 1) as nat;
        let k = (64 * n) as nat;
        let lo = limbs_nat(s.drop_last());
        lemma_limbs_bound(s.drop_last());
        lemma_nat_bit_split(lo, s.last() as nat, k, j);
        assert(pow2(k) * (s.last() as nat) == (s.last() as nat) * pow2(k)) by (nonlinear_arith);
        if j < k {
            lemma_limbs_bit(s.drop_last(), j);
        } else {
            assert(j / 64 == n);
            assert(j % 64 == j - k);
        }
    }
}

/// Equal length and equal bits make equal limb strings.
pub proof fn lemma_limbs_bits_eq(a: Seq<u64>, b: Seq<u64>)
    requires
        a.len() == b.len(),
        forall|j: nat| j < 64 * a.len() ==> #[trigger] limb_bit(a, j) == limb_bit(b, j),
    ensures
        a == b,
{
    assert forall|i: int| 0 <= i < a.len() implies a[i] == b[i] by {
        lemma_pow2_64();
        assert forall|t: nat| t < 64 implies #[trigger] nat_bit(a[i] as nat, t) == nat_bit(
            b[i] as nat,
            t,
        ) by {
            let j = (64 * i + t) as nat;
            assert(j / 64 == i && j % 64 == t);
            assert(limb_bit(a, j) == limb_bit(b, j));
        }
        lemma_nat_bits_eq(a[i] as nat, b[i] as nat, 64);
    }
    assert(a =~= b);
}

/// Equal length and equal value make equal limb strings.
pub proof fn lemma_limbs_unique(a: Seq<u64>, b: Seq<u64>)
    requires
        a.len() == b.len(),
        limbs_nat(a) == limbs_nat(b),
    ensures
        a == b,
{
    assert forall|j: nat| j < 64 * a.len() implies #[trigger] limb_bit(a, j) == limb_bit(b, j) by {
        lemma_limbs_bit(a, j);
        lemma_limbs_bit(b, j);
    }
    lemma_limbs_bits_eq(a, b);
}

pub proof fn lemma_limbs_push(s: Seq<u64>, x: u64)
    ensures
        limbs_nat(s.push(x)) == limbs_nat(s) + (x as nat) * pow2((64 * s.len()) as nat),
{
    assert(s.push(x).drop_last() =~= s);
}

/// Changing one limb shifts the value by the weighted difference.
pub proof fn lemma_limbs_update(s: Seq<u64>, i: int, v: u64)
    requires
        0 <= i < s.len(),
    ensures
        limbs_nat(s.update(i, v)) as int == limbs_nat(s) + (v - s[i]) * pow2((64 * i) as nat),
    decreases s.len(),
{
    let t = s.update(i, v);
    let p = pow2((64 * (s.len() - 1)) as nat);
    if i == s.len() - 1 {
        assert(t.drop_last() =~= s.drop_last());
        assert((v as int) * p == (s[i] as int) * p + (v - s[i]) * p) by (nonlinear_arith);
    } else {
        assert(t.drop_last() =~= s.drop_last().update(i, v));
        lemma_limbs_update(s.drop_last(), i, v);
    }
}

/// The first `k` limbs denote the value modulo `2^(64 k)`.
pub proof fn lemma_limbs_take(s: Seq<u64>, k: int)
    requires
        0 <= k <= s.len(),
    ensures
        limbs_nat(s.take(k)) == limbs_nat(s) % pow2((64 * k) as nat),
    decreases s.len(),
{
    lemma_limbs_bound(s.take(k));
    lemma_pow2_pos((64 * k) as nat);
    if k == s.len() {
        assert(s.take(k) =~= s);
        lemma_small_mod(limbs_nat(s), pow2((64 * k) as nat));
    } else {
        assert(s.drop_last().take(k) =~= s.take(k));
        lemma_limbs_take(s.drop_last(), k);
        let e = (64 * k) as nat;
        let r = (64 * (s.len() - 1) - 64 * k) as nat;
        lemma_pow2_adds(e, r);
        let h = s.last() as nat;
        let lo = limbs_nat(s.drop_last());
        assert(h * pow2(e + r) == pow2(e) * (h * pow2(r))) by (nonlinear_arith)
            requires
                pow2(e + r) == pow2(e) * pow2(r),
        ;
        lemma_div_multiples_vanish_fancy_sum(lo, h * pow2(r), pow2(e));
    }
}

/// Limbs that are all zero denote zero.
pub proof fn lemma_limbs_zero(s: Seq<u64>)
    requires
        forall|i: int| 0 <= i < s.len() ==> s[i] == 0,
    ensures
        limbs_nat(s) == 0,
    decreases s.len(),
{
    if s.len() > 0 {
        lemma_limbs_zero(s.drop_last());
        lemma_mul_basics(pow2((64 * (s.len() - 1)) as nat) as int);
    }
}

/// A single limb denotes itself.
pub proof fn lemma_limbs_single(x: u64)
    ensures
        limbs_nat(seq![x]) == x as nat,
{
    let s = seq![x];
    lemma2_to64();
    assert(s.drop_last() =~= Seq::<u64>::empty());
    assert(limbs_nat(s.drop_last()) == 0);
    assert(limbs_nat(s) == 0 + (x as nat) * pow2(0));
}

// ─── Numbers given by their bits ─────────────────────────────────────────────

/// The number whose bit `j` is `p(j)`, for `j` below `n`.
pub open spec fn bits_nat(p: spec_fn(nat) -> bool, n: nat) -> nat
    decreases n,
{
    if n == 0 {
        0
    } else {
        bits_nat(p, (n - 1) as nat) + (if p((n - 1) as nat) {
            pow2((n - 1) as nat)
        } else {
            0
        })
    }
}

/// A number given by its bits has these bits and no others.
pub proof fn lemma_bits_nat(p: spec_fn(nat) -> bool, n: nat)
    ensures
        bits_nat(p, n) < pow2(n),
        forall|j: nat| #[trigger] nat_bit(bits_nat(p, n), j) == (j < n && p(j)),
    decreases n,
{
    if n == 0 {
        lemma2_to64();
        assert forall|j: nat| #[trigger] nat_bit(0, j) == false by {
            lemma_pow2_pos(j);
            lemma_nat_bit_past(0, j);
        }
    } else {
        let m = (n - 1) as nat;
        lemma_bits_nat(p, m);
        lemma_pow2_unfold(n);
        let hi: nat = if p(m) {
            1
        } else {
            0
        };
        assert(pow2(m) * hi == if p(m) {
            pow2(m)
        } else {
            0
        });
        assert forall|j: nat| #[trigger] nat_bit(bits_nat(p, n), j) == (j < n && p(j)) by {
            lemma_nat_bit_split(bits_nat(p, m), hi, m, j);
            if j >= m {
                lemma2_to64();
                if j == m {
                    assert(hi / 1 == hi);
                    assert(nat_bit(hi, 0) == (hi == 1));
                } else {
                    lemma_pow2_le(1, (j - m) as nat);
                    lemma_nat_bit_past(hi, (j - m) as nat);
                }
            }
        }
    }
}

/// A number is the one given by its own bits.
pub proof fn lemma_bits_nat_unique(p: spec_fn(nat) -> bool, n: nat, x: nat)
    requires
        x < pow2(n),
        forall|j: nat| j < n ==> #[trigger] nat_bit(x, j) == p(j),
    ensures
        x == bits_nat(p, n),
{
    lemma_bits_nat(p, n);
    lemma_nat_bits_eq(x, bits_nat(p, n), n);
}

} // verus!
