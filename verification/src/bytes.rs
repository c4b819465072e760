//! Numbers as bytes, the least significant byte first.

use vstd::arithmetic::div_mod::*;
use vstd::arithmetic::power2::*;
use vstd::prelude::*;

verus! {

/// The `k` low bytes of a number, the least significant one first.
pub open spec fn le_bytes(n: nat, k: nat) -> Seq<u8>
    decreases k,
{
    if k == 0 {
        Seq::empty()
    } else {
        seq![(n % 256) as u8] + le_bytes(n / 256, (k - 1) as nat)
    }
}

/// The number that bytes stand for, the least significant one first.
pub open spec fn le_value(s: Seq<u8>) -> nat
    decreases s.len(),
{
    if s.len() == 0 {
        0
    } else {
        s[0] as nat + 256 * le_value(s.skip(1))
    }
}

/// The bytes of a number are as many as asked for and stand for it.
pub proof fn law_le_round_trip(n: nat, k: nat)
    ensures
        le_bytes(n, k).len() == k,
        n < pow2(8 * k) ==> le_value(le_bytes(n, k)) == n,
    decreases k,
{
    if k == 0 {
        lemma2_to64();
    } else {
        let rest = le_bytes(n / 256, (k - 1) as nat);
        law_le_round_trip(n / 256, (k - 1) as nat);
        let s = le_bytes(n, k);
        assert(s.skip(1) =~= rest);
        if n < pow2(8 * k) {
            lemma_pow2_adds(8, (8 * (k - 1)) as nat);
            lemma2_to64();
            assert(8 * k == 8 + 8 * (k - 1));
            assert(n / 256 < pow2((8 * (k - 1)) as nat)) by {
                lemma_multiply_divide_lt(
                    n as int,
                    256,
                    pow2((8 * (k - 1)) as nat) as int,
                );
            }
        }
    }
}

/// Bytes are those of the number that they stand for.
pub proof fn lemma_le_of_value(s: Seq<u8>)
    ensures
        le_bytes(le_value(s), s.len()) == s,
        le_value(s) < pow2(8 * s.len()),
    decreases s.len(),
{
    if s.len() == 0 {
        lemma2_to64();
    } else {
        let t = s.skip(1);
        lemma_le_of_value(t);
        let n = le_value(s);
        assert(n % 256 == s[0] as nat && n / 256 == le_value(t)) by {
            lemma_fundamental_div_mod_converse(
                n as int,
                256,
                le_value(t) as int,
                s[0] as int,
            );
        }
        assert(le_bytes(n, s.len()) =~= s);
        lemma_pow2_adds(8, (8 * (s.len() - 1)) as nat);
        lemma2_to64();
        assert(8 * s.len() == 8 + 8 * (s.len() - 1));
    }
}

/// Adds the low `k` bytes of a number to a list.
fn push_le(out: &mut Vec<u8>, v: u64, k: u32)
    requires
        k <= 8,
    ensures
        final(out)@ == old(out)@ + le_bytes(v as nat, k as nat),
{
    let ghost before = out@;
    let mut rest: u64 = v;
    let mut i: u32 = 0;
    proof {
        assert(before + le_bytes(v as nat, k as nat) =~= out@ + le_bytes(
            rest as nat,
            (k - i) as nat,
        ));
    }
    while i < k
        invariant
            i <= k,
            before + le_bytes(v as nat, k as nat) == out@ + le_bytes(rest as nat, (k - i) as nat),
        decreases k - i,
    {
        let ghost was = out@;
        let ghost n = rest as nat;
        let b: u8 = (rest % 256) as u8;
        out.push(b);
        rest = rest / 256;
        proof {
            assert(was + le_bytes(n, (k - i) as nat) =~= out@ + le_bytes(
                n / 256,
                (k - i - 1) as nat,
            ));
        }
        i = i + 1;
    }
    assert(out@ =~= before + le_bytes(v as nat, k as nat));
}

/// Adds the four bytes of a number to a list.
pub fn write_u32_le(buf: &mut Vec<u8>, v: u32)
    ensures
        final(buf)@ == old(buf)@ + le_bytes(v as nat, 4),
{
    push_le(buf, v as u64, 4);
}

/// Adds the eight bytes of a number to a list.
pub fn write_u64_le(buf: &mut Vec<u8>, v: u64)
    ensures
        final(buf)@ == old(buf)@ + le_bytes(v as nat, 8),
{
    push_le(buf, v, 8);
}

/// Adds bytes to a list.
pub fn write_bytes(buf: &mut Vec<u8>, s: &[u8])
    ensures
        final(buf)@ == old(buf)@ + s@,
{
    let ghost before = buf@;
    let mut i: usize = 0;
    while i < s.len()
        invariant
            i <= s@.len(),
            buf@ == before + s@.take(i as int),
        decreases s@.len() - i,
    {
        buf.push(s[i]);
        proof {
            assert(before + s@.take(i as int + 1) =~= (before + s@.take(i as int)).push(
                s@[i as int],
            ));
        }
        i = i + 1;
    }
    assert(s@.take(i as int) =~= s@);
}

/// The number that the `k` bytes from `at` on stand for.
pub fn take_le(s: &[u8], at: usize, k: usize) -> (r: u64)
    requires
        k <= 8,
        at + k <= s@.len(),
    ensures
        r as nat == le_value(s@.subrange(at as int, at + k)),
{
    let n: usize = s.len();
    let mut r: u64 = 0;
    let mut i: usize = k;
    proof {
        lemma2_to64();
        assert(s@.subrange(at + k, at + k) =~= Seq::<u8>::empty());
    }
    while i > 0
        invariant
            i <= k <= 8,
            n == s@.len(),
            at + k <= n,
            r as nat == le_value(s@.subrange(at + i, at + k)),
            (r as nat) < pow2((8 * (k - i)) as nat),
        decreases i,
    {
        let ghost t = s@.subrange(at + i - 1, at + k);
        proof {
            assert(t.skip(1) =~= s@.subrange(at + i as int, at + k));
            assert(t[0] == s@[at + i - 1]);
            lemma_pow2_adds(8, (8 * (k - i)) as nat);
            lemma2_to64();
            assert(8 + 8 * (k - i) == 8 * (k - (i - 1)));
            crate::bits::lemma_pow2_le((8 * (k - (i - 1))) as nat, 64);
            crate::bits::lemma_pow2_64();
        }
        r = 256 * r + s[at + (i - 1)] as u64;
        i = i - 1;
    }
    r
}

/// The number that the four bytes from `at` on stand for.
pub fn read_u32(s: &[u8], at: usize) -> (r: u32)
    requires
        at + 4 <= s@.len(),
    ensures
        r as nat == le_value(s@.subrange(at as int, at + 4)),
{
    let v: u64 = take_le(s, at, 4);
    proof {
        lemma_le_of_value(s@.subrange(at as int, at + 4));
        lemma2_to64();
    }
    v as u32
}

/// The number that the eight bytes from `at` on stand for.
pub fn read_u64(s: &[u8], at: usize) -> (r: u64)
    requires
        at + 8 <= s@.len(),
    ensures
        r as nat == le_value(s@.subrange(at as int, at + 8)),
{
    take_le(s, at, 8)
}

/// A part of a list of bytes.
pub fn bytes_between(s: &[u8], from: usize, to: usize) -> (r: Vec<u8>)
    requires
        from <= to <= s@.len(),
    ensures
        r@ == s@.subrange(from as int, to as int),
{
    let mut r: Vec<u8> = Vec::with_capacity(to - from);
    let mut i: usize = from;
    while i < to
        invariant
            from <= i <= to <= s@.len(),
            r@ =~= s@.subrange(from as int, i as int),
        decreases to - i,
    {
        r.push(s[i]);
        i = i + 1;
    }
    r
}

/// A list of zero bytes.
pub fn zero_bytes(n: usize) -> (r: Vec<u8>)
    ensures
        r@.len() == n,
        forall|i: int| 0 <= i < n ==> r@[i] == 0,
{
    vec![0u8; n]
}

} // verus!
