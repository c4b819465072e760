//! The product of a matrix of doubles and a matrix of packed integer weights.

use crate::bits::{
    bits_nat, byte_bit, lemma_bits_nat, lemma_nat_bits_eq, lemma_pow2_64, lemma_pow2_le, limb_count,
    nat_bit, word_bit,
};
use crate::hardware::{packed_len, read_bits, unpacked_bit, unpacked_word};
use crate::soft_float::{
    ask, f64_from_i64, f64_from_u64, f64_of_int, f64_of_nat, float_answer, is_float_unit, F64Bits,
    FloatOp,
};
use vstd::arithmetic::div_mod::*;
use vstd::arithmetic::mul::*;
use vstd::arithmetic::power2::*;
use vstd::prelude::*;

verus! {

/// The code of a weight: the `bits` bits from its first one on.
pub open spec fn weight_code(weights: Seq<u8>, bits: nat, at: nat) -> nat {
    bits_nat(|t: nat| byte_bit(weights, at * bits + t), bits)
}

/// A weight as a double: its code, less one past the largest code where it is that
/// of a negative number, which it is only where the sign is not stolen.
pub open spec fn weight_double<F: Fn(FloatOp, u64, u64) -> u64>(
    f: F,
    code: nat,
    bits: nat,
    steal_sign: bool,
) -> u64 {
    let v = f64_of_nat(false, code);
    if !steal_sign && nat_bit(code, (bits - 1) as nat) {
        float_answer(f, FloatOp::Sub, v, f64_of_int(pow2(bits) as int))
    } else {
        v
    }
}

/// The sum of the first `terms` products of a row of activations and a column of
/// weights, added up in order.
pub open spec fn dot<F: Fn(FloatOp, u64, u64) -> u64>(
    f: F,
    acts: Seq<u64>,
    weights: Seq<u8>,
    k: nat,
    n: nat,
    bits: nat,
    steal_sign: bool,
    row: nat,
    col: nat,
    terms: nat,
) -> u64
    decreases terms,
{
    if terms == 0 {
        0
    } else {
        let i = (terms - 1) as nat;
        float_answer(
            f,
            FloatOp::Add,
            dot(f, acts, weights, k, n, bits, steal_sign, row, col, i),
            float_answer(
                f,
                FloatOp::Mul,
                acts[(row * k + i) as int],
                weight_double(f, weight_code(weights, bits, i * n + col), bits, steal_sign),
            ),
        )
    }
}

/// The product of `m` rows of `k` activations and `n` columns of `k` weights,
/// row by row.
pub open spec fn product<F: Fn(FloatOp, u64, u64) -> u64>(
    f: F,
    acts: Seq<u64>,
    weights: Seq<u8>,
    m: nat,
    k: nat,
    n: nat,
    bits: nat,
    steal_sign: bool,
) -> Seq<u64> {
    Seq::new(
        m * n,
        |p: int|
            dot(
                f,
                acts,
                weights,
                k,
                n,
                bits,
                steal_sign,
                (p / (n as int)) as nat,
                (p % (n as int)) as nat,
                k,
            ),
    )
}

/// A place in a matrix lies before its end.
pub proof fn lemma_place(row: nat, rows: nat, col: nat, cols: nat)
    requires
        row < rows,
        col < cols,
    ensures
        row * cols + col < rows * cols,
        (row * cols + col) / cols == row,
        (row * cols + col) % cols == col,
{
    lemma_mul_inequality(row as int + 1, rows as int, cols as int);
    lemma_mul_is_distributive_add_other_way(cols as int, row as int, 1);
    lemma_fundamental_div_mod_converse(
        (row * cols + col) as int,
        cols as int,
        row as int,
        col as int,
    );
}

/// The code of a weight.
fn read_weight(weights: &[u8], bits: u32, at: usize) -> (r: u64)
    requires
        1 <= bits <= 63,
        (at + 1) * bits <= usize::MAX,
    ensures
        r as nat == weight_code(weights@, bits as nat, at as nat),
{
    proof {
        lemma_mul_is_distributive_add_other_way(bits as int, at as int, 1);
        lemma_mul_nonnegative(at as int, bits as int);
    }
    let start: usize = at * bits as usize;
    proof {
        let p = |t: nat| byte_bit(weights@, start as nat + t);
        let q = |t: nat| byte_bit(weights@, at as nat * bits as nat + t);
        assert(p =~= q);
    }
    read_bits(weights, start, bits)
}

/// The code of a weight is the element that unpacking reads.
pub proof fn law_weight_is_unpacked(weights: Seq<u8>, bits: nat, at: nat)
    requires
        1 <= bits <= 64,
    ensures
        weight_code(weights, bits, at) == unpacked_word(weights, bits, at),
{
    let p = |t: nat| byte_bit(weights, at * bits + t);
    let q = |t: nat| unpacked_bit(weights, bits, at, t);
    assert(limb_count(bits) == 1);
    assert(at % 1 == 0 && at / 1 == at);
    lemma_bits_nat(p, bits);
    lemma_bits_nat(q, 64);
    lemma_pow2_64();
    lemma_pow2_le(bits, 64);
    assert forall|j: nat| j < 64 implies #[trigger] nat_bit(bits_nat(p, bits), j) == nat_bit(
        bits_nat(q, 64),
        j,
    ) by {}
    lemma_nat_bits_eq(bits_nat(p, bits), bits_nat(q, 64), 64);
}

/// A weight as a double.
fn weight_value<F: Fn(FloatOp, u64, u64) -> u64>(
    code: u64,
    bits: u32,
    steal_sign: bool,
    f: &F,
) -> (r: F64Bits)
    requires
        is_float_unit(*f),
        1 <= bits <= 63,
        !steal_sign ==> bits <= 31,
    ensures
        r == weight_double(*f, code as nat, bits as nat, steal_sign),
{
    let v: u64 = f64_from_u64(false, code);
    if !steal_sign && word_bit(code, bits - 1) {
        proof {
            lemma_pow2_le(bits as nat, 31);
            lemma2_to64();
        }
        let span: i64 = crate::types::int_codec::pow2_u64(bits) as i64;
        ask(f, FloatOp::Sub, v, f64_from_i64(span))
    } else {
        v
    }
}

/// Multiplies `m` rows of `k` activations by `n` columns of `k` packed weights.
pub fn helper_dequantize_matmul<F: Fn(FloatOp, u64, u64) -> u64>(
    acts: &[F64Bits],
    weights: &[u8],
    m: usize,
    k: usize,
    n: usize,
    w_bits: u32,
    w_steal: bool,
    f: &F,
) -> (out: Vec<F64Bits>)
    requires
        is_float_unit(*f),
        1 <= w_bits <= 63,
        !w_steal ==> w_bits <= 31,
        m * k <= acts@.len(),
        m * n <= usize::MAX,
        (k * n) * w_bits + 7 <= usize::MAX,
        packed_len((k * n) as nat, w_bits as nat) <= weights@.len(),
    ensures
        out@ == product(
            *f,
            acts@,
            weights@,
            m as nat,
            k as nat,
            n as nat,
            w_bits as nat,
            w_steal,
        ),
{
    let alen: usize = acts.len();
    proof {
        lemma_mul_increases_by_bits((k * n) as int, w_bits as int);
    }
    let count: usize = k * n;
    let mut out: Vec<u64> = Vec::with_capacity(m * n);
    let mut row: usize = 0;
    proof {
        lemma_mul_basics(n as int);
    }
    while row < m
        invariant
            is_float_unit(*f),
            1 <= w_bits <= 63,
            !w_steal ==> w_bits <= 31,
            alen == acts@.len(),
            m * k <= alen,
            m * n <= usize::MAX,
            count == k * n,
            count * w_bits + 7 <= usize::MAX,
            packed_len(count as nat, w_bits as nat) <= weights@.len(),
            row <= m,
            out@.len() == row * n,
            forall|p: int|
                0 <= p < row * n ==> #[trigger] out@[p] == product(
                    *f,
                    acts@,
                    weights@,
                    m as nat,
                    k as nat,
                    n as nat,
                    w_bits as nat,
                    w_steal,
                )[p],
        decreases m - row,
    {
        let mut col: usize = 0;
        while col < n
            invariant
                is_float_unit(*f),
                1 <= w_bits <= 63,
                !w_steal ==> w_bits <= 31,
                alen == acts@.len(),
                m * k <= alen,
                m * n <= usize::MAX,
                count == k * n,
                count * w_bits + 7 <= usize::MAX,
                packed_len(count as nat, w_bits as nat) <= weights@.len(),
                row < m,
                col <= n,
                out@.len() == row * n + col,
                forall|p: int|
                    0 <= p < row * n + col ==> #[trigger] out@[p] == product(
                        *f,
                        acts@,
                        weights@,
                        m as nat,
                        k as nat,
                        n as nat,
                        w_bits as nat,
                        w_steal,
                    )[p],
            decreases n - col,
        {
            let mut sum: u64 = 0;
            let mut i: usize = 0;
            while i < k
                invariant
                    is_float_unit(*f),
                    1 <= w_bits <= 63,
                    !w_steal ==> w_bits <= 31,
                    alen == acts@.len(),
                    m * k <= alen,
                    count == k * n,
                    count * w_bits + 7 <= usize::MAX,
                    packed_len(count as nat, w_bits as nat) <= weights@.len(),
                    row < m,
                    col < n,
                    i <= k,
                    sum == dot(
                        *f,
                        acts@,
                        weights@,
                        k as nat,
                        n as nat,
                        w_bits as nat,
                        w_steal,
                        row as nat,
                        col as nat,
                        i as nat,
                    ),
                decreases k - i,
            {
                proof {
                    lemma_place(row as nat, m as nat, i as nat, k as nat);
                    lemma_place(i as nat, k as nat, col as nat, n as nat);
                    lemma_mul_nonnegative(row as int, k as int);
                    lemma_mul_nonnegative(i as int, n as int);
                    lemma_mul_inequality(i * n + col + 1, count as int, w_bits as int);
                }
                let act: u64 = acts[row * k + i];
                let code: u64 = read_weight(weights, w_bits, i * n + col);
                let w: u64 = weight_value(code, w_bits, w_steal, f);
                let term: u64 = ask(f, FloatOp::Mul, act, w);
                sum = ask(f, FloatOp::Add, sum, term);
                i = i + 1;
            }
            proof {
                lemma_place(row as nat, m as nat, col as nat, n as nat);
            }
            out.push(sum);
            col = col + 1;
        }
        proof {
            lemma_mul_is_distributive_add_other_way(n as int, row as int, 1);
        }
        row = row + 1;
    }
    proof {
        let whole = product(
            *f,
            acts@,
            weights@,
            m as nat,
            k as nat,
            n as nat,
            w_bits as nat,
            w_steal,
        );
        lemma_mul_nonnegative(m as int, n as int);
        assert(out@ =~= whole);
    }
    out
}

/// A count is no more than the bits that it takes.
proof fn lemma_mul_increases_by_bits(count: int, bits: int)
    requires
        count >= 0,
        bits >= 1,
    ensures
        count <= count * bits,
{
    lemma_mul_inequality(1, bits, count);
    lemma_mul_is_commutative(bits, count);
}

} // verus!
