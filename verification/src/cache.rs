//! Keys of compiled kernels: graphs that compute the same have the same key.

use crate::bytes;
use crate::bytes::{le_bytes, write_bytes, write_u32_le, write_u64_le};
use crate::fuser::kernel::constants_measurable;
use crate::graph::{acyclic, node_tree, operands_before, ArenaGraph, Node, NodeId};
use crate::ir::ExprView;
use crate::soft_float::{is_float_unit, FloatOp};
use crate::types::{scalar_double, DataType};
use vstd::prelude::*;

verus! {

// ─── What a key is made of ───────────────────────────────────────────────────

/// The BLAKE3 digest of a list of bytes.
pub uninterp spec fn blake3_of(data: Seq<u8>) -> Seq<u8>;

/// The digest of a list of bytes, by `blake3::hash`: a function of the bytes
/// alone. What it is, is left unsaid; it has the 32 bytes of its type.
#[verifier::external_body]
fn blake3_digest(data: &[u8]) -> (r: [u8; 32])
    ensures
        r@ == blake3_of(data@),
{
    *blake3::hash(data).as_bytes()
}

/// The number, width and exponent width of a type.
pub open spec fn type_tag(d: DataType) -> (u8, u32, u32) {
    match d {
        DataType::Float(b) => (0, b, 0),
        DataType::Int(b) => (1, b, 0),
        DataType::DynamicFloat => (2, 64, 0),
        DataType::FloatingInt => (3, 64, 0),
        DataType::ScalableInt(b) => (4, b, 0),
        DataType::ScalableFloat(b, e) => (5, b, e),
    }
}

/// The bytes of a list of sizes.
pub open spec fn sizes_bytes(s: Seq<usize>) -> Seq<u8>
    decreases s.len(),
{
    if s.len() == 0 {
        Seq::empty()
    } else {
        sizes_bytes(s.drop_last()) + le_bytes(s.last() as nat, 8)
    }
}

/// The bytes of a variable: its id, type, size, shape and strides.
pub open spec fn variable_bytes(
    id: usize,
    d: DataType,
    size: usize,
    shape: Seq<usize>,
    bit_strides: Seq<usize>,
) -> Seq<u8> {
    let (tag, b, e) = type_tag(d);
    seq![86u8, 97u8, 114u8] + le_bytes(id as nat, 8) + seq![tag] + le_bytes(b as nat, 4)
        + le_bytes(e as nat, 4) + le_bytes(size as nat, 8) + sizes_bytes(shape) + sizes_bytes(
        bit_strides,
    )
}

/// The bytes of an expression: a word for each node, then its operands.
pub open spec fn expr_bytes<F: Fn(FloatOp, u64, u64) -> u64>(f: F, e: ExprView) -> Seq<u8>
    decreases e,
{
    match e {
        ExprView::Variable { id, dtype, size, shape, bit_strides, .. } => variable_bytes(
            id,
            dtype,
            size,
            shape,
            bit_strides,
        ),
        ExprView::Constant { val } => seq![67u8, 111u8, 110u8, 115u8, 116u8] + le_bytes(
            scalar_double(f, val) as nat,
            8,
        ),
        ExprView::Add { left, right } => seq![65u8, 100u8, 100u8] + expr_bytes(f, *left)
            + expr_bytes(f, *right),
        ExprView::Sub { left, right } => seq![83u8, 117u8, 98u8] + expr_bytes(f, *left)
            + expr_bytes(f, *right),
        ExprView::Mul { left, right } => seq![77u8, 117u8, 108u8] + expr_bytes(f, *left)
            + expr_bytes(f, *right),
        ExprView::Div { left, right } => seq![68u8, 105u8, 118u8] + expr_bytes(f, *left)
            + expr_bytes(f, *right),
        ExprView::DequantizeMatmul { activations, weights, .. } => matmul_word() + expr_bytes(
            f,
            *activations,
        ) + expr_bytes(f, *weights),
    }
}

/// The word of a matrix product.
pub open spec fn matmul_word() -> Seq<u8> {
    seq![
        68u8,
        101u8,
        113u8,
        117u8,
        97u8,
        110u8,
        116u8,
        105u8,
        122u8,
        101u8,
        77u8,
        97u8,
        116u8,
        109u8,
        117u8,
        108u8,
    ]
}

// ─── What a key tells apart ──────────────────────────────────────────────────

/// Numbers with the same bytes are equal.
proof fn lemma_le_injective(a: nat, b: nat, k: nat)
    requires
        le_bytes(a, k) == le_bytes(b, k),
        a < vstd::arithmetic::power2::pow2(8 * k),
        b < vstd::arithmetic::power2::pow2(8 * k),
    ensures
        a == b,
{
    bytes::law_le_round_trip(a, k);
    bytes::law_le_round_trip(b, k);
}

/// A list of sizes takes eight bytes for each.
proof fn lemma_sizes_len(s: Seq<usize>)
    ensures
        sizes_bytes(s).len() == 8 * s.len(),
    decreases s.len(),
{
    if s.len() > 0 {
        lemma_sizes_len(s.drop_last());
        bytes::law_le_round_trip(s.last() as nat, 8);
    }
}

/// Lists of sizes of one length with the same bytes are equal.
proof fn lemma_sizes_injective(s: Seq<usize>, t: Seq<usize>)
    requires
        s.len() == t.len(),
        sizes_bytes(s) == sizes_bytes(t),
    ensures
        s == t,
    decreases s.len(),
{
    if s.len() == 0 {
        assert(s =~= t);
    } else {
        let a = sizes_bytes(s.drop_last());
        let b = sizes_bytes(t.drop_last());
        let x = le_bytes(s.last() as nat, 8);
        let y = le_bytes(t.last() as nat, 8);
        lemma_sizes_len(s.drop_last());
        lemma_sizes_len(t.drop_last());
        let n = a.len() as int;
        assert((a + x).take(n) =~= a);
        assert((b + y).take(n) =~= b);
        assert((a + x).skip(n) =~= x);
        assert((b + y).skip(n) =~= y);
        lemma_sizes_injective(s.drop_last(), t.drop_last());
        crate::bits::lemma_pow2_64();
        lemma_le_injective(s.last() as nat, t.last() as nat, 8);
        assert(s =~= s.drop_last().push(s.last()));
        assert(t =~= t.drop_last().push(t.last()));
    }
}

/// The bytes of a variable tell apart its id, type, size, shape and strides:
/// two variables, each with as many strides as dimensions, have the same bytes
/// only if these are equal. So a transposed or sliced view has a key of its
/// own.
pub proof fn law_variable_bytes_distinguish(
    id1: usize,
    d1: DataType,
    size1: usize,
    shape1: Seq<usize>,
    strides1: Seq<usize>,
    id2: usize,
    d2: DataType,
    size2: usize,
    shape2: Seq<usize>,
    strides2: Seq<usize>,
)
    requires
        shape1.len() == strides1.len(),
        shape2.len() == strides2.len(),
        variable_bytes(id1, d1, size1, shape1, strides1) == variable_bytes(
            id2,
            d2,
            size2,
            shape2,
            strides2,
        ),
    ensures
        id1 == id2,
        d1 == d2,
        size1 == size2,
        shape1 == shape2,
        strides1 == strides2,
{
    let k1 = variable_bytes(id1, d1, size1, shape1, strides1);
    let k2 = variable_bytes(id2, d2, size2, shape2, strides2);
    let (t1, b1, e1) = type_tag(d1);
    let (t2, b2, e2) = type_tag(d2);
    bytes::law_le_round_trip(id1 as nat, 8);
    bytes::law_le_round_trip(id2 as nat, 8);
    bytes::law_le_round_trip(b1 as nat, 4);
    bytes::law_le_round_trip(b2 as nat, 4);
    bytes::law_le_round_trip(e1 as nat, 4);
    bytes::law_le_round_trip(e2 as nat, 4);
    bytes::law_le_round_trip(size1 as nat, 8);
    bytes::law_le_round_trip(size2 as nat, 8);
    lemma_sizes_len(shape1);
    lemma_sizes_len(shape2);
    lemma_sizes_len(strides1);
    lemma_sizes_len(strides2);
    crate::bits::lemma_pow2_64();
    vstd::arithmetic::power2::lemma2_to64();
    assert(k1.subrange(3, 11) =~= le_bytes(id1 as nat, 8));
    assert(k2.subrange(3, 11) =~= le_bytes(id2 as nat, 8));
    lemma_le_injective(id1 as nat, id2 as nat, 8);
    assert(k1[11] == t1);
    assert(k2[11] == t2);
    assert(k1.subrange(12, 16) =~= le_bytes(b1 as nat, 4));
    assert(k2.subrange(12, 16) =~= le_bytes(b2 as nat, 4));
    lemma_le_injective(b1 as nat, b2 as nat, 4);
    assert(k1.subrange(16, 20) =~= le_bytes(e1 as nat, 4));
    assert(k2.subrange(16, 20) =~= le_bytes(e2 as nat, 4));
    lemma_le_injective(e1 as nat, e2 as nat, 4);
    assert(k1.subrange(20, 28) =~= le_bytes(size1 as nat, 8));
    assert(k2.subrange(20, 28) =~= le_bytes(size2 as nat, 8));
    lemma_le_injective(size1 as nat, size2 as nat, 8);
    assert(k1.len() == 28 + 16 * shape1.len());
    assert(k2.len() == 28 + 16 * shape2.len());
    let m = 28 + 8 * shape1.len();
    assert(k1.subrange(28, m as int) =~= sizes_bytes(shape1));
    assert(k2.subrange(28, m as int) =~= sizes_bytes(shape2));
    assert(k1.skip(m as int) =~= sizes_bytes(strides1));
    assert(k2.skip(m as int) =~= sizes_bytes(strides2));
    lemma_sizes_injective(shape1, shape2);
    lemma_sizes_injective(strides1, strides2);
}

/// The letters at the start of the bytes of an expression.
proof fn lemma_word_of<F: Fn(FloatOp, u64, u64) -> u64>(f: F, e: ExprView)
    ensures
        ({
            let k = expr_bytes(f, e);
            &&& k.len() >= 3
            &&& e is Variable ==> k[0] == 86
            &&& e is Constant ==> k[0] == 67
            &&& e is Add ==> k[0] == 65
            &&& e is Sub ==> k[0] == 83
            &&& e is Mul ==> k[0] == 77
            &&& e is Div ==> k[0] == 68 && k[1] == 105
            &&& e is DequantizeMatmul ==> k[0] == 68 && k[1] == 101
        }),
{
}

/// The bytes of an expression tell what it is: expressions with the same bytes are both
/// variables, both constants, both sums, both differences, both products, both quotients
/// or both matrix products.
pub proof fn law_bytes_tell_operation<F: Fn(FloatOp, u64, u64) -> u64>(
    f: F,
    e: ExprView,
    other: ExprView,
)
    requires
        expr_bytes(f, e) == expr_bytes(f, other),
    ensures
        (e is Variable) == (other is Variable),
        (e is Constant) == (other is Constant),
        (e is Add) == (other is Add),
        (e is Sub) == (other is Sub),
        (e is Mul) == (other is Mul),
        (e is Div) == (other is Div),
        (e is DequantizeMatmul) == (other is DequantizeMatmul),
{
    lemma_word_of(f, e);
    lemma_word_of(f, other);
}

/// The operands of an expression, from the left.
pub open spec fn operands(e: ExprView) -> Option<(ExprView, ExprView)> {
    match e {
        ExprView::Add { left, right } => Some((*left, *right)),
        ExprView::Sub { left, right } => Some((*left, *right)),
        ExprView::Mul { left, right } => Some((*left, *right)),
        ExprView::Div { left, right } => Some((*left, *right)),
        ExprView::DequantizeMatmul { activations, weights, .. } => Some((*activations, *weights)),
        _ => None,
    }
}

/// The bytes of an expression tell its operands and their order: expressions with the
/// same bytes, whose first operands take equally many bytes, have operands with the same
/// bytes.
pub proof fn law_bytes_tell_operands<F: Fn(FloatOp, u64, u64) -> u64>(
    f: F,
    e: ExprView,
    other: ExprView,
)
    requires
        expr_bytes(f, e) == expr_bytes(f, other),
        operands(e) matches Some((l, _)) && operands(other) matches Some((m, _)) && expr_bytes(
            f,
            l,
        ).len() == expr_bytes(f, m).len(),
    ensures
        operands(e) matches Some((l, r)) && operands(other) matches Some((m, s)) && expr_bytes(f, l)
            == expr_bytes(f, m) && expr_bytes(f, r) == expr_bytes(f, s),
{
    law_bytes_tell_operation(f, e, other);
    let (l, r) = operands(e)->0;
    let (m, s) = operands(other)->0;
    let n = if e is DequantizeMatmul {
        16int
    } else {
        3
    };
    let k = expr_bytes(f, e);
    let a = expr_bytes(f, l);
    assert(k.subrange(n, n + a.len()) =~= a);
    assert(k.subrange(n, n + a.len()) =~= expr_bytes(f, m));
    assert(k.skip(n + a.len()) =~= expr_bytes(f, r));
    assert(k.skip(n + a.len()) =~= expr_bytes(f, s));
}

/// The bytes of a constant tell its double.
pub proof fn law_bytes_tell_constant<F: Fn(FloatOp, u64, u64) -> u64>(
    f: F,
    e: ExprView,
    other: ExprView,
)
    requires
        e is Constant,
        expr_bytes(f, e) == expr_bytes(f, other),
    ensures
        other is Constant,
        scalar_double(f, e->val) == scalar_double(f, other->val),
{
    law_bytes_tell_operation(f, e, other);
    let x = scalar_double(f, e->val) as nat;
    let y = scalar_double(f, other->val) as nat;
    bytes::law_le_round_trip(x, 8);
    bytes::law_le_round_trip(y, 8);
    crate::bits::lemma_pow2_64();
    assert(expr_bytes(f, e).skip(5) =~= le_bytes(x, 8));
    assert(expr_bytes(f, other).skip(5) =~= le_bytes(y, 8));
    lemma_le_injective(x, y, 8);
}

// ─── Building keys ───────────────────────────────────────────────────────────

fn write_sizes(out: &mut Vec<u8>, s: &Vec<usize>)
    ensures
        final(out)@ == old(out)@ + sizes_bytes(s@),
{
    let ghost before = out@;
    let mut i: usize = 0;
    assert(before =~= before + sizes_bytes(s@.take(0)));
    while i < s.len()
        invariant
            i <= s@.len(),
            out@ == before + sizes_bytes(s@.take(i as int)),
        decreases s@.len() - i,
    {
        write_u64_le(out, s[i] as u64);
        proof {
            assert(s@.take(i as int + 1).drop_last() =~= s@.take(i as int));
            assert(before + sizes_bytes(s@.take(i as int + 1)) =~= before + sizes_bytes(
                s@.take(i as int),
            ) + le_bytes(s@[i as int] as nat, 8));
        }
        i = i + 1;
    }
    assert(s@.take(i as int) =~= s@);
}

fn write_word(out: &mut Vec<u8>, a: u8, b: u8, c: u8)
    ensures
        final(out)@ == old(out)@ + seq![a, b, c],
{
    let ghost before = out@;
    out.push(a);
    out.push(b);
    out.push(c);
    assert(out@ =~= before + seq![a, b, c]);
}

/// Adds the bytes of a node to a list.
#[verifier::rlimit(40)]
#[verifier::spinoff_prover]
fn hash_node<F: Fn(FloatOp, u64, u64) -> u64>(
    graph: &ArenaGraph,
    id: NodeId,
    out: &mut Vec<u8>,
    f: &F,
)
    requires
        is_float_unit(*f),
        acyclic(graph.views()),
        id < graph.nodes@.len(),
        constants_measurable(node_tree(graph.views(), id as nat)),
    ensures
        final(out)@ == old(out)@ + expr_bytes(*f, node_tree(graph.views(), id as nat)),
    decreases id,
{
    let ghost before = out@;
    let ghost e = node_tree(graph.views(), id as nat);
    assert(operands_before(graph.views()[id as int], id as nat));
    match &graph.nodes[id] {
        Node::Variable { id: var_id, dtype, size, shape, bit_strides, .. } => {
            write_word(out, 86, 97, 114);
            write_u64_le(out, *var_id as u64);
            let (tag, b, extra): (u8, u32, u32) = match *dtype {
                DataType::Float(b) => (0, b, 0),
                DataType::Int(b) => (1, b, 0),
                DataType::DynamicFloat => (2, 64, 0),
                DataType::FloatingInt => (3, 64, 0),
                DataType::ScalableInt(b) => (4, b, 0),
                DataType::ScalableFloat(b, e) => (5, b, e),
            };
            out.push(tag);
            write_u32_le(out, b);
            write_u32_le(out, extra);
            write_u64_le(out, *size as u64);
            write_sizes(out, shape);
            write_sizes(out, bit_strides);
            assert(out@ =~= before + expr_bytes(*f, e));
        },
        Node::Constant { val } => {
            let word: [u8; 5] = [67, 111, 110, 115, 116];
            write_bytes(out, word.as_slice());
            let v: u64 = val.to_double(f);
            write_u64_le(out, v);
            assert(word@ =~= seq![67u8, 111u8, 110u8, 115u8, 116u8]);
            assert(out@ =~= before + expr_bytes(*f, e));
        },
        Node::Add(l, r) => {
            write_word(out, 65, 100, 100);
            hash_node(graph, *l, out, f);
            hash_node(graph, *r, out, f);
            assert(out@ =~= before + expr_bytes(*f, e));
        },
        Node::Sub(l, r) => {
            write_word(out, 83, 117, 98);
            hash_node(graph, *l, out, f);
            hash_node(graph, *r, out, f);
            assert(out@ =~= before + expr_bytes(*f, e));
        },
        Node::Mul(l, r) => {
            write_word(out, 77, 117, 108);
            hash_node(graph, *l, out, f);
            hash_node(graph, *r, out, f);
            assert(out@ =~= before + expr_bytes(*f, e));
        },
        Node::Div(l, r) => {
            write_word(out, 68, 105, 118);
            hash_node(graph, *l, out, f);
            hash_node(graph, *r, out, f);
            assert(out@ =~= before + expr_bytes(*f, e));
        },
        Node::DequantizeMatmul(a, w, ..) => {
            let word: [u8; 16] = [
                68,
                101,
                113,
                117,
                97,
                110,
                116,
                105,
                122,
                101,
                77,
                97,
                116,
                109,
                117,
                108,
            ];
            write_bytes(out, word.as_slice());
            hash_node(graph, *a, out, f);
            hash_node(graph, *w, out, f);
            assert(word@ =~= matmul_word());
            assert(out@ =~= before + expr_bytes(*f, e));
        },
    }
}

/// The bytes of which a graph's key is the digest.
pub fn graph_bytes<F: Fn(FloatOp, u64, u64) -> u64>(graph: &ArenaGraph, f: &F) -> (r: Vec<u8>)
    requires
        is_float_unit(*f),
        graph.wf(),
        constants_measurable(graph.tree()),
    ensures
        r@ == expr_bytes(*f, graph.tree()),
{
    let mut out: Vec<u8> = Vec::new();
    hash_node(graph, graph.root, &mut out, f);
    assert(out@ =~= expr_bytes(*f, graph.tree()));
    out
}

/// The key of a graph: the digest of the bytes of its expression.
pub fn hash_graph<F: Fn(FloatOp, u64, u64) -> u64>(graph: &ArenaGraph, f: &F) -> (r: [u8; 32])
    requires
        is_float_unit(*f),
        graph.wf(),
        constants_measurable(graph.tree()),
    ensures
        r@ == blake3_of(expr_bytes(*f, graph.tree())),
{
    let data: Vec<u8> = graph_bytes(graph, f);
    blake3_digest(data.as_slice())
}

} // verus!
