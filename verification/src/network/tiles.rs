//! Tiles: parts of an array that can be executed alone.

use crate::bits::{bits_nat, byte_bit, lemma_bits_nat, lemma_bits_nat_unique, lemma_u8_bit, nat_bit};
use crate::bytes::zero_bytes;
use crate::fuser::kernel::elementwise;
use crate::graph::{acyclic, node_tree, operands_before, ArenaGraph, Node, NodeView};
use crate::ir::{expr_countable, expr_size, expr_type};
use crate::hardware::packed_len;
use crate::types::{dtype_width, DataType};
use vstd::arithmetic::div_mod::*;
use vstd::arithmetic::mul::*;
use vstd::arithmetic::power2::*;
use vstd::prelude::*;

verus! {

/// The largest number of elements that is not cut into tiles.
pub const LOCAL_TILE_THRESHOLD: usize = 0x10_0000;

/// A part of an array.
#[derive(Debug)]
pub struct Tile {
    pub id: u64,
    pub elem_start: usize,
    pub elem_count: usize,
    pub bits: u32,
    /// The bits of each input for this part.
    pub input_bufs: Vec<Vec<u8>>,
}

/// The result of a tile.
#[derive(Debug)]
pub struct TileResult {
    pub id: u64,
    pub elem_count: usize,
    pub bits: u32,
    pub output: Vec<u8>,
}

/// Lists of bytes.
pub open spec fn buffers(bufs: Seq<Vec<u8>>) -> Seq<Seq<u8>> {
    Seq::new(bufs.len(), |i: int| bufs[i]@)
}

/// A source of ids for tiles.
#[derive(Debug)]
pub struct TileIds {
    pub next: u64,
}

/// The id of the tile with the given number, where the first has id `first`.
pub open spec fn tile_id(first: u64, i: nat) -> u64 {
    ((first + i) % 0x1_0000_0000_0000_0000) as u64
}

// ─── Cutting ─────────────────────────────────────────────────────────────────

/// The number of tiles: one more than there are workers, and no more than there
/// are elements.
pub open spec fn tile_count(size: nat, num_nodes: nat) -> nat {
    if num_nodes + 1 < size {
        num_nodes + 1
    } else {
        size
    }
}

/// The number of elements of a tile: the elements are divided evenly, and the
/// first tiles take one more where some are left.
pub open spec fn tile_len(size: nat, parts: nat, i: nat) -> nat {
    size / parts + if i < size % parts {
        1nat
    } else {
        0
    }
}

/// The first element of a tile.
pub open spec fn tile_start(size: nat, parts: nat, i: nat) -> nat
    decreases i,
{
    if i == 0 {
        0
    } else {
        tile_start(size, parts, (i - 1) as nat) + tile_len(size, parts, (i - 1) as nat)
    }
}

proof fn lemma_tile_start(size: nat, parts: nat, i: nat)
    requires
        parts > 0,
        i <= parts,
    ensures
        tile_start(size, parts, i) == i * (size / parts) + if i < size % parts {
            i
        } else {
            size % parts
        },
    decreases i,
{
    lemma_mod_bound(size as int, parts as int);
    if i > 0 {
        lemma_tile_start(size, parts, (i - 1) as nat);
        lemma_mul_is_distributive_add_other_way((size / parts) as int, (i - 1) as int, 1);
    } else {
        lemma_mul_basics((size / parts) as int);
    }
}

/// The tiles follow each other without gaps and cover all elements.
pub proof fn law_tiles_cover(size: nat, parts: nat)
    requires
        parts > 0,
    ensures
        tile_start(size, parts, 0) == 0,
        forall|i: nat|
            i < parts ==> tile_start(size, parts, i + 1) == #[trigger] tile_start(size, parts, i)
                + tile_len(size, parts, i),
        tile_start(size, parts, parts) == size,
{
    lemma_tile_start(size, parts, parts);
    lemma_mod_bound(size as int, parts as int);
    lemma_fundamental_div_mod(size as int, parts as int);
}

/// The lengths of two tiles differ by one at most, and no tile is empty where
/// there are no more tiles than elements.
pub proof fn law_tiles_are_even(size: nat, parts: nat, i: nat, j: nat)
    requires
        0 < parts <= size,
    ensures
        tile_len(size, parts, i) <= tile_len(size, parts, j) + 1,
        tile_len(size, parts, i) > 0,
{
    lemma_div_non_zero(size as int, parts as int);
}

pub proof fn lemma_starts_grow(size: nat, parts: nat, i: nat, j: nat)
    requires
        i <= j,
    ensures
        tile_start(size, parts, i) <= tile_start(size, parts, j),
    decreases j,
{
    if i < j {
        lemma_starts_grow(size, parts, i, (j - 1) as nat);
    }
}

/// How many bits of an input of so many bytes go with a tile: those of its
/// elements, as far as there are bits, or all of them where there are none.
pub open spec fn tile_bits(len: nat, start: nat, count: nat, w: nat) -> nat {
    if start * w < 8 * len < (start + count) * w {
        (8 * len - start * w) as nat
    } else {
        count * w
    }
}

/// The bytes of an input for a tile: the bits of its elements, of width `w`,
/// from the first bit on. Where the input has none, and behind the last one, the
/// bits are zero.
pub open spec fn tile_bytes(data: Seq<u8>, start: nat, count: nat, w: nat) -> Seq<u8> {
    let n = tile_bits(data.len(), start, count, w);
    Seq::new(
        (n + 7) / 8,
        |k: int|
            bits_nat(
                |t: nat| 8 * k + t < n && byte_bit(data, (start * w + 8 * k + t) as nat),
                8,
            ) as u8,
    )
}

/// The bits of a tile's part of an input are those of its elements, and all
/// others are zero.
pub proof fn law_tile_bits(data: Seq<u8>, start: nat, count: nat, w: nat, j: nat)
    ensures
        byte_bit(tile_bytes(data, start, count, w), j) == (j < count * w && byte_bit(
            data,
            start * w + j,
        )),
{
    let n = tile_bits(data.len(), start, count, w);
    let part = tile_bytes(data, start, count, w);
    let k = (j / 8) as int;
    let p = |t: nat| 8 * k + t < n && byte_bit(data, (start * w + 8 * k + t) as nat);
    lemma_mul_is_distributive_add_other_way(w as int, start as int, count as int);
    if k < part.len() {
        lemma_bits_nat(p, 8);
        lemma2_to64();
        assert(part[k] as nat == bits_nat(p, 8));
        assert(p(j % 8) == (j < n && byte_bit(data, start * w + j)));
    }
    assert(j >= n ==> j < count * w ==> !byte_bit(data, start * w + j));
}

/// The first `n` bits of a list of bytes.
pub open spec fn bits_of(s: Seq<u8>, n: nat) -> Seq<bool> {
    Seq::new(n, |j: int| byte_bit(s, j as nat))
}

/// The bits of the first `k` tiles of an input, one after the other.
pub open spec fn tiles_joined(data: Seq<u8>, size: nat, parts: nat, w: nat, k: nat) -> Seq<bool>
    decreases k,
{
    if k == 0 {
        Seq::empty()
    } else {
        let start = tile_start(size, parts, (k - 1) as nat);
        let count = tile_len(size, parts, (k - 1) as nat);
        tiles_joined(data, size, parts, w, (k - 1) as nat) + bits_of(
            tile_bytes(data, start, count, w),
            count * w,
        )
    }
}

/// The tiles of an input, one after the other, are the input, bit by bit.
pub proof fn law_tiles_make_input(data: Seq<u8>, size: nat, parts: nat, w: nat)
    requires
        parts > 0,
    ensures
        tiles_joined(data, size, parts, w, parts) == bits_of(data, size * w),
{
    lemma_joined(data, size, parts, w, parts);
    law_tiles_cover(size, parts);
}

proof fn lemma_joined(data: Seq<u8>, size: nat, parts: nat, w: nat, k: nat)
    ensures
        tiles_joined(data, size, parts, w, k) == bits_of(data, tile_start(size, parts, k) * w),
    decreases k,
{
    if k == 0 {
        lemma_mul_basics(w as int);
        assert(bits_of(data, 0) =~= Seq::<bool>::empty());
    } else {
        let m = (k - 1) as nat;
        let start = tile_start(size, parts, m);
        let count = tile_len(size, parts, m);
        lemma_joined(data, size, parts, w, m);
        lemma_mul_is_distributive_add_other_way(w as int, start as int, count as int);
        let part = tile_bytes(data, start, count, w);
        let whole = bits_of(data, tile_start(size, parts, k) * w);
        let joined = bits_of(data, start * w) + bits_of(part, count * w);
        assert forall|j: int| 0 <= j < whole.len() implies joined[j] == whole[j] by {
            if j >= start * w {
                law_tile_bits(data, start, count, w, (j - start * w) as nat);
            }
        }
        assert(joined =~= whole);
    }
}

/// A tile of elements of whole bytes holds the bytes of its elements.
pub proof fn lemma_whole_bytes(data: Seq<u8>, size: nat, start: nat, count: nat, unit: nat)
    requires
        data.len() == size * unit,
        start + count <= size,
        count > 0,
        unit > 0,
    ensures
        0 <= start * unit <= (start + count) * unit <= data.len(),
        tile_bytes(data, start, count, 8 * unit) == data.subrange(
            (start * unit) as int,
            ((start + count) * unit) as int,
        ),
{
    let w = 8 * unit;
    let from = start * unit;
    let part = tile_bytes(data, start, count, w);
    lemma_mul_is_distributive_add_other_way(unit as int, start as int, count as int);
    lemma_mul_inequality((start + count) as int, size as int, unit as int);
    lemma_mul_nonnegative(start as int, unit as int);
    assert(start * w == 8 * from && count * w == 8 * (count * unit) && (start + count) * w == 8 * ((
    start + count) * unit)) by (nonlinear_arith)
        requires
            w == 8 * unit,
            from == start * unit,
    ;
    let n = tile_bits(data.len(), start, count, w);
    assert(n == 8 * (count * unit));
    assert forall|k: int| 0 <= k < count * unit implies part[k] == data[from + k] by {
        let p = |t: nat| 8 * k + t < n && byte_bit(data, (start * w + 8 * k + t) as nat);
        let x = data[from + k] as nat;
        lemma2_to64();
        assert forall|t: nat| t < 8 implies #[trigger] nat_bit(x, t) == p(t) by {
            assert((8 * (from + k) + t) / 8 == from + k);
            assert((8 * (from + k) + t) % 8 == t);
        }
        lemma_bits_nat_unique(p, 8, x);
    }
    assert(part =~= data.subrange(from as int, ((start + count) * unit) as int));
}

// ─── The inputs of a graph ───────────────────────────────────────────────────

/// Among the first `k` nodes, the first variable with each id.
pub open spec fn input_nodes(g: Seq<NodeView>, k: nat) -> Seq<nat>
    decreases k,
{
    if k == 0 {
        Seq::empty()
    } else {
        let prev = input_nodes(g, (k - 1) as nat);
        match g[k - 1] {
            NodeView::Variable { id, .. } => if has_input(g, prev, id) {
                prev
            } else {
                prev.push((k - 1) as nat)
            },
            _ => prev,
        }
    }
}

/// That one of some variables has an id.
pub open spec fn has_input(g: Seq<NodeView>, inputs: Seq<nat>, id: usize) -> bool {
    exists|j: int| 0 <= j < inputs.len() && node_id(g[#[trigger] inputs[j] as int]) == id
}

/// The id of a variable.
pub open spec fn node_id(n: NodeView) -> usize {
    match n {
        NodeView::Variable { id, .. } => id,
        _ => 0,
    }
}

/// The bytes of a variable.
pub open spec fn node_data(n: NodeView) -> Seq<u8> {
    match n {
        NodeView::Variable { data, .. } => data,
        _ => Seq::empty(),
    }
}

/// The width of the elements of a variable.
pub open spec fn node_width(n: NodeView) -> nat {
    match n {
        NodeView::Variable { dtype, .. } => dtype_width(dtype) as nat,
        _ => 0,
    }
}

/// That the parts of all inputs can be held.
pub open spec fn inputs_fit(g: Seq<NodeView>, size: nat) -> bool {
    forall|k: int| 0 <= k < g.len() ==> packed_len(size, node_width(#[trigger] g[k])) <= usize::MAX
}

/// The width of the elements of the output.
pub open spec fn wire_bits(d: DataType) -> u32 {
    match d {
        DataType::Float(b) => b,
        DataType::Int(b) => b,
        _ => 64,
    }
}

/// The bytes of an element of the output.
pub open spec fn wire_unit(bits: u32) -> nat {
    (bits as nat + 7) / 8
}

/// That a graph is cut into tiles: there are workers, it has many elements, and
/// it is computed element by element.
pub open spec fn is_cut(graph: ArenaGraph, num_nodes: nat) -> bool {
    &&& num_nodes > 0
    &&& expr_size(graph.tree()) > LOCAL_TILE_THRESHOLD
    &&& elementwise(graph.tree())
}

/// That a tile is the one with the given number.
pub open spec fn is_tile(graph: ArenaGraph, num_nodes: nat, first: u64, i: nat, t: Tile) -> bool {
    let g = graph.views();
    let size = expr_size(graph.tree());
    let parts = tile_count(size, num_nodes);
    let inputs = input_nodes(g, g.len());
    &&& t.id == tile_id(first, i)
    &&& t.elem_start == tile_start(size, parts, i)
    &&& t.elem_count == tile_len(size, parts, i)
    &&& t.bits == wire_bits(expr_type(graph.tree()))
    &&& t.input_bufs@.len() == inputs.len()
    &&& forall|k: int|
        0 <= k < inputs.len() ==> (#[trigger] t.input_bufs@[k])@ == tile_bytes(
            node_data(g[inputs[k] as int]),
            tile_start(size, parts, i),
            tile_len(size, parts, i),
            node_width(g[inputs[k] as int]),
        )
}

/// Whether a graph is computed element by element.
pub fn is_elementwise(graph: &ArenaGraph) -> (r: bool)
    requires
        graph.wf(),
    ensures
        r == elementwise(graph.tree()),
{
    let ghost g = graph.views();
    let n: usize = graph.nodes.len();
    let mut flags: Vec<bool> = Vec::with_capacity(n);
    let mut i: usize = 0;
    while i < n
        invariant
            i <= n,
            n == graph.nodes@.len(),
            g == graph.views(),
            acyclic(g),
            flags@.len() == i,
            forall|j: int| 0 <= j < i ==> #[trigger] flags@[j] == elementwise(node_tree(g, j as nat)),
        decreases n - i,
    {
        assert(operands_before(g[i as int], i as nat));
        let flag: bool = match &graph.nodes[i] {
            Node::Variable { .. } => true,
            Node::Constant { .. } => true,
            Node::Add(l, r) => flags[*l] && flags[*r],
            Node::Sub(l, r) => flags[*l] && flags[*r],
            Node::Mul(l, r) => flags[*l] && flags[*r],
            Node::Div(l, r) => flags[*l] && flags[*r],
            Node::DequantizeMatmul(..) => false,
        };
        flags.push(flag);
        i = i + 1;
    }
    flags[graph.root]
}

fn find_inputs(graph: &ArenaGraph) -> (r: Vec<usize>)
    ensures
        r@.len() == input_nodes(graph.views(), graph.views().len()).len(),
        forall|k: int|
            0 <= k < r@.len() ==> {
                &&& #[trigger] r@[k] as nat == input_nodes(
                    graph.views(),
                    graph.views().len(),
                )[k]
                &&& r@[k] < graph.nodes@.len()
                &&& graph.views()[r@[k] as int] is Variable
            },
{
    let ghost g = graph.views();
    let n: usize = graph.nodes.len();
    let mut r: Vec<usize> = Vec::new();
    let mut ids: Vec<usize> = Vec::new();
    let mut i: usize = 0;
    while i < n
        invariant
            i <= n,
            n == graph.nodes@.len(),
            g == graph.views(),
            r@.len() == input_nodes(g, i as nat).len(),
            ids@.len() == r@.len(),
            forall|k: int|
                0 <= k < r@.len() ==> {
                    &&& #[trigger] r@[k] as nat == input_nodes(g, i as nat)[k]
                    &&& r@[k] < n
                    &&& g[r@[k] as int] is Variable
                },
            forall|k: int| 0 <= k < r@.len() ==> #[trigger] ids@[k] == node_id(g[r@[k] as int]),
        decreases n - i,
    {
        if let Node::Variable { id, .. } = &graph.nodes[i] {
            let known: bool = contains(&ids, *id);
            proof {
                let prev = input_nodes(g, i as nat);
                if known {
                    let k = choose|k: int| 0 <= k < ids@.len() && ids@[k] == *id;
                    assert(node_id(g[prev[k] as int]) == *id);
                } else if has_input(g, prev, *id) {
                    let k = choose|k: int|
                        0 <= k < prev.len() && node_id(g[#[trigger] prev[k] as int]) == *id;
                    assert(r@[k] as nat == prev[k]);
                    assert(ids@[k] == *id);
                }
            }
            if !known {
                r.push(i);
                ids.push(*id);
            }
        }
        i = i + 1;
    }
    r
}

/// Whether a list has a number.
pub fn contains(s: &Vec<usize>, x: usize) -> (r: bool)
    ensures
        r == s@.contains(x),
{
    let n: usize = s.len();
    let mut i: usize = 0;
    while i < n
        invariant
            i <= n,
            n == s@.len(),
            forall|j: int| 0 <= j < i ==> s@[j] != x,
        decreases n - i,
    {
        if s[i] == x {
            return true;
        }
        i = i + 1;
    }
    false
}

/// The byte made of the high bits of one from bit `s` on, the low bits of the
/// next, and no more than `n` of them.
fn shifted_byte(x: u8, y: u8, s: u32, n: u32) -> (r: u8)
    requires
        s < 8,
        n <= 8,
    ensures
        forall|t: nat|
            t < 8 ==> #[trigger] nat_bit(r as nat, t) == (t < n && if s + t < 8 {
                nat_bit(x as nat, s as nat + t)
            } else {
                nat_bit(y as nat, (s + t - 8) as nat)
            }),
{
    let low: u8 = x >> s;
    let high: u8 = if s == 0 {
        0
    } else {
        y << (8 - s)
    };
    let mask: u8 = if n == 0 {
        0
    } else {
        0xFFu8 >> (8 - n)
    };
    let r: u8 = (low | high) & mask;
    proof {
        assert forall|t: nat| t < 8 implies #[trigger] nat_bit(r as nat, t) == (t < n && if s + t
            < 8 {
            nat_bit(x as nat, s as nat + t)
        } else {
            nat_bit(y as nat, (s + t - 8) as nat)
        }) by {
            let j = t as u32;
            lemma_u8_bit(r, j);
            let h: u32 = (8 - s) as u32;
            let m: u32 = (8 - n) as u32;
            let e: u32 = (s + j) as u32;
            let d: u32 = (s + j - 8) as u32;
            assert((r >> j) & 1 == if j >= n {
                0u8
            } else if e < 8 {
                (x >> e) & 1
            } else {
                (y >> d) & 1
            }) by (bit_vector)
                requires
                    s < 8,
                    j < 8,
                    n <= 8,
                    h + s == 8,
                    m + n == 8,
                    e == s + j,
                    e >= 8 ==> d + 8 == e,
                    r == ((x >> s) | (if s == 0 {
                        0u8
                    } else {
                        y << h
                    })) & (if n == 0 {
                        0u8
                    } else {
                        0xFFu8 >> m
                    }),
            ;
            if s + j < 8 {
                lemma_u8_bit(x, (s + j) as u32);
            } else {
                lemma_u8_bit(y, (s + j - 8) as u32);
            }
        }
    }
    r
}

/// The part of an input that goes with a tile.
fn cut(data: &[u8], start: usize, count: usize, w: u32) -> (r: Vec<u8>)
    requires
        packed_len(count as nat, w as nat) <= usize::MAX,
    ensures
        r@ == tile_bytes(data@, start as nat, count as nat, w as nat),
{
    let len: usize = data.len();
    proof {
        lemma_mul_upper_bound(start as int, usize::MAX as int, w as int, u32::MAX as int);
        lemma_mul_upper_bound(count as int, usize::MAX as int, w as int, u32::MAX as int);
        lemma_mul_nonnegative(start as int, w as int);
        lemma_mul_nonnegative(count as int, w as int);
        lemma_mul_is_distributive_add_other_way(w as int, start as int, count as int);
    }
    let from: u128 = start as u128 * w as u128;
    let want: u128 = count as u128 * w as u128;
    let have: u128 = 8 * len as u128;
    if from >= have {
        let r: Vec<u8> = zero_bytes(((want + 7) / 8) as usize);
        proof {
            let part = tile_bytes(data@, start as nat, count as nat, w as nat);
            assert forall|k: int| 0 <= k < part.len() implies part[k] == 0 by {
                let p = |t: nat|
                    8 * k + t < want && byte_bit(data@, (start as nat * w as nat + 8 * k + t) as nat);
                lemma2_to64();
                assert forall|t: nat| t < 8 implies #[trigger] nat_bit(0, t) == p(t) by {
                    lemma_pow2_pos(t);
                }
                lemma_bits_nat_unique(p, 8, 0);
            }
            assert(r@ =~= part);
        }
        return r;
    }
    let bits: u128 = if have < from + want {
        have - from
    } else {
        want
    };
    let n: usize = ((bits + 7) / 8) as usize;
    let q: usize = (from / 8) as usize;
    let s: u32 = (from % 8) as u32;
    let mut r: Vec<u8> = Vec::with_capacity(n);
    let mut k: usize = 0;
    while k < n
        invariant
            k <= n,
            n == (bits + 7) / 8,
            len == data@.len(),
            from == start as nat * w as nat,
            bits == tile_bits(len as nat, start as nat, count as nat, w as nat),
            from + bits <= 8 * len,
            from == 8 * q + s,
            s < 8,
            r@.len() == k,
            forall|i: int|
                0 <= i < k ==> #[trigger] r@[i] == tile_bytes(
                    data@,
                    start as nat,
                    count as nat,
                    w as nat,
                )[i],
        decreases n - k,
    {
        let y: u8 = if q + k + 1 < len {
            data[q + k + 1]
        } else {
            0
        };
        let left: u128 = bits - 8 * k as u128;
        let keep: u32 = if left < 8 {
            left as u32
        } else {
            8
        };
        let b: u8 = shifted_byte(data[q + k], y, s, keep);
        proof {
            let p = |t: nat|
                8 * k + t < bits && byte_bit(data@, (start as nat * w as nat + 8 * k + t) as nat);
            lemma2_to64();
            assert forall|t: nat| t < 8 implies #[trigger] nat_bit(b as nat, t) == p(t) by {
                let j = (from + 8 * k + t) as nat;
                assert(j == 8 * (q + k) + (s + t));
                lemma_pow2_pos((s + t - 8) as nat);
            }
            lemma_bits_nat_unique(p, 8, b as nat);
        }
        r.push(b);
        k = k + 1;
    }
    assert(r@ =~= tile_bytes(data@, start as nat, count as nat, w as nat));
    r
}

fn cut_inputs(graph: &ArenaGraph, inputs: &Vec<usize>, start: usize, count: usize) -> (r: Vec<
    Vec<u8>,
>)
    requires
        inputs_fit(graph.views(), count as nat),
        forall|k: int|
            0 <= k < inputs@.len() ==> #[trigger] inputs@[k] < graph.nodes@.len()
                && graph.views()[inputs@[k] as int] is Variable,
    ensures
        r@.len() == inputs@.len(),
        forall|k: int|
            0 <= k < inputs@.len() ==> (#[trigger] r@[k])@ == tile_bytes(
                node_data(graph.views()[inputs@[k] as int]),
                start as nat,
                count as nat,
                node_width(graph.views()[inputs@[k] as int]),
            ),
{
    let n: usize = inputs.len();
    let mut r: Vec<Vec<u8>> = Vec::with_capacity(n);
    let mut i: usize = 0;
    while i < n
        invariant
            i <= n,
            n == inputs@.len(),
            inputs_fit(graph.views(), count as nat),
            forall|k: int|
                0 <= k < inputs@.len() ==> #[trigger] inputs@[k] < graph.nodes@.len()
                    && graph.views()[inputs@[k] as int] is Variable,
            r@.len() == i,
            forall|k: int|
                0 <= k < i ==> (#[trigger] r@[k])@ == tile_bytes(
                    node_data(graph.views()[inputs@[k] as int]),
                    start as nat,
                    count as nat,
                    node_width(graph.views()[inputs@[k] as int]),
                ),
        decreases n - i,
    {
        let nid: usize = inputs[i];
        assert(graph.views()[nid as int] == graph.nodes@[nid as int]@);
        let part: Vec<u8> = match &graph.nodes[nid] {
            Node::Variable { packed_data, dtype, .. } => cut(
                packed_data.as_slice(),
                start,
                count,
                dtype.bit_width(),
            ),
            _ => Vec::new(),
        };
        r.push(part);
        i = i + 1;
    }
    r
}

/// Cuts a graph into tiles, the first of which stays here. There are none where
/// it is not cut.
pub fn decompose(graph: &ArenaGraph, num_nodes: usize, ids: &mut TileIds) -> (r: Option<Vec<Tile>>)
    requires
        graph.wf(),
        expr_countable(graph.tree()),
        num_nodes < usize::MAX,
        inputs_fit(graph.views(), expr_size(graph.tree())),
    ensures
        match r {
            Some(tiles) => {
                let n = tile_count(expr_size(graph.tree()), num_nodes as nat);
                &&& is_cut(*graph, num_nodes as nat)
                &&& tiles@.len() == n
                &&& forall|i: int|
                    0 <= i < n ==> is_tile(
                        *graph,
                        num_nodes as nat,
                        old(ids).next,
                        i as nat,
                        #[trigger] tiles@[i],
                    )
                &&& final(ids).next == tile_id(old(ids).next, n)
            },
            None => !is_cut(*graph, num_nodes as nat) && final(ids).next == old(ids).next,
        },
{
    if num_nodes == 0 {
        return None;
    }
    let size: usize = graph.size(graph.root);
    if size <= LOCAL_TILE_THRESHOLD || !is_elementwise(graph) {
        return None;
    }
    let inputs: Vec<usize> = find_inputs(graph);
    let parts: usize = if num_nodes + 1 < size {
        num_nodes + 1
    } else {
        size
    };
    let bits: u32 = match graph.data_type(graph.root) {
        DataType::Float(b) => b,
        DataType::Int(b) => b,
        _ => 64,
    };
    let base: usize = size / parts;
    let rest: usize = size % parts;
    let ghost first = ids.next;
    let mut tiles: Vec<Tile> = Vec::new();
    let mut offset: usize = 0;
    let mut i: usize = 0;
    proof {
        lemma_small_mod(first as nat, 0x1_0000_0000_0000_0000);
    }
    while i < parts
        invariant
            i <= parts,
            0 < parts <= size,
            parts == tile_count(size as nat, num_nodes as nat),
            size as nat == expr_size(graph.tree()),
            bits == wire_bits(expr_type(graph.tree())),
            inputs_fit(graph.views(), size as nat),
            base == size / parts,
            rest == size % parts,
            forall|k: int|
                0 <= k < inputs@.len() ==> {
                    &&& #[trigger] inputs@[k] as nat == input_nodes(
                        graph.views(),
                        graph.views().len(),
                    )[k]
                    &&& inputs@[k] < graph.nodes@.len()
                    &&& graph.views()[inputs@[k] as int] is Variable
                },
            inputs@.len() == input_nodes(graph.views(), graph.views().len()).len(),
            offset == tile_start(size as nat, parts as nat, i as nat),
            ids.next == tile_id(first, i as nat),
            tiles@.len() == i,
            forall|k: int|
                0 <= k < i ==> is_tile(
                    *graph,
                    num_nodes as nat,
                    first,
                    k as nat,
                    #[trigger] tiles@[k],
                ),
        decreases parts - i,
    {
        proof {
            law_tiles_cover(size as nat, parts as nat);
            lemma_starts_grow(size as nat, parts as nat, (i + 1) as nat, parts as nat);
            lemma_starts_grow(size as nat, parts as nat, i as nat, (i + 1) as nat);
            law_tiles_are_even(size as nat, parts as nat, i as nat, 0);
            assert(tile_start(size as nat, parts as nat, (i + 1) as nat) == offset + tile_len(
                size as nat,
                parts as nat,
                i as nat,
            ));
            lemma_inputs_fit(
                graph.views(),
                size as nat,
                tile_len(size as nat, parts as nat, i as nat),
            );
        }
        let count: usize = if i < rest {
            base + 1
        } else {
            base
        };
        let input_bufs: Vec<Vec<u8>> = cut_inputs(graph, &inputs, offset, count);
        let id: u64 = ids.next;
        ids.next = ids.next.wrapping_add(1);
        proof {
            lemma_next_tile(first, i as nat);
        }
        tiles.push(Tile { id, elem_start: offset, elem_count: count, bits, input_bufs });
        offset = offset + count;
        i = i + 1;
    }
    Some(tiles)
}

proof fn lemma_inputs_fit(g: Seq<NodeView>, size: nat, count: nat)
    requires
        inputs_fit(g, size),
        count <= size,
    ensures
        inputs_fit(g, count),
{
    assert forall|k: int| 0 <= k < g.len() implies packed_len(
        count,
        node_width(#[trigger] g[k]),
    ) <= usize::MAX by {
        let w = node_width(g[k]);
        assert(packed_len(size, w) <= usize::MAX);
        lemma_mul_inequality(count as int, size as int, w as int);
    }
}

proof fn lemma_next_tile(first: u64, i: nat)
    ensures
        tile_id(first, i + 1) == if tile_id(first, i) == u64::MAX {
            0
        } else {
            (tile_id(first, i) + 1) as u64
        },
{
    let m = 0x1_0000_0000_0000_0000int;
    let x = first + i;
    lemma_mod_bound(x, m);
    lemma_add_mod_noop(x, 1, m);
    lemma_small_mod(1, m as nat);
    if x % m == m - 1 {
        lemma_mod_self_0(m);
    } else {
        lemma_small_mod((x % m + 1) as nat, m as nat);
    }
}

} // verus!
