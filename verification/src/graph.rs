//! Expressions as flat graphs: every node in one list, operands before their
//! users.

use crate::ir::{
    constant_scale, copy_sizes, expr_countable, expr_scale, expr_size, expr_steal, expr_type,
    max_size, or_scale, Expr, ExprView, PackedBuffer,
};
use crate::types::{DataType, Scalar, ScalarView};
use vstd::prelude::*;

verus! {

/// The place of a node in its graph.
pub type NodeId = usize;

/// A node of a graph.
#[derive(Debug)]
pub enum Node {
    /// A packed array.
    Variable {
        id: usize,
        name: String,
        dtype: DataType,
        size: usize,
        packed_data: PackedBuffer,
        shape: Vec<usize>,
        bit_strides: Vec<usize>,
        bit_offset: usize,
        scale: Option<u32>,
        steal_sign: bool,
    },
    /// One value for every element.
    Constant { val: Scalar },
    Add(NodeId, NodeId),
    Sub(NodeId, NodeId),
    Mul(NodeId, NodeId),
    Div(NodeId, NodeId),
    /// Activations, weights and the three sizes of a matrix product.
    DequantizeMatmul(NodeId, NodeId, usize, usize, usize),
}

/// What a `Node` stands for.
pub enum NodeView {
    Variable {
        id: usize,
        name: Seq<char>,
        dtype: DataType,
        size: usize,
        data: Seq<u8>,
        shape: Seq<usize>,
        bit_strides: Seq<usize>,
        bit_offset: usize,
        scale: Option<u32>,
        steal_sign: bool,
    },
    Constant { val: ScalarView },
    Add(nat, nat),
    Sub(nat, nat),
    Mul(nat, nat),
    Div(nat, nat),
    DequantizeMatmul(nat, nat, usize, usize, usize),
}

impl View for Node {
    type V = NodeView;

    open spec fn view(&self) -> NodeView {
        match *self {
            Node::Variable {
                id,
                name,
                dtype,
                size,
                packed_data,
                shape,
                bit_strides,
                bit_offset,
                scale,
                steal_sign,
            } => NodeView::Variable {
                id,
                name: name@,
                dtype,
                size,
                data: packed_data@,
                shape: shape@,
                bit_strides: bit_strides@,
                bit_offset,
                scale,
                steal_sign,
            },
            Node::Constant { val } => NodeView::Constant { val: val@ },
            Node::Add(l, r) => NodeView::Add(l as nat, r as nat),
            Node::Sub(l, r) => NodeView::Sub(l as nat, r as nat),
            Node::Mul(l, r) => NodeView::Mul(l as nat, r as nat),
            Node::Div(l, r) => NodeView::Div(l as nat, r as nat),
            Node::DequantizeMatmul(a, w, m, k, n) => NodeView::DequantizeMatmul(
                a as nat,
                w as nat,
                m,
                k,
                n,
            ),
        }
    }
}

impl Clone for Node {
    fn clone(&self) -> (r: Self)
        ensures
            r@ == self@,
    {
        match self {
            Node::Variable {
                id,
                name,
                dtype,
                size,
                packed_data,
                shape,
                bit_strides,
                bit_offset,
                scale,
                steal_sign,
            } => Node::Variable {
                id: *id,
                name: name.clone(),
                dtype: *dtype,
                size: *size,
                packed_data: packed_data.clone(),
                shape: copy_sizes(shape.as_slice()),
                bit_strides: copy_sizes(bit_strides.as_slice()),
                bit_offset: *bit_offset,
                scale: *scale,
                steal_sign: *steal_sign,
            },
            Node::Constant { val } => Node::Constant { val: val.clone() },
            Node::Add(l, r) => Node::Add(*l, *r),
            Node::Sub(l, r) => Node::Sub(*l, *r),
            Node::Mul(l, r) => Node::Mul(*l, *r),
            Node::Div(l, r) => Node::Div(*l, *r),
            Node::DequantizeMatmul(a, w, m, k, n) => Node::DequantizeMatmul(*a, *w, *m, *k, *n),
        }
    }
}

// ─── Graphs as expressions ───────────────────────────────────────────────────

/// The operands of a node that lie before it.
pub open spec fn operands_before(n: NodeView, id: nat) -> bool {
    match n {
        NodeView::Variable { .. } => true,
        NodeView::Constant { .. } => true,
        NodeView::Add(l, r) => l < id && r < id,
        NodeView::Sub(l, r) => l < id && r < id,
        NodeView::Mul(l, r) => l < id && r < id,
        NodeView::Div(l, r) => l < id && r < id,
        NodeView::DequantizeMatmul(a, w, _, _, _) => a < id && w < id,
    }
}

/// That operands always lie before their users.
pub open spec fn acyclic(nodes: Seq<NodeView>) -> bool {
    forall|i: int| 0 <= i < nodes.len() ==> operands_before(#[trigger] nodes[i], i as nat)
}

/// The expression that a node of a graph stands for.
pub open spec fn node_tree(nodes: Seq<NodeView>, id: nat) -> ExprView
    decreases id,
{
    match nodes[id as int] {
        NodeView::Variable {
            id,
            name,
            dtype,
            size,
            data,
            shape,
            bit_strides,
            bit_offset,
            scale,
            steal_sign,
        } => ExprView::Variable {
            id,
            name,
            dtype,
            size,
            data,
            shape,
            bit_strides,
            bit_offset,
            scale,
            steal_sign,
        },
        NodeView::Constant { val } => ExprView::Constant { val },
        NodeView::Add(l, r) => if l < id && r < id {
            ExprView::Add {
                left: Box::new(node_tree(nodes, l)),
                right: Box::new(node_tree(nodes, r)),
            }
        } else {
            arbitrary()
        },
        NodeView::Sub(l, r) => if l < id && r < id {
            ExprView::Sub {
                left: Box::new(node_tree(nodes, l)),
                right: Box::new(node_tree(nodes, r)),
            }
        } else {
            arbitrary()
        },
        NodeView::Mul(l, r) => if l < id && r < id {
            ExprView::Mul {
                left: Box::new(node_tree(nodes, l)),
                right: Box::new(node_tree(nodes, r)),
            }
        } else {
            arbitrary()
        },
        NodeView::Div(l, r) => if l < id && r < id {
            ExprView::Div {
                left: Box::new(node_tree(nodes, l)),
                right: Box::new(node_tree(nodes, r)),
            }
        } else {
            arbitrary()
        },
        NodeView::DequantizeMatmul(a, w, m, k, n) => if a < id && w < id {
            ExprView::DequantizeMatmul {
                activations: Box::new(node_tree(nodes, a)),
                weights: Box::new(node_tree(nodes, w)),
                m,
                k,
                n,
            }
        } else {
            arbitrary()
        },
    }
}

/// The nodes of two operands and of the operation on them, which follow `base`
/// other nodes.
pub open spec fn join_nodes(
    l: Seq<NodeView>,
    r: Seq<NodeView>,
    op: NodeView,
) -> Seq<NodeView> {
    (l + r).push(op)
}

/// The nodes that an expression adds to a graph of `base` nodes: those of the
/// left operand, those of the right one, the operation.
pub open spec fn expr_nodes(e: ExprView, base: nat) -> Seq<NodeView>
    decreases e,
{
    match e {
        ExprView::Variable {
            id,
            name,
            dtype,
            size,
            data,
            shape,
            bit_strides,
            bit_offset,
            scale,
            steal_sign,
        } => seq![
            NodeView::Variable {
                id,
                name,
                dtype,
                size,
                data,
                shape,
                bit_strides,
                bit_offset,
                scale,
                steal_sign,
            },
        ],
        ExprView::Constant { val } => seq![NodeView::Constant { val }],
        ExprView::Add { left, right } => {
            let l = expr_nodes(*left, base);
            let r = expr_nodes(*right, base + l.len());
            let at = last_of(l, base);
            join_nodes(l, r, NodeView::Add(at, last_of(r, base + l.len())))
        },
        ExprView::Sub { left, right } => {
            let l = expr_nodes(*left, base);
            let r = expr_nodes(*right, base + l.len());
            join_nodes(l, r, NodeView::Sub(last_of(l, base), last_of(r, base + l.len())))
        },
        ExprView::Mul { left, right } => {
            let l = expr_nodes(*left, base);
            let r = expr_nodes(*right, base + l.len());
            join_nodes(l, r, NodeView::Mul(last_of(l, base), last_of(r, base + l.len())))
        },
        ExprView::Div { left, right } => {
            let l = expr_nodes(*left, base);
            let r = expr_nodes(*right, base + l.len());
            join_nodes(l, r, NodeView::Div(last_of(l, base), last_of(r, base + l.len())))
        },
        ExprView::DequantizeMatmul { activations, weights, m, k, n } => {
            let l = expr_nodes(*activations, base);
            let r = expr_nodes(*weights, base + l.len());
            join_nodes(
                l,
                r,
                NodeView::DequantizeMatmul(
                    last_of(l, base),
                    last_of(r, base + l.len()),
                    m,
                    k,
                    n,
                ),
            )
        },
    }
}

/// The place of the last of some nodes that follow `base` others.
pub open spec fn last_of(s: Seq<NodeView>, base: nat) -> nat {
    (base + s.len() - 1) as nat
}

/// Nodes added after a node do not change what it stands for.
pub proof fn lemma_tree_prefix(nodes: Seq<NodeView>, more: Seq<NodeView>, id: nat)
    requires
        acyclic(nodes),
        id < nodes.len(),
    ensures
        node_tree(nodes + more, id) == node_tree(nodes, id),
    decreases id,
{
    let all = nodes + more;
    assert(all[id as int] == nodes[id as int]);
    assert(operands_before(nodes[id as int], id));
    match nodes[id as int] {
        NodeView::Variable { .. } => {},
        NodeView::Constant { .. } => {},
        NodeView::Add(l, r) => {
            lemma_tree_prefix(nodes, more, l);
            lemma_tree_prefix(nodes, more, r);
        },
        NodeView::Sub(l, r) => {
            lemma_tree_prefix(nodes, more, l);
            lemma_tree_prefix(nodes, more, r);
        },
        NodeView::Mul(l, r) => {
            lemma_tree_prefix(nodes, more, l);
            lemma_tree_prefix(nodes, more, r);
        },
        NodeView::Div(l, r) => {
            lemma_tree_prefix(nodes, more, l);
            lemma_tree_prefix(nodes, more, r);
        },
        NodeView::DequantizeMatmul(l, r, _, _, _) => {
            lemma_tree_prefix(nodes, more, l);
            lemma_tree_prefix(nodes, more, r);
        },
    }
}

/// Two operands and an operation on them, added to a graph.
proof fn lemma_join(
    before: Seq<NodeView>,
    l: Seq<NodeView>,
    r: Seq<NodeView>,
    op: NodeView,
)
    requires
        acyclic(before + l),
        acyclic(before + l + r),
        l.len() > 0,
        r.len() > 0,
        operands_before(op, before.len() + l.len() + r.len()),
    ensures
        acyclic(before + join_nodes(l, r, op)),
        (before + join_nodes(l, r, op)).last() == op,
        node_tree(before + join_nodes(l, r, op), last_of(l, before.len())) == node_tree(
            before + l,
            last_of(l, before.len()),
        ),
        node_tree(before + join_nodes(l, r, op), last_of(r, before.len() + l.len()))
            == node_tree(before + l + r, last_of(r, before.len() + l.len())),
{
    let all = before + join_nodes(l, r, op);
    assert(all =~= (before + l + r).push(op));
    assert forall|i: int| 0 <= i < all.len() implies operands_before(
        #[trigger] all[i],
        i as nat,
    ) by {
        if i < all.len() - 1 {
            assert(all[i] == (before + l + r)[i]);
        }
    }
    assert(all =~= (before + l) + r.push(op));
    assert(all =~= (before + l + r) + seq![op]);
    lemma_tree_prefix(before + l, r.push(op), last_of(l, before.len()));
    lemma_tree_prefix(before + l + r, seq![op], last_of(r, before.len() + l.len()));
}

/// The last of the nodes that an expression adds to a graph stands for that
/// expression, and the graph stays acyclic.
pub proof fn law_nodes_stand_for_expr(e: ExprView, before: Seq<NodeView>)
    requires
        acyclic(before),
    ensures
        expr_nodes(e, before.len()).len() > 0,
        acyclic(before + expr_nodes(e, before.len())),
        node_tree(
            before + expr_nodes(e, before.len()),
            last_of(expr_nodes(e, before.len()), before.len()),
        ) == e,
    decreases e,
{
    let nodes = expr_nodes(e, before.len());
    let all = before + nodes;
    match e {
        ExprView::Variable { .. } => {
            assert(all =~= before.push(nodes[0]));
        },
        ExprView::Constant { .. } => {
            assert(all =~= before.push(nodes[0]));
        },
        ExprView::Add { left, right } => {
            let l = expr_nodes(*left, before.len());
            let r = expr_nodes(*right, before.len() + l.len());
            law_nodes_stand_for_expr(*left, before);
            law_nodes_stand_for_expr(*right, before + l);
            lemma_join(before, l, r, nodes.last());
        },
        ExprView::Sub { left, right } => {
            let l = expr_nodes(*left, before.len());
            let r = expr_nodes(*right, before.len() + l.len());
            law_nodes_stand_for_expr(*left, before);
            law_nodes_stand_for_expr(*right, before + l);
            lemma_join(before, l, r, nodes.last());
        },
        ExprView::Mul { left, right } => {
            let l = expr_nodes(*left, before.len());
            let r = expr_nodes(*right, before.len() + l.len());
            law_nodes_stand_for_expr(*left, before);
            law_nodes_stand_for_expr(*right, before + l);
            lemma_join(before, l, r, nodes.last());
        },
        ExprView::Div { left, right } => {
            let l = expr_nodes(*left, before.len());
            let r = expr_nodes(*right, before.len() + l.len());
            law_nodes_stand_for_expr(*left, before);
            law_nodes_stand_for_expr(*right, before + l);
            lemma_join(before, l, r, nodes.last());
        },
        ExprView::DequantizeMatmul { activations, weights, .. } => {
            let l = expr_nodes(*activations, before.len());
            let r = expr_nodes(*weights, before.len() + l.len());
            law_nodes_stand_for_expr(*activations, before);
            law_nodes_stand_for_expr(*weights, before + l);
            lemma_join(before, l, r, nodes.last());
        },
    }
}

// ─── The graph ───────────────────────────────────────────────────────────────

/// A graph of nodes with a root.
#[derive(Debug)]
pub struct ArenaGraph {
    pub nodes: Vec<Node>,
    pub root: NodeId,
    pub is_stabilized: bool,
}

/// The views of a list of nodes.
pub open spec fn node_views(nodes: Seq<Node>) -> Seq<NodeView> {
    Seq::new(nodes.len(), |i: int| nodes[i]@)
}

impl ArenaGraph {
    /// What the nodes stand for.
    pub open spec fn views(&self) -> Seq<NodeView> {
        node_views(self.nodes@)
    }

    /// That operands lie before their users and that the root is a node.
    pub open spec fn wf(&self) -> bool {
        acyclic(self.views()) && self.root < self.nodes@.len()
    }

    /// The expression that the root stands for.
    pub open spec fn tree(&self) -> ExprView {
        node_tree(self.views(), self.root as nat)
    }

    /// A graph without nodes.
    pub fn new() -> (r: Self)
        ensures
            r.nodes@.len() == 0,
            r.root == 0,
            !r.is_stabilized,
    {
        ArenaGraph { nodes: Vec::new(), root: 0, is_stabilized: false }
    }

    /// Adds a node and gives its place.
    pub fn push(&mut self, node: Node) -> (id: NodeId)
        ensures
            id == old(self).nodes@.len(),
            final(self).nodes@ == old(self).nodes@.push(node),
            final(self).views() == old(self).views().push(node@),
            final(self).root == old(self).root,
            final(self).is_stabilized == old(self).is_stabilized,
    {
        let id: usize = self.nodes.len();
        self.nodes.push(node);
        assert(self.views() =~= old(self).views().push(node@));
        id
    }

    /// The graph of an expression.
    pub fn from_expr(expr: &Expr) -> (r: Self)
        ensures
            r.views() == expr_nodes(expr@, 0),
            r.root == r.nodes@.len() - 1,
            !r.is_stabilized,
            r.wf(),
            r.tree() == expr@,
    {
        let mut graph: ArenaGraph = ArenaGraph::new();
        let ghost none = graph.views();
        let root: usize = Self::traverse(expr, &mut graph);
        graph.root = root;
        proof {
            assert(none =~= Seq::<NodeView>::empty());
            law_nodes_stand_for_expr(expr@, none);
            assert(none + expr_nodes(expr@, 0) =~= expr_nodes(expr@, 0));
        }
        graph
    }

    fn traverse(expr: &Expr, graph: &mut ArenaGraph) -> (id: NodeId)
        requires
            acyclic(old(graph).views()),
        ensures
            final(graph).views() == old(graph).views() + expr_nodes(
                expr@,
                old(graph).views().len(),
            ),
            final(graph).nodes@.len() > old(graph).nodes@.len(),
            id == final(graph).nodes@.len() - 1,
            acyclic(final(graph).views()),
            final(graph).root == old(graph).root,
            final(graph).is_stabilized == old(graph).is_stabilized,
        decreases *expr,
    {
        let ghost before = graph.views();
        proof {
            law_nodes_stand_for_expr(expr@, before);
        }
        match expr {
            Expr::Variable {
                id,
                name,
                dtype,
                size,
                packed_data,
                shape,
                bit_strides,
                bit_offset,
                scale,
                steal_sign,
            } => {
                let n: Node = Node::Variable {
                    id: *id,
                    name: name.clone(),
                    dtype: *dtype,
                    size: *size,
                    packed_data: packed_data.clone(),
                    shape: copy_sizes(shape.as_slice()),
                    bit_strides: copy_sizes(bit_strides.as_slice()),
                    bit_offset: *bit_offset,
                    scale: *scale,
                    steal_sign: *steal_sign,
                };
                assert(before.push(n@) =~= before + expr_nodes(expr@, before.len()));
                graph.push(n)
            },
            Expr::Constant { val } => {
                let n: Node = Node::Constant { val: val.clone() };
                assert(before.push(n@) =~= before + expr_nodes(expr@, before.len()));
                graph.push(n)
            },
            Expr::Add { left, right } => {
                let l: usize = Self::traverse(left, graph);
                let r: usize = Self::traverse(right, graph);
                let n: Node = Node::Add(l, r);
                assert(graph.views().push(n@) =~= before + expr_nodes(expr@, before.len()));
                graph.push(n)
            },
            Expr::Sub { left, right } => {
                let l: usize = Self::traverse(left, graph);
                let r: usize = Self::traverse(right, graph);
                let n: Node = Node::Sub(l, r);
                assert(graph.views().push(n@) =~= before + expr_nodes(expr@, before.len()));
                graph.push(n)
            },
            Expr::Mul { left, right } => {
                let l: usize = Self::traverse(left, graph);
                let r: usize = Self::traverse(right, graph);
                let n: Node = Node::Mul(l, r);
                assert(graph.views().push(n@) =~= before + expr_nodes(expr@, before.len()));
                graph.push(n)
            },
            Expr::Div { left, right } => {
                let l: usize = Self::traverse(left, graph);
                let r: usize = Self::traverse(right, graph);
                let n: Node = Node::Div(l, r);
                assert(graph.views().push(n@) =~= before + expr_nodes(expr@, before.len()));
                graph.push(n)
            },
            Expr::DequantizeMatmul { activations, weights, m, k, n } => {
                let l: usize = Self::traverse(activations, graph);
                let r: usize = Self::traverse(weights, graph);
                let n: Node = Node::DequantizeMatmul(l, r, *m, *k, *n);
                assert(graph.views().push(n@) =~= before + expr_nodes(expr@, before.len()));
                graph.push(n)
            },
        }
    }

    /// The element type of a node.
    pub fn data_type(&self, id: NodeId) -> (r: DataType)
        requires
            acyclic(self.views()),
            id < self.nodes@.len(),
        ensures
            r == expr_type(node_tree(self.views(), id as nat)),
        decreases id,
    {
        assert(operands_before(self.views()[id as int], id as nat));
        match &self.nodes[id] {
            Node::Variable { dtype, .. } => *dtype,
            Node::Constant { val } => val.data_type(),
            Node::Add(l, _) => self.data_type(*l),
            Node::Sub(l, _) => self.data_type(*l),
            Node::Mul(l, _) => self.data_type(*l),
            Node::Div(l, _) => self.data_type(*l),
            Node::DequantizeMatmul(..) => DataType::Float(64),
        }
    }

    /// The number of elements of a node.
    pub fn size(&self, id: NodeId) -> (r: usize)
        requires
            acyclic(self.views()),
            id < self.nodes@.len(),
            expr_countable(node_tree(self.views(), id as nat)),
        ensures
            r as nat == expr_size(node_tree(self.views(), id as nat)),
        decreases id,
    {
        assert(operands_before(self.views()[id as int], id as nat));
        match &self.nodes[id] {
            Node::Variable { size, .. } => *size,
            Node::Constant { .. } => 1,
            Node::Add(l, r) => max_size(self.size(*l), self.size(*r)),
            Node::Sub(l, r) => max_size(self.size(*l), self.size(*r)),
            Node::Mul(l, r) => max_size(self.size(*l), self.size(*r)),
            Node::Div(l, r) => max_size(self.size(*l), self.size(*r)),
            Node::DequantizeMatmul(_, _, m, _, n) => *m * *n,
        }
    }

    /// The decimal scale of a node, if it has one.
    pub fn get_scale(&self, id: NodeId) -> (r: Option<u32>)
        requires
            acyclic(self.views()),
            id < self.nodes@.len(),
        ensures
            r == expr_scale(node_tree(self.views(), id as nat)),
        decreases id,
    {
        assert(operands_before(self.views()[id as int], id as nat));
        match &self.nodes[id] {
            Node::Variable { scale, .. } => *scale,
            Node::Constant { val } => constant_scale(val),
            Node::Add(l, r) => or_scale(self.get_scale(*l), self.get_scale(*r)),
            Node::Sub(l, r) => or_scale(self.get_scale(*l), self.get_scale(*r)),
            Node::Mul(l, r) => or_scale(self.get_scale(*l), self.get_scale(*r)),
            Node::Div(l, r) => or_scale(self.get_scale(*l), self.get_scale(*r)),
            Node::DequantizeMatmul(..) => None,
        }
    }

    /// Whether a node is coded without a sign bit.
    pub fn steal_sign(&self, id: NodeId) -> (r: bool)
        requires
            acyclic(self.views()),
            id < self.nodes@.len(),
        ensures
            r == expr_steal(node_tree(self.views(), id as nat)),
        decreases id,
    {
        assert(operands_before(self.views()[id as int], id as nat));
        match &self.nodes[id] {
            Node::Variable { steal_sign, .. } => *steal_sign,
            Node::Constant { .. } => false,
            Node::Add(l, _) => self.steal_sign(*l),
            Node::Sub(l, _) => self.steal_sign(*l),
            Node::Mul(l, _) => self.steal_sign(*l),
            Node::Div(l, _) => self.steal_sign(*l),
            Node::DequantizeMatmul(..) => false,
        }
    }
}

impl Clone for ArenaGraph {
    fn clone(&self) -> (r: Self)
        ensures
            r.views() == self.views(),
            r.root == self.root,
            r.is_stabilized == self.is_stabilized,
    {
        let mut nodes: Vec<Node> = Vec::with_capacity(self.nodes.len());
        let mut i: usize = 0;
        while i < self.nodes.len()
            invariant
                i <= self.nodes@.len(),
                nodes@.len() == i,
                forall|j: int| 0 <= j < i ==> (#[trigger] nodes@[j])@ == self.nodes@[j]@,
            decreases self.nodes@.len() - i,
        {
            nodes.push(self.nodes[i].clone());
            i = i + 1;
        }
        let r: ArenaGraph = ArenaGraph {
            nodes,
            root: self.root,
            is_stabilized: self.is_stabilized,
        };
        assert(r.views() =~= self.views());
        r
    }
}

} // verus!
