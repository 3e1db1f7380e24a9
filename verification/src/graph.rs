//! The scalar computation graph: an arena of nodes, each holding a data
//! payload, a gradient payload, and a record of the operation that derived
//! it from earlier nodes.
//!
//! Scalar payloads are opaque 64-bit words. The graph never interprets
//! them numerically: it records structure (which node was derived from
//! which, and by which operation) and leaves the arithmetic to the caller,
//! who typically treats a payload as the bit pattern of an IEEE-754 double.
//! A node created by an operator starts with the all-zero data payload;
//! the caller fills in the computed value by walking the arena in index
//! order (every operand of a node sits at a smaller index, so a single
//! ascending scan suffices).
//!
//! Acyclicity is structural: an operation may only name nodes that already
//! exist, so every operand index is strictly smaller than the index of the
//! node it feeds. No defensive cycle check is needed anywhere; the
//! properties such a check would watch for are proved instead (see
//! `backprop`).

use vstd::prelude::*;

verus! {

/// A handle to one node of a [`Graph`]: an index into the arena.
///
/// Two handles denote the same node exactly when their indices are equal;
/// sharing a node means copying its handle. A single node may be named as
/// an operand any number of times, and every use contributes to its
/// gradient during backpropagation.
#[derive(Clone, Copy, PartialEq, Eq, Structural, Debug)]
pub struct Value {
    pub index: usize,
}

/// The operation that derived a node, together with handles to its
/// operand node(s). The exponent of `Pow` is a plain scalar payload, not
/// a node: it is never differentiated.
#[derive(Clone, Copy, PartialEq, Eq, Structural, Debug)]
pub enum Op {
    Add(Value, Value),
    Neg(Value),
    Mul(Value, Value),
    Pow { base: Value, exp: u64 },
    Tanh(Value),
}

/// One arena slot: the current data payload, the gradient accumulator
/// payload, and the origin of the node (`None` for a leaf).
#[derive(Clone, Copy, PartialEq, Eq, Structural, Debug)]
pub struct Node {
    pub data: u64,
    pub grad: u64,
    pub origin: Option<Op>,
}

/// The arena holding every node of one computation graph.
///
/// A graph is built afresh for each loss computation; leaf nodes carry the
/// payloads the caller supplied, derived nodes record their origin. All
/// graphs built through this module satisfy [`Graph::wf`]: every operand
/// of every node has a strictly smaller index.
pub struct Graph {
    pub nodes: Vec<Node>,
}

impl Value {
    /// The arena slot this handle refers to.
    pub open spec fn id(self) -> int {
        self.index as int
    }
}

/// The operand handles of an operation, in the fixed order used
/// throughout: first operand first.
pub open spec fn op_operands(op: Op) -> Seq<Value> {
    match op {
        Op::Add(a, b) => seq![a, b],
        Op::Neg(a) => seq![a],
        Op::Mul(a, b) => seq![a, b],
        Op::Pow { base, exp: _ } => seq![base],
        Op::Tanh(a) => seq![a],
    }
}

/// A node destined for slot `i` only names operands in strictly smaller
/// slots.
pub open spec fn node_ok(node: Node, i: int) -> bool {
    match node.origin {
        None => true,
        Some(Op::Add(a, b)) => 0 <= a.id() < i && 0 <= b.id() < i,
        Some(Op::Neg(a)) => 0 <= a.id() < i,
        Some(Op::Mul(a, b)) => 0 <= a.id() < i && 0 <= b.id() < i,
        Some(Op::Pow { base, exp: _ }) => 0 <= base.id() < i,
        Some(Op::Tanh(a)) => 0 <= a.id() < i,
    }
}

impl Graph {
    /// How many nodes the arena holds.
    pub open spec fn len_spec(self) -> int {
        self.nodes@.len() as int
    }

    /// The node in slot `i`.
    pub open spec fn node_at(self, i: int) -> Node {
        self.nodes@[i]
    }

    /// The operand handles of the node in slot `i` (empty for a leaf).
    pub open spec fn children_of(self, i: int) -> Seq<Value> {
        match self.node_at(i).origin {
            None => seq![],
            Some(op) => op_operands(op),
        }
    }

    /// Slot `i` only names operands in strictly smaller slots.
    pub open spec fn wf_node(self, i: int) -> bool {
        node_ok(self.node_at(i), i)
    }

    /// Every node only names operands in strictly smaller slots; this is
    /// what makes the graph a DAG by construction.
    pub open spec fn wf(self) -> bool {
        forall|i: int| 0 <= i < self.len_spec() ==> #[trigger] self.wf_node(i)
    }

    /// `self` is `g` with zero or more nodes appended: every slot of `g`
    /// is unchanged in `self`.
    pub open spec fn extends(self, g: Graph) -> bool {
        &&& g.len_spec() <= self.len_spec()
        &&& forall|i: int| 0 <= i < g.len_spec() ==> self.node_at(i) == #[trigger] g.node_at(i)
    }

    /// An empty graph.
    pub fn new() -> (g: Graph)
        ensures
            g.len_spec() == 0,
            g.wf(),
    {
        Graph { nodes: Vec::new() }
    }

    /// How many nodes the arena holds.
    pub fn len(&self) -> (n: usize)
        ensures
            n == self.len_spec(),
    {
        self.nodes.len()
    }

    /// Append a node whose operands all exist already.
    fn push_node(&mut self, node: Node) -> (v: Value)
        requires
            old(self).wf(),
            node_ok(node, old(self).len_spec()),
        ensures
            final(self).nodes@ == old(self).nodes@.push(node),
            final(self).len_spec() == old(self).len_spec() + 1,
            v.id() == old(self).len_spec(),
            final(self).wf(),
            final(self).extends(*old(self)),
            final(self).node_at(v.id()) == node,
    {
        let i = self.nodes.len();
        self.nodes.push(node);
        proof {
            assert forall|j: int| 0 <= j < self.len_spec() implies #[trigger] self.wf_node(j) by {
                if j < i as int {
                    assert(self.node_at(j) == old(self).node_at(j));
                    assert(old(self).wf_node(j));
                } else {
                    assert(self.node_at(j) == node);
                }
            }
        }
        Value { index: i }
    }
}

impl Value {
    /// Create a leaf node carrying the given data payload: a wrapped
    /// input, a constant, or a trainable parameter. Its gradient payload
    /// starts as the all-zero word.
    pub fn new(graph: &mut Graph, data: u64) -> (v: Value)
        requires
            old(graph).wf(),
        ensures
            final(graph).nodes@ == old(graph).nodes@.push(
                Node { data, grad: 0, origin: None },
            ),
            final(graph).len_spec() == old(graph).len_spec() + 1,
            v.id() == old(graph).len_spec(),
            final(graph).wf(),
            final(graph).extends(*old(graph)),
    {
        graph.push_node(Node { data, grad: 0, origin: None })
    }

    /// Create the node for an operation over existing nodes. The data
    /// payload starts as the all-zero word until the caller's evaluation
    /// pass fills it in.
    fn with_op(graph: &mut Graph, op: Op) -> (v: Value)
        requires
            old(graph).wf(),
            node_ok(Node { data: 0, grad: 0, origin: Some(op) }, old(graph).len_spec()),
        ensures
            final(graph).nodes@ == old(graph).nodes@.push(
                Node { data: 0, grad: 0, origin: Some(op) },
            ),
            final(graph).len_spec() == old(graph).len_spec() + 1,
            v.id() == old(graph).len_spec(),
            final(graph).wf(),
            final(graph).extends(*old(graph)),
    {
        graph.push_node(Node { data: 0, grad: 0, origin: Some(op) })
    }

    /// True when this handle points into `graph`.
    pub open spec fn in_graph(self, graph: Graph) -> bool {
        0 <= self.id() < graph.len_spec()
    }

    /// The sum of this node and `rhs`: records `Add(self, rhs)`.
    pub fn add(self, graph: &mut Graph, rhs: Value) -> (v: Value)
        requires
            old(graph).wf(),
            self.in_graph(*old(graph)),
            rhs.in_graph(*old(graph)),
        ensures
            final(graph).nodes@ == old(graph).nodes@.push(
                Node { data: 0, grad: 0, origin: Some(Op::Add(self, rhs)) },
            ),
            final(graph).len_spec() == old(graph).len_spec() + 1,
            v.id() == old(graph).len_spec(),
            final(graph).wf(),
            final(graph).extends(*old(graph)),
    {
        Value::with_op(graph, Op::Add(self, rhs))
    }

    /// The product of this node and `rhs`: records `Mul(self, rhs)`.
    pub fn mul(self, graph: &mut Graph, rhs: Value) -> (v: Value)
        requires
            old(graph).wf(),
            self.in_graph(*old(graph)),
            rhs.in_graph(*old(graph)),
        ensures
            final(graph).nodes@ == old(graph).nodes@.push(
                Node { data: 0, grad: 0, origin: Some(Op::Mul(self, rhs)) },
            ),
            final(graph).len_spec() == old(graph).len_spec() + 1,
            v.id() == old(graph).len_spec(),
            final(graph).wf(),
            final(graph).extends(*old(graph)),
    {
        Value::with_op(graph, Op::Mul(self, rhs))
    }

    /// The negation of this node: records `Neg(self)`.
    pub fn neg(self, graph: &mut Graph) -> (v: Value)
        requires
            old(graph).wf(),
            self.in_graph(*old(graph)),
        ensures
            final(graph).nodes@ == old(graph).nodes@.push(
                Node { data: 0, grad: 0, origin: Some(Op::Neg(self)) },
            ),
            final(graph).len_spec() == old(graph).len_spec() + 1,
            v.id() == old(graph).len_spec(),
            final(graph).wf(),
            final(graph).extends(*old(graph)),
    {
        Value::with_op(graph, Op::Neg(self))
    }

    /// This node raised to a constant exponent: records `Pow`. The
    /// exponent is a plain payload, never differentiated. The caller's
    /// derivative rule assumes a positive base when the exponent is not an
    /// integer; that is a numerical caveat of the payload encoding, not of
    /// the graph.
    pub fn powf(self, graph: &mut Graph, exp: u64) -> (v: Value)
        requires
            old(graph).wf(),
            self.in_graph(*old(graph)),
        ensures
            final(graph).nodes@ == old(graph).nodes@.push(
                Node { data: 0, grad: 0, origin: Some(Op::Pow { base: self, exp }) },
            ),
            final(graph).len_spec() == old(graph).len_spec() + 1,
            v.id() == old(graph).len_spec(),
            final(graph).wf(),
            final(graph).extends(*old(graph)),
    {
        Value::with_op(graph, Op::Pow { base: self, exp })
    }

    /// The hyperbolic tangent of this node: records `Tanh(self)`.
    pub fn tanh(self, graph: &mut Graph) -> (v: Value)
        requires
            old(graph).wf(),
            self.in_graph(*old(graph)),
        ensures
            final(graph).nodes@ == old(graph).nodes@.push(
                Node { data: 0, grad: 0, origin: Some(Op::Tanh(self)) },
            ),
            final(graph).len_spec() == old(graph).len_spec() + 1,
            v.id() == old(graph).len_spec(),
            final(graph).wf(),
            final(graph).extends(*old(graph)),
    {
        Value::with_op(graph, Op::Tanh(self))
    }

    /// Read this node's data payload.
    pub fn data(self, graph: &Graph) -> (d: u64)
        requires
            self.in_graph(*graph),
        ensures
            d == graph.node_at(self.id()).data,
    {
        graph.nodes[self.index].data
    }

    /// Read this node's gradient payload. It is meaningful only after the
    /// caller has carried out a backward plan and before the graph is
    /// rebuilt.
    pub fn grad(self, graph: &Graph) -> (d: u64)
        requires
            self.in_graph(*graph),
        ensures
            d == graph.node_at(self.id()).grad,
    {
        graph.nodes[self.index].grad
    }

    /// Overwrite this node's data payload; used by the caller's evaluation
    /// pass, and to restore saved parameters.
    pub fn set_data(self, graph: &mut Graph, data: u64)
        requires
            old(graph).wf(),
            self.in_graph(*old(graph)),
        ensures
            final(graph).nodes@ == old(graph).nodes@.update(
                self.id(),
                Node { data, ..old(graph).node_at(self.id()) },
            ),
            final(graph).len_spec() == old(graph).len_spec(),
            final(graph).wf(),
    {
        let node = Node { data, ..self.node_copy(graph) };
        self.store_node(graph, node);
    }

    /// Overwrite this node's gradient payload; used by the caller while
    /// carrying out a backward plan.
    pub fn set_grad(self, graph: &mut Graph, grad: u64)
        requires
            old(graph).wf(),
            self.in_graph(*old(graph)),
        ensures
            final(graph).nodes@ == old(graph).nodes@.update(
                self.id(),
                Node { grad, ..old(graph).node_at(self.id()) },
            ),
            final(graph).len_spec() == old(graph).len_spec(),
            final(graph).wf(),
    {
        let node = Node { grad, ..self.node_copy(graph) };
        self.store_node(graph, node);
    }

    /// Copy out this node's slot.
    fn node_copy(self, graph: &Graph) -> (n: Node)
        requires
            self.in_graph(*graph),
        ensures
            n == graph.node_at(self.id()),
    {
        graph.nodes[self.index]
    }

    /// Write back this node's slot, keeping its origin (so well-formedness
    /// is preserved).
    fn store_node(self, graph: &mut Graph, node: Node)
        requires
            old(graph).wf(),
            self.in_graph(*old(graph)),
            node.origin == old(graph).node_at(self.id()).origin,
        ensures
            final(graph).nodes@ == old(graph).nodes@.update(self.id(), node),
            final(graph).wf(),
    {
        self.store_node_raw(graph, node);
        proof {
            assert forall|j: int| 0 <= j < graph.len_spec() implies #[trigger] graph.wf_node(j) by {
                if j != self.id() {
                    assert(graph.node_at(j) == old(graph).node_at(j));
                }
                assert(old(graph).wf_node(j));
            }
        }
    }

    /// Raw slot write.
    fn store_node_raw(self, graph: &mut Graph, node: Node)
        requires
            self.in_graph(*old(graph)),
        ensures
            final(graph).nodes@ == old(graph).nodes@.update(self.id(), node),
    {
        graph.nodes[self.index] = node;
    }

    /// How this node was derived, or `None` for a leaf.
    pub fn origin(self, graph: &Graph) -> (op: Option<Op>)
        requires
            self.in_graph(*graph),
        ensures
            op == graph.node_at(self.id()).origin,
    {
        graph.nodes[self.index].origin
    }

    /// The operand nodes this node was derived from, first operand first;
    /// empty for a leaf.
    pub fn children(self, graph: &Graph) -> (c: Vec<Value>)
        requires
            self.in_graph(*graph),
        ensures
            c@ == graph.children_of(self.id()),
    {
        let c: Vec<Value> = match graph.nodes[self.index].origin {
            None => Vec::new(),
            Some(Op::Add(a, b)) => vec![a, b],
            Some(Op::Neg(a)) => vec![a],
            Some(Op::Mul(a, b)) => vec![a, b],
            Some(Op::Pow { base, exp: _ }) => vec![base],
            Some(Op::Tanh(a)) => vec![a],
        };
        proof {
            assert(c@ =~= graph.children_of(self.id()));
        }
        c
    }
}

} // verus!
