//! The backward pass: reverse-mode differentiation over a [`Graph`].
//!
//! Given a root node, [`Value::topological_sort`] produces an ordering of
//! every node the root reaches, root first, in which every node appears
//! before all of its operands. [`Value::backward`] turns that ordering
//! into a [`BackwardPlan`]: the exact sequence of gradient accumulations
//! that reverse-mode differentiation prescribes, one per operand edge, in
//! consumer-first order. The caller carries the plan out with its scalar
//! arithmetic: zero the gradient payload of every node in the order, set
//! the root's gradient to its unit, then apply the steps front to back.
//!
//! Because every node is visited after all of its consumers, a node's
//! gradient is complete by the time any step reads it; a node used as an
//! operand in several places receives one additive contribution per use.
//!
//! The defensive checks that a pointer-graph implementation would need —
//! that the root is not an operand inside its own closure, and that the
//! traversal visits exactly the discovered nodes — hold structurally here
//! and are proved below ([`lemma_root_never_an_operand`], and the
//! completeness clauses of [`is_topo_order`]).

use vstd::prelude::*;

use crate::graph::Graph;
use crate::graph::Op;
use crate::graph::Value;

verus! {

/// Node `to` is in the closure of node `from`: it can be reached by
/// following operand edges (every node reaches itself).
pub open spec fn reaches(g: Graph, from: int, to: int) -> bool
    decreases from,
{
    from == to || (0 <= from < g.len_spec() && g.wf_node(from) && {
        let cs = g.children_of(from);
        ||| (cs.len() >= 1 && reaches(g, cs[0].id(), to))
        ||| (cs.len() >= 2 && reaches(g, cs[1].id(), to))
    })
}

/// Some element of `s` is a handle to slot `n`.
pub open spec fn seq_contains_id(s: Seq<Value>, n: int) -> bool {
    exists|i: int| 0 <= i < s.len() && (#[trigger] s[i]).id() == n
}

/// What the topological order of `root`'s closure guarantees: it starts
/// at the root, its slot indices are strictly decreasing (so every node
/// precedes all of its operands, and no node appears twice), and it
/// consists of exactly the nodes the root reaches.
pub open spec fn is_topo_order(g: Graph, root: Value, order: Seq<Value>) -> bool {
    &&& order.len() >= 1
    &&& order[0] == root
    &&& forall|i: int, j: int|
        0 <= i < j < order.len() ==> #[trigger] order[i].id() > #[trigger] order[j].id()
    &&& forall|i: int|
        0 <= i < order.len() ==> (#[trigger] order[i]).in_graph(g) && reaches(
            g,
            root.id(),
            order[i].id(),
        )
    &&& forall|n: int|
        0 <= n < g.len_spec() && #[trigger] reaches(g, root.id(), n) ==> seq_contains_id(order, n)
}

/// Operand edges only point to strictly smaller slots, so anything a node
/// reaches sits at or below it.
pub proof fn lemma_reaches_le(g: Graph, a: int, b: int)
    requires
        reaches(g, a, b),
    ensures
        b <= a,
    decreases a,
{
    if a != b {
        let cs = g.children_of(a);
        if cs.len() >= 1 && reaches(g, cs[0].id(), b) {
            lemma_reaches_le(g, cs[0].id(), b);
        } else {
            lemma_reaches_le(g, cs[1].id(), b);
        }
    }
}

/// The closure is closed under operand edges: whatever reaches `b` also
/// reaches each operand of `b`.
pub proof fn lemma_reaches_child(g: Graph, a: int, b: int, k: int)
    requires
        g.wf(),
        reaches(g, a, b),
        0 <= b < g.len_spec(),
        0 <= k < g.children_of(b).len(),
    ensures
        reaches(g, a, g.children_of(b)[k].id()),
    decreases a,
{
    let c = g.children_of(b)[k].id();
    if a == b {
        assert(g.wf_node(b));
        assert(reaches(g, c, c));
        assert(reaches(g, b, c));
    } else {
        let cs = g.children_of(a);
        if cs.len() >= 1 && reaches(g, cs[0].id(), b) {
            lemma_reaches_child(g, cs[0].id(), b, k);
        } else {
            lemma_reaches_child(g, cs[1].id(), b, k);
        }
        assert(reaches(g, a, c));
    }
}

/// A marking that contains `a` and is closed under the operand edges of
/// every marked node above `b` must contain everything `a` reaches down
/// to `b` — in particular `b` itself.
proof fn lemma_closed_marking_contains(g: Graph, marked: Seq<bool>, a: int, b: int)
    requires
        g.wf(),
        marked.len() == g.len_spec(),
        0 <= a < g.len_spec(),
        marked[a],
        reaches(g, a, b),
        forall|m: int, k: int|
            0 <= m < g.len_spec() && marked[m] && m > b && 0 <= k < g.children_of(m).len()
                ==> marked[#[trigger] g.children_of(m)[k].id()],
    ensures
        0 <= b && marked[b],
    decreases a,
{
    if a != b {
        let cs = g.children_of(a);
        assert(g.wf_node(a));
        let c: int = if cs.len() >= 1 && reaches(g, cs[0].id(), b) {
            cs[0].id()
        } else {
            cs[1].id()
        };
        lemma_reaches_le(g, c, b);
        assert(marked[c]);
        lemma_closed_marking_contains(g, marked, c, b);
    }
}

/// The defensive in-degree check of a pointer-graph implementation,
/// proved instead: the root of a backward pass is never an operand of any
/// node inside its own closure, because operand edges strictly descend.
pub proof fn lemma_root_never_an_operand(g: Graph, root: Value, p: int, k: int)
    requires
        g.wf(),
        root.in_graph(g),
        reaches(g, root.id(), p),
        0 <= p < g.len_spec(),
        0 <= k < g.children_of(p).len(),
    ensures
        g.children_of(p)[k].id() != root.id(),
{
    lemma_reaches_le(g, root.id(), p);
    assert(g.wf_node(p));
}

/// Mark every operand of `v`.
fn mark_children(graph: &Graph, v: Value, marked: &mut Vec<bool>)
    requires
        graph.wf(),
        v.in_graph(*graph),
        old(marked).len() == graph.len_spec(),
    ensures
        final(marked)@.len() == old(marked)@.len(),
        forall|n: int| 0 <= n < old(marked)@.len() && old(marked)@[n] ==> final(marked)@[n],
        forall|k: int|
            0 <= k < graph.children_of(v.id()).len() ==> final(marked)@[#[trigger] graph.children_of(
                v.id(),
            )[k].id()],
        forall|n: int|
            0 <= n < final(marked)@.len() && final(marked)@[n] ==> old(marked)@[n]
                || seq_contains_id(graph.children_of(v.id()), n),
{
    proof {
        assert(graph.wf_node(v.id()));
    }
    match graph.nodes[v.index].origin {
        None => {
        },
        Some(Op::Add(a, b)) => {
            marked[a.index] = true;
            marked[b.index] = true;
            proof {
                assert(graph.children_of(v.id())[0] == a);
                assert(graph.children_of(v.id())[1] == b);
            }
        },
        Some(Op::Neg(a)) => {
            marked[a.index] = true;
            proof {
                assert(graph.children_of(v.id())[0] == a);
            }
        },
        Some(Op::Mul(a, b)) => {
            marked[a.index] = true;
            marked[b.index] = true;
            proof {
                assert(graph.children_of(v.id())[0] == a);
                assert(graph.children_of(v.id())[1] == b);
            }
        },
        Some(Op::Pow { base, exp: _ }) => {
            marked[base.index] = true;
            proof {
                assert(graph.children_of(v.id())[0] == base);
            }
        },
        Some(Op::Tanh(a)) => {
            marked[a.index] = true;
            proof {
                assert(graph.children_of(v.id())[0] == a);
            }
        },
    }
}

impl Value {
    /// Order the closure of `self` for backpropagation: `self` first,
    /// slot indices strictly decreasing, every reachable node exactly
    /// once. Every node therefore appears before all of its operands, so
    /// walking the order front to back visits each node only after all of
    /// its consumers.
    ///
    /// A single descending scan computes this: operand edges point to
    /// strictly smaller slots, so by the time the scan arrives at a slot,
    /// every node that could reach it has already been examined.
    pub fn topological_sort(self, graph: &Graph) -> (order: Vec<Value>)
        requires
            graph.wf(),
            self.in_graph(*graph),
        ensures
            is_topo_order(*graph, self, order@),
    {
        let glen = graph.len();
        let mut marked: Vec<bool> = Vec::new();
        while marked.len() < glen
            invariant
                marked@.len() <= glen as int,
                forall|n: int| 0 <= n < marked@.len() ==> !(#[trigger] marked@[n]),
            decreases glen - marked.len(),
        {
            marked.push(false);
        }
        marked[self.index] = true;
        let mut order: Vec<Value> = Vec::new();
        let mut i: usize = self.index + 1;
        proof {
            assert forall|n: int|
                i as int <= n < marked@.len() && #[trigger] reaches(*graph, self.id(), n) implies
            marked@[n] by {
                lemma_reaches_le(*graph, self.id(), n);
            }
        }
        while i > 0
            invariant
                graph.wf(),
                self.in_graph(*graph),
                marked@.len() == graph.len_spec(),
                i as int <= self.id() + 1,
                marked@[self.id()],
                forall|n: int|
                    0 <= n < marked@.len() && #[trigger] marked@[n] ==> n <= self.id() && reaches(
                        *graph,
                        self.id(),
                        n,
                    ),
                forall|m: int, k: int|
                    i as int <= m < marked@.len() && marked@[m] && 0 <= k < graph.children_of(
                        m,
                    ).len() ==> marked@[#[trigger] graph.children_of(m)[k].id()],
                forall|n: int|
                    i as int <= n < marked@.len() && #[trigger] reaches(*graph, self.id(), n)
                        ==> marked@[n],
                forall|t: int|
                    0 <= t < order@.len() ==> (#[trigger] order@[t]).in_graph(*graph) && i as int
                        <= order@[t].id() <= self.id() && marked@[order@[t].id()],
                forall|t1: int, t2: int|
                    0 <= t1 < t2 < order@.len() ==> #[trigger] order@[t1].id()
                        > #[trigger] order@[t2].id(),
                forall|n: int|
                    i as int <= n < marked@.len() && #[trigger] marked@[n] ==> seq_contains_id(
                        order@,
                        n,
                    ),
                i as int <= self.id() ==> order@.len() >= 1 && order@[0] == self,
            decreases i,
        {
            i -= 1;
            let ghost prev_marked = marked@;
            let ghost prev_order = order@;
            if marked[i] {
                let v = Value { index: i };
                order.push(v);
                mark_children(graph, v, &mut marked);
                proof {
                    assert(v.id() == i as int);
                    // Newly marked nodes are operands of slot i, hence reachable
                    // and at smaller indices.
                    assert forall|n: int|
                        0 <= n < marked@.len() && #[trigger] marked@[n] implies n <= self.id()
                        && reaches(*graph, self.id(), n) by {
                        if !prev_marked[n] {
                            let k = choose|k: int|
                                0 <= k < graph.children_of(i as int).len()
                                    && #[trigger] graph.children_of(i as int)[k].id() == n;
                            lemma_reaches_child(*graph, self.id(), i as int, k);
                            lemma_reaches_le(*graph, self.id(), n);
                        }
                    }
                    // Every processed marked slot still has all operands marked.
                    assert forall|m: int, k: int|
                        i as int <= m < marked@.len() && marked@[m] && 0 <= k < graph.children_of(
                            m,
                        ).len() implies marked@[#[trigger] graph.children_of(m)[k].id()] by {
                        assert(graph.wf_node(m));
                        if m == i as int {
                            assert(marked@[graph.children_of(v.id())[k].id()]);
                        } else {
                            if !prev_marked[m] {
                                let t = choose|t: int|
                                    0 <= t < graph.children_of(i as int).len()
                                        && #[trigger] graph.children_of(i as int)[t].id() == m;
                                assert(graph.wf_node(i as int));
                                assert(false);
                            }
                            assert(prev_marked[graph.children_of(m)[k].id()]);
                        }
                    }
                    // Order stays strictly descending and complete for marked
                    // slots at or above i.
                    assert forall|n: int|
                        i as int <= n < marked@.len() && #[trigger] marked@[n] implies
                        seq_contains_id(order@, n) by {
                        if n == i as int {
                            assert(order@[order@.len() - 1].id() == n);
                        } else {
                            assert(prev_marked[n] || seq_contains_id(
                                graph.children_of(i as int),
                                n,
                            ));
                            if seq_contains_id(graph.children_of(i as int), n) {
                                let k = choose|k: int|
                                    0 <= k < graph.children_of(i as int).len()
                                        && #[trigger] graph.children_of(i as int)[k].id() == n;
                                assert(graph.wf_node(i as int));
                                assert(n < i as int);
                            }
                            assert(seq_contains_id(prev_order, n));
                            let t = choose|t: int|
                                0 <= t < prev_order.len() && (#[trigger] prev_order[t]).id() == n;
                            assert(order@[t].id() == n);
                        }
                    }
                }
            } else {
                proof {
                    if reaches(*graph, self.id(), i as int) {
                        lemma_closed_marking_contains(
                            *graph,
                            marked@,
                            self.id(),
                            i as int,
                        );
                    }
                }
            }
        }
        order
    }
}

/// One gradient accumulation of the backward pass. `source` is the node
/// whose operation the step comes from (the consumer); `target` is the
/// operand receiving the contribution. Writing `grad[v]` and `data[v]`
/// for the caller's numeric reading of the payloads of node `v`, the
/// steps mean:
///
/// - `Accumulate`: `grad[target] += grad[source]`
/// - `AccumulateNegated`: `grad[target] += -grad[source]`
/// - `AccumulateScaled`: `grad[target] += grad[source] * data[factor]`
/// - `AccumulatePow`: `grad[target] += grad[source] * exp * data[target]
///   ^ (exp - 1)` — assumes a positive base when `exp` is not an integer
/// - `AccumulateTanh`: `grad[target] += grad[source] * (1 - tanh(
///   data[target]) ^ 2)`
#[derive(Clone, Copy, PartialEq, Eq, Structural, Debug)]
pub enum GradStep {
    Accumulate { target: Value, source: Value },
    AccumulateNegated { target: Value, source: Value },
    AccumulateScaled { target: Value, source: Value, factor: Value },
    AccumulatePow { target: Value, source: Value, exp: u64 },
    AccumulateTanh { target: Value, source: Value },
}

/// The node receiving a step's contribution.
pub open spec fn step_target(s: GradStep) -> Value {
    match s {
        GradStep::Accumulate { target, .. } => target,
        GradStep::AccumulateNegated { target, .. } => target,
        GradStep::AccumulateScaled { target, .. } => target,
        GradStep::AccumulatePow { target, .. } => target,
        GradStep::AccumulateTanh { target, .. } => target,
    }
}

/// The node whose gradient a step reads.
pub open spec fn step_source(s: GradStep) -> Value {
    match s {
        GradStep::Accumulate { source, .. } => source,
        GradStep::AccumulateNegated { source, .. } => source,
        GradStep::AccumulateScaled { source, .. } => source,
        GradStep::AccumulatePow { source, .. } => source,
        GradStep::AccumulateTanh { source, .. } => source,
    }
}

/// The node whose data a `AccumulateScaled` step reads besides its
/// target, if any.
pub open spec fn step_factor(s: GradStep) -> Option<Value> {
    match s {
        GradStep::AccumulateScaled { factor, .. } => Some(factor),
        _ => None,
    }
}

/// The local-derivative steps one node contributes: one accumulation per
/// operand edge, exactly the chain rule for its operation.
pub open spec fn node_steps(g: Graph, v: Value) -> Seq<GradStep> {
    match g.node_at(v.id()).origin {
        None => seq![],
        Some(Op::Add(a, b)) => seq![
            GradStep::Accumulate { target: a, source: v },
            GradStep::Accumulate { target: b, source: v },
        ],
        Some(Op::Neg(a)) => seq![GradStep::AccumulateNegated { target: a, source: v }],
        Some(Op::Mul(a, b)) => seq![
            GradStep::AccumulateScaled { target: a, source: v, factor: b },
            GradStep::AccumulateScaled { target: b, source: v, factor: a },
        ],
        Some(Op::Pow { base, exp }) => seq![
            GradStep::AccumulatePow { target: base, source: v, exp },
        ],
        Some(Op::Tanh(a)) => seq![GradStep::AccumulateTanh { target: a, source: v }],
    }
}

/// The full step sequence of a backward pass: the concatenation of each
/// ordered node's local-derivative steps, in order.
pub open spec fn plan_steps(g: Graph, order: Seq<Value>) -> Seq<GradStep>
    decreases order.len(),
{
    if order.len() == 0 {
        seq![]
    } else {
        node_steps(g, order[0]) + plan_steps(g, order.drop_first())
    }
}

/// Appending a node to the order appends exactly its local steps.
pub proof fn lemma_plan_steps_push(g: Graph, s: Seq<Value>, v: Value)
    ensures
        plan_steps(g, s.push(v)) == plan_steps(g, s) + node_steps(g, v),
    decreases s.len(),
{
    if s.len() == 0 {
        assert(s.push(v).drop_first() =~= s);
        assert(s.push(v)[0] == v);
        assert(plan_steps(g, s.push(v)) =~= plan_steps(g, s) + node_steps(g, v));
    } else {
        assert(s.push(v).drop_first() =~= s.drop_first().push(v));
        lemma_plan_steps_push(g, s.drop_first(), v);
        assert(s.push(v)[0] == s[0]);
        assert(plan_steps(g, s.push(v)) == node_steps(g, s[0]) + (plan_steps(g, s.drop_first())
            + node_steps(g, v)));
        assert(plan_steps(g, s) == node_steps(g, s[0]) + plan_steps(g, s.drop_first()));
        assert(node_steps(g, s[0]) + (plan_steps(g, s.drop_first()) + node_steps(g, v)) =~= (
        node_steps(g, s[0]) + plan_steps(g, s.drop_first())) + node_steps(g, v));
    }
}

/// The backward pass, as data: the topological order whose gradients the
/// caller must zero (root first; the root then receives the unit
/// gradient, the derivative of the root with respect to itself), and the
/// accumulation steps to apply front to back.
pub struct BackwardPlan {
    pub order: Vec<Value>,
    pub steps: Vec<GradStep>,
}

impl Value {
    /// Plan reverse-mode differentiation from this node: order the
    /// closure topologically and lay out one accumulation step per
    /// operand edge, consumers first.
    ///
    /// The caller carries the plan out with its scalar arithmetic: zero
    /// `grad` for every node of `plan.order`, set this node's `grad` to
    /// the unit payload, then apply each step of `plan.steps` in order as
    /// documented on [`GradStep`]. Because every node comes after all of
    /// its consumers, each `grad` a step reads is already complete, and a
    /// node used as an operand in several places accumulates one
    /// contribution per use.
    pub fn backward(self, graph: &Graph) -> (plan: BackwardPlan)
        requires
            graph.wf(),
            self.in_graph(*graph),
        ensures
            is_topo_order(*graph, self, plan.order@),
            plan.steps@ == plan_steps(*graph, plan.order@),
    {
        let order = self.topological_sort(graph);
        let mut steps: Vec<GradStep> = Vec::new();
        let mut t: usize = 0;
        proof {
            assert(order@.take(0) =~= seq![]);
        }
        while t < order.len()
            invariant
                graph.wf(),
                is_topo_order(*graph, self, order@),
                t <= order@.len(),
                steps@ == plan_steps(*graph, order@.take(t as int)),
            decreases order@.len() - t,
        {
            let v = order[t];
            proof {
                assert(order@[t as int].in_graph(*graph));
            }
            match v.origin(graph) {
                None => {
                },
                Some(Op::Add(a, b)) => {
                    steps.push(GradStep::Accumulate { target: a, source: v });
                    steps.push(GradStep::Accumulate { target: b, source: v });
                },
                Some(Op::Neg(a)) => {
                    steps.push(GradStep::AccumulateNegated { target: a, source: v });
                },
                Some(Op::Mul(a, b)) => {
                    steps.push(GradStep::AccumulateScaled { target: a, source: v, factor: b });
                    steps.push(GradStep::AccumulateScaled { target: b, source: v, factor: a });
                },
                Some(Op::Pow { base, exp }) => {
                    steps.push(GradStep::AccumulatePow { target: base, source: v, exp });
                },
                Some(Op::Tanh(a)) => {
                    steps.push(GradStep::AccumulateTanh { target: a, source: v });
                },
            }
            proof {
                lemma_plan_steps_push(*graph, order@.take(t as int), v);
                assert(order@.take(t as int).push(v) =~= order@.take(t as int + 1));
                assert(steps@ =~= plan_steps(*graph, order@.take(t as int))
                    + node_steps(*graph, v));
            }
            t += 1;
        }
        proof {
            assert(order@.take(order@.len() as int) =~= order@);
        }
        BackwardPlan { order, steps }
    }
}

/// How many steps of `steps` accumulate into the node `x`.
pub open spec fn steps_into(steps: Seq<GradStep>, x: Value) -> int
    decreases steps.len(),
{
    if steps.len() == 0 {
        0
    } else {
        (if step_target(steps[0]).id() == x.id() {
            1int
        } else {
            0int
        }) + steps_into(steps.drop_first(), x)
    }
}

/// How many of the operand slots of node `v` name the node `x`.
pub open spec fn uses_by(g: Graph, v: Value, x: Value) -> int {
    let cs = g.children_of(v.id());
    (if cs.len() >= 1 && cs[0].id() == x.id() {
        1int
    } else {
        0int
    }) + (if cs.len() >= 2 && cs[1].id() == x.id() {
        1int
    } else {
        0int
    })
}

/// Total number of operand edges into `x` from the nodes of `order`.
pub open spec fn uses_in(g: Graph, order: Seq<Value>, x: Value) -> int
    decreases order.len(),
{
    if order.len() == 0 {
        0
    } else {
        uses_by(g, order[0], x) + uses_in(g, order.drop_first(), x)
    }
}

proof fn lemma_steps_into_add(s1: Seq<GradStep>, s2: Seq<GradStep>, x: Value)
    ensures
        steps_into(s1 + s2, x) == steps_into(s1, x) + steps_into(s2, x),
    decreases s1.len(),
{
    if s1.len() == 0 {
        assert(s1 + s2 =~= s2);
    } else {
        assert((s1 + s2).drop_first() =~= s1.drop_first() + s2);
        assert((s1 + s2)[0] == s1[0]);
        lemma_steps_into_add(s1.drop_first(), s2, x);
    }
}

proof fn lemma_node_steps_into(g: Graph, v: Value, x: Value)
    ensures
        steps_into(node_steps(g, v), x) == uses_by(g, v, x),
{
    reveal_with_fuel(steps_into, 4);
    match g.node_at(v.id()).origin {
        None => {
        },
        Some(Op::Add(a, b)) => {
            assert(g.children_of(v.id())[0] == a);
            assert(g.children_of(v.id())[1] == b);
            assert(node_steps(g, v).drop_first() =~= seq![
                GradStep::Accumulate { target: b, source: v },
            ]);
            assert(node_steps(g, v).drop_first().drop_first() =~= Seq::<GradStep>::empty());
        },
        Some(Op::Neg(a)) => {
            assert(g.children_of(v.id())[0] == a);
            assert(node_steps(g, v).drop_first() =~= Seq::<GradStep>::empty());
        },
        Some(Op::Mul(a, b)) => {
            assert(g.children_of(v.id())[0] == a);
            assert(g.children_of(v.id())[1] == b);
            assert(node_steps(g, v).drop_first() =~= seq![
                GradStep::AccumulateScaled { target: b, source: v, factor: a },
            ]);
            assert(node_steps(g, v).drop_first().drop_first() =~= Seq::<GradStep>::empty());
        },
        Some(Op::Pow { base, exp: _ }) => {
            assert(g.children_of(v.id())[0] == base);
            assert(node_steps(g, v).drop_first() =~= Seq::<GradStep>::empty());
        },
        Some(Op::Tanh(a)) => {
            assert(g.children_of(v.id())[0] == a);
            assert(node_steps(g, v).drop_first() =~= Seq::<GradStep>::empty());
        },
    }
}

/// Fan-in accumulation: a backward plan contains exactly one
/// accumulation step into a node for every place the node is used as an
/// operand. A node used in two or more places therefore receives, when
/// the caller carries out the plan, the sum of one local contribution per
/// use — never a duplicate and never a dropped term.
pub proof fn lemma_fan_in_accumulation(g: Graph, order: Seq<Value>, x: Value)
    ensures
        steps_into(plan_steps(g, order), x) == uses_in(g, order, x),
    decreases order.len(),
{
    if order.len() == 0 {
        assert(steps_into(plan_steps(g, order), x) == 0);
    } else {
        lemma_steps_into_add(
            node_steps(g, order[0]),
            plan_steps(g, order.drop_first()),
            x,
        );
        lemma_node_steps_into(g, order[0], x);
        lemma_fan_in_accumulation(g, order.drop_first(), x);
        assert(plan_steps(g, order) == node_steps(g, order[0]) + plan_steps(
            g,
            order.drop_first(),
        ));
    }
}

/// Every node a backward plan touches — the target, the source, and the
/// scaling factor of every step — lies inside the plan's own order. The
/// caller zeroes exactly the gradients of the order before applying the
/// steps, so the pass never reads a stale gradient and never writes
/// outside the root's closure.
pub proof fn lemma_plan_self_contained(
    g: Graph,
    root: Value,
    order: Seq<Value>,
    j: int,
    k: int,
)
    requires
        g.wf(),
        root.in_graph(g),
        is_topo_order(g, root, order),
        0 <= j < order.len(),
        0 <= k < node_steps(g, order[j]).len(),
    ensures
        step_source(node_steps(g, order[j])[k]) == order[j],
        seq_contains_id(order, step_target(node_steps(g, order[j])[k]).id()),
        forall|f: Value|
            step_factor(node_steps(g, order[j])[k]) == Some(f) ==> seq_contains_id(
                order,
                f.id(),
            ),
{
    let v = order[j];
    assert(v.in_graph(g) && reaches(g, root.id(), v.id()));
    match g.node_at(v.id()).origin {
        None => {
        },
        Some(Op::Add(a, b)) => {
            assert(g.children_of(v.id())[0] == a);
            assert(g.children_of(v.id())[1] == b);
            lemma_reaches_child(g, root.id(), v.id(), 0);
            lemma_reaches_child(g, root.id(), v.id(), 1);
            assert(g.wf_node(v.id()));
        },
        Some(Op::Neg(a)) => {
            assert(g.children_of(v.id())[0] == a);
            lemma_reaches_child(g, root.id(), v.id(), 0);
            assert(g.wf_node(v.id()));
        },
        Some(Op::Mul(a, b)) => {
            assert(g.children_of(v.id())[0] == a);
            assert(g.children_of(v.id())[1] == b);
            lemma_reaches_child(g, root.id(), v.id(), 0);
            lemma_reaches_child(g, root.id(), v.id(), 1);
            assert(g.wf_node(v.id()));
        },
        Some(Op::Pow { base, exp: _ }) => {
            assert(g.children_of(v.id())[0] == base);
            lemma_reaches_child(g, root.id(), v.id(), 0);
            assert(g.wf_node(v.id()));
        },
        Some(Op::Tanh(a)) => {
            assert(g.children_of(v.id())[0] == a);
            lemma_reaches_child(g, root.id(), v.id(), 0);
            assert(g.wf_node(v.id()));
        },
    }
}

proof fn lemma_descending_unique(o1: Seq<Value>, o2: Seq<Value>)
    requires
        forall|i: int, j: int| 0 <= i < j < o1.len() ==> #[trigger] o1[i].id() > #[trigger] o1[j].id(),
        forall|i: int, j: int| 0 <= i < j < o2.len() ==> #[trigger] o2[i].id() > #[trigger] o2[j].id(),
        forall|n: int| seq_contains_id(o1, n) <==> seq_contains_id(o2, n),
    ensures
        o1 == o2,
    decreases o1.len(),
{
    if o1.len() == 0 {
        if o2.len() > 0 {
            assert(seq_contains_id(o2, o2[0].id()));
            assert(seq_contains_id(o1, o2[0].id()));
            assert(false);
        }
        assert(o1 =~= o2);
    } else {
        assert(seq_contains_id(o1, o1[0].id()));
        assert(seq_contains_id(o2, o1[0].id()));
        let t = choose|t: int| 0 <= t < o2.len() && (#[trigger] o2[t]).id() == o1[0].id();
        if t > 0 {
            assert(seq_contains_id(o2, o2[0].id()));
            assert(seq_contains_id(o1, o2[0].id()));
            let s = choose|s: int| 0 <= s < o1.len() && (#[trigger] o1[s]).id() == o2[0].id();
            assert(false);
        }
        assert(o1[0] == o2[0]);
        let t1 = o1.drop_first();
        let t2 = o2.drop_first();
        assert forall|n: int| seq_contains_id(t1, n) implies seq_contains_id(t2, n) by {
            let s = choose|s: int| 0 <= s < t1.len() && (#[trigger] t1[s]).id() == n;
            assert(o1[s + 1].id() == n);
            assert(seq_contains_id(o1, n));
            assert(seq_contains_id(o2, n));
            let u = choose|u: int| 0 <= u < o2.len() && (#[trigger] o2[u]).id() == n;
            assert(n < o1[0].id());
            assert(u > 0);
            assert(t2[u - 1].id() == n);
        }
        assert forall|n: int| seq_contains_id(t2, n) implies seq_contains_id(t1, n) by {
            let s = choose|s: int| 0 <= s < t2.len() && (#[trigger] t2[s]).id() == n;
            assert(o2[s + 1].id() == n);
            assert(seq_contains_id(o2, n));
            assert(seq_contains_id(o1, n));
            let u = choose|u: int| 0 <= u < o1.len() && (#[trigger] o1[u]).id() == n;
            assert(n < o2[0].id());
            assert(u > 0);
            assert(t1[u - 1].id() == n);
        }
        lemma_descending_unique(t1, t2);
        assert forall|i: int| 0 < i < o1.len() implies o1[i] == o2[i] by {
            assert(t1[i - 1] == o1[i]);
            assert(t2[i - 1] == o2[i]);
        }
        assert(o1 =~= o2);
    }
}

/// Backpropagation is a pure function of the graph: running it twice
/// over freshly reconstructed identical graphs yields the same order and
/// the same steps. Together with [`lemma_plan_self_contained`] — the pass
/// first zeroes every gradient it later reads — carrying the two plans
/// out from the same data payloads yields identical gradients both
/// times; no state from an earlier pass can leak in.
pub proof fn lemma_backward_deterministic(
    g1: Graph,
    g2: Graph,
    root: Value,
    o1: Seq<Value>,
    o2: Seq<Value>,
)
    requires
        g1.wf(),
        root.in_graph(g1),
        g2 == g1,
        is_topo_order(g1, root, o1),
        is_topo_order(g2, root, o2),
    ensures
        o1 == o2,
        plan_steps(g1, o1) == plan_steps(g2, o2),
{
    assert forall|n: int| seq_contains_id(o1, n) implies seq_contains_id(o2, n) by {
        let s = choose|s: int| 0 <= s < o1.len() && (#[trigger] o1[s]).id() == n;
        assert(reaches(g1, root.id(), o1[s].id()));
        assert(o1[s].in_graph(g1));
    }
    assert forall|n: int| seq_contains_id(o2, n) implies seq_contains_id(o1, n) by {
        let s = choose|s: int| 0 <= s < o2.len() && (#[trigger] o2[s]).id() == n;
        assert(reaches(g1, root.id(), o2[s].id()));
        assert(o2[s].in_graph(g1));
    }
    lemma_descending_unique(o1, o2);
}

} // verus!
