//! What carrying out a backward plan computes.
//!
//! The engine hands the caller a [`BackwardPlan`]; the caller supplies
//! the scalar arithmetic. This module proves that the plan is the chain
//! rule: executed with exact arithmetic — gradients as mathematical
//! integers, the data payloads read through any fixed numeric
//! interpretation, the `Pow` and `Tanh` local-derivative rules through
//! any fixed functions of the operand's data — the root's gradient
//! becomes one, and every other ordered node's gradient becomes the sum,
//! over its consumers (all of which are ordered, and ordered before it),
//! of that consumer's local derivative with respect to the node times
//! the consumer's own gradient. That is reverse-mode differentiation:
//! the analytic derivative of the root with respect to each node,
//! assembled one operand edge at a time, with a node used in several
//! places receiving one contribution per use.
//!
//! The caller's IEEE-754 execution is this ideal execution up to
//! rounding at each accumulation.

use vstd::prelude::*;

use crate::backprop::is_topo_order;
use crate::backprop::node_steps;
use crate::backprop::plan_steps;
use crate::backprop::step_source;
use crate::backprop::step_target;
use crate::backprop::GradStep;
use crate::graph::Graph;
use crate::graph::Op;
use crate::graph::Value;

verus! {

/// The local derivative a step multiplies the consumer's gradient by,
/// with data payloads read through `dval`, and the `Pow` and `Tanh`
/// rules through `powrule(data of the base, exponent payload)` and
/// `tanhrule(data of the operand)`.
pub open spec fn step_local(
    g: Graph,
    dval: spec_fn(u64) -> int,
    powrule: spec_fn(int, u64) -> int,
    tanhrule: spec_fn(int) -> int,
    s: GradStep,
) -> int {
    match s {
        GradStep::Accumulate { .. } => 1,
        GradStep::AccumulateNegated { .. } => -1,
        GradStep::AccumulateScaled { factor, .. } => dval(g.node_at(factor.id()).data),
        GradStep::AccumulatePow { target, exp, .. } => powrule(
            dval(g.node_at(target.id()).data),
            exp,
        ),
        GradStep::AccumulateTanh { target, .. } => tanhrule(dval(g.node_at(target.id()).data)),
    }
}

/// One accumulation, with exact integer arithmetic:
/// `grads[target] += local * grads[source]`.
pub open spec fn apply_step(
    g: Graph,
    dval: spec_fn(u64) -> int,
    powrule: spec_fn(int, u64) -> int,
    tanhrule: spec_fn(int) -> int,
    grads: Seq<int>,
    s: GradStep,
) -> Seq<int> {
    let t = step_target(s).id();
    grads.update(
        t,
        grads[t] + step_local(g, dval, powrule, tanhrule, s) * grads[step_source(s).id()],
    )
}

/// Run a step sequence front to back.
pub open spec fn run_steps(
    g: Graph,
    dval: spec_fn(u64) -> int,
    powrule: spec_fn(int, u64) -> int,
    tanhrule: spec_fn(int) -> int,
    grads: Seq<int>,
    steps: Seq<GradStep>,
) -> Seq<int>
    decreases steps.len(),
{
    if steps.len() == 0 {
        grads
    } else {
        run_steps(
            g,
            dval,
            powrule,
            tanhrule,
            apply_step(g, dval, powrule, tanhrule, grads, steps[0]),
            steps.drop_first(),
        )
    }
}

/// The gradients the plan starts from: one at the root — the derivative
/// of the root with respect to itself — and zero everywhere else.
pub open spec fn seeded_grads(root: Value, n: int) -> Seq<int> {
    Seq::new(n as nat, |i: int| if i == root.id() { 1int } else { 0int })
}

/// The total local derivative of node `v`'s operation with respect to
/// node `x`: one term per operand slot of `v` naming `x`.
pub open spec fn node_contrib(
    g: Graph,
    dval: spec_fn(u64) -> int,
    powrule: spec_fn(int, u64) -> int,
    tanhrule: spec_fn(int) -> int,
    v: Value,
    x: int,
) -> int {
    match g.node_at(v.id()).origin {
        None => 0,
        Some(Op::Add(a, b)) => (if a.id() == x {
            1int
        } else {
            0int
        }) + (if b.id() == x {
            1int
        } else {
            0int
        }),
        Some(Op::Neg(a)) => if a.id() == x {
            -1int
        } else {
            0int
        },
        Some(Op::Mul(a, b)) => (if a.id() == x {
            dval(g.node_at(b.id()).data)
        } else {
            0int
        }) + (if b.id() == x {
            dval(g.node_at(a.id()).data)
        } else {
            0int
        }),
        Some(Op::Pow { base, exp }) => if base.id() == x {
            powrule(dval(g.node_at(base.id()).data), exp)
        } else {
            0int
        },
        Some(Op::Tanh(a)) => if a.id() == x {
            tanhrule(dval(g.node_at(a.id()).data))
        } else {
            0int
        },
    }
}

/// The adjoint of node `order[j]`: its gradient once all of its
/// consumers — which all sit before position `j` — have contributed.
pub open spec fn adjoint_at(
    g: Graph,
    root: Value,
    order: Seq<Value>,
    dval: spec_fn(u64) -> int,
    powrule: spec_fn(int, u64) -> int,
    tanhrule: spec_fn(int) -> int,
    j: int,
) -> int
    decreases j, 1int,
{
    partial_grad(g, root, order, dval, powrule, tanhrule, order[j].id(), j)
}

/// The gradient of node `x` after the first `m` ordered nodes have
/// pushed their contributions: the seed, plus one chain-rule term per
/// operand edge from those nodes into `x`.
pub open spec fn partial_grad(
    g: Graph,
    root: Value,
    order: Seq<Value>,
    dval: spec_fn(u64) -> int,
    powrule: spec_fn(int, u64) -> int,
    tanhrule: spec_fn(int) -> int,
    x: int,
    m: int,
) -> int
    decreases m, 0int,
{
    if m <= 0 {
        if x == root.id() {
            1int
        } else {
            0int
        }
    } else {
        partial_grad(g, root, order, dval, powrule, tanhrule, x, m - 1) + node_contrib(
            g,
            dval,
            powrule,
            tanhrule,
            order[m - 1],
            x,
        ) * adjoint_at(g, root, order, dval, powrule, tanhrule, m - 1)
    }
}

proof fn lemma_run_steps_concat(
    g: Graph,
    dval: spec_fn(u64) -> int,
    powrule: spec_fn(int, u64) -> int,
    tanhrule: spec_fn(int) -> int,
    grads: Seq<int>,
    s1: Seq<GradStep>,
    s2: Seq<GradStep>,
)
    ensures
        run_steps(g, dval, powrule, tanhrule, grads, s1 + s2) == run_steps(
            g,
            dval,
            powrule,
            tanhrule,
            run_steps(g, dval, powrule, tanhrule, grads, s1),
            s2,
        ),
    decreases s1.len(),
{
    if s1.len() == 0 {
        assert(s1 + s2 =~= s2);
    } else {
        assert((s1 + s2).drop_first() =~= s1.drop_first() + s2);
        assert((s1 + s2)[0] == s1[0]);
        lemma_run_steps_concat(
            g,
            dval,
            powrule,
            tanhrule,
            apply_step(g, dval, powrule, tanhrule, grads, s1[0]),
            s1.drop_first(),
            s2,
        );
    }
}

/// Running one node's local-derivative steps bumps every node's
/// gradient by that node's total local derivative times the node's own
/// gradient — which the steps never touch, since no operation names its
/// own result as an operand.
proof fn lemma_run_node_steps(
    g: Graph,
    dval: spec_fn(u64) -> int,
    powrule: spec_fn(int, u64) -> int,
    tanhrule: spec_fn(int) -> int,
    grads: Seq<int>,
    v: Value,
)
    requires
        g.wf(),
        v.in_graph(g),
        grads.len() == g.len_spec(),
    ensures
        run_steps(g, dval, powrule, tanhrule, grads, node_steps(g, v)).len() == grads.len(),
        forall|x: int|
            0 <= x < grads.len() ==> run_steps(g, dval, powrule, tanhrule, grads, node_steps(g, v))[
                x
            ] == grads[x] + node_contrib(g, dval, powrule, tanhrule, v, x) * grads[v.id()],
{
    reveal_with_fuel(run_steps, 4);
    assert(g.wf_node(v.id()));
    let r = run_steps(g, dval, powrule, tanhrule, grads, node_steps(g, v));
    match g.node_at(v.id()).origin {
        None => {
            assert(node_steps(g, v) =~= Seq::<GradStep>::empty());
            assert(r == grads);
        },
        Some(Op::Add(a, b)) => {
            let s1 = GradStep::Accumulate { target: a, source: v };
            let s2 = GradStep::Accumulate { target: b, source: v };
            assert(node_steps(g, v).drop_first() =~= seq![s2]);
            assert(seq![s2].drop_first() =~= Seq::<GradStep>::empty());
            let g1 = apply_step(g, dval, powrule, tanhrule, grads, s1);
            let g2 = apply_step(g, dval, powrule, tanhrule, g1, s2);
            assert(r == g2);
            assert forall|x: int| 0 <= x < grads.len() implies r[x] == grads[x] + node_contrib(
                g,
                dval,
                powrule,
                tanhrule,
                v,
                x,
            ) * grads[v.id()] by {
                assert(g1[v.id()] == grads[v.id()]);
                let e = grads[v.id()];
                let c = node_contrib(g, dval, powrule, tanhrule, v, x);
                if x == a.id() && x == b.id() {
                    assert(r[x] == grads[x] + 2 * e);
                    assert(c == 2);
                    assert(c * e == 2 * e) by (nonlinear_arith)
                        requires
                            c == 2,
                    ;
                } else if x == a.id() || x == b.id() {
                    assert(r[x] == grads[x] + e);
                    assert(c == 1);
                    assert(c * e == e) by (nonlinear_arith)
                        requires
                            c == 1,
                    ;
                } else {
                    assert(r[x] == grads[x]);
                    assert(c == 0);
                    assert(c * e == 0) by (nonlinear_arith)
                        requires
                            c == 0,
                    ;
                }
                assert(r[x] == grads[x] + c * e);
            }
        },
        Some(Op::Neg(a)) => {
            let s1 = GradStep::AccumulateNegated { target: a, source: v };
            assert(node_steps(g, v).drop_first() =~= Seq::<GradStep>::empty());
            assert(run_steps(g, dval, powrule, tanhrule, grads, node_steps(g, v)) == apply_step(
                g,
                dval,
                powrule,
                tanhrule,
                grads,
                s1,
            ));
        },
        Some(Op::Mul(a, b)) => {
            let s1 = GradStep::AccumulateScaled { target: a, source: v, factor: b };
            let s2 = GradStep::AccumulateScaled { target: b, source: v, factor: a };
            assert(node_steps(g, v).drop_first() =~= seq![s2]);
            assert(seq![s2].drop_first() =~= Seq::<GradStep>::empty());
            let g1 = apply_step(g, dval, powrule, tanhrule, grads, s1);
            let g2 = apply_step(g, dval, powrule, tanhrule, g1, s2);
            assert(r == g2);
            assert forall|x: int| 0 <= x < grads.len() implies r[x] == grads[x] + node_contrib(
                g,
                dval,
                powrule,
                tanhrule,
                v,
                x,
            ) * grads[v.id()] by {
                assert(g1[v.id()] == grads[v.id()]);
                let e = grads[v.id()];
                let da = dval(g.node_at(a.id()).data);
                let db = dval(g.node_at(b.id()).data);
                let c = node_contrib(g, dval, powrule, tanhrule, v, x);
                if x == a.id() && x == b.id() {
                    assert(r[x] == grads[x] + db * e + da * e);
                    assert(c == db + da);
                    assert(c * e == db * e + da * e) by (nonlinear_arith)
                        requires
                            c == db + da,
                    ;
                } else if x == a.id() {
                    assert(r[x] == grads[x] + db * e);
                    assert(c == db);
                    assert(c * e == db * e) by (nonlinear_arith)
                        requires
                            c == db,
                    ;
                } else if x == b.id() {
                    assert(r[x] == grads[x] + da * e);
                    assert(c == da);
                    assert(c * e == da * e) by (nonlinear_arith)
                        requires
                            c == da,
                    ;
                } else {
                    assert(r[x] == grads[x]);
                    assert(c == 0);
                    assert(c * e == 0) by (nonlinear_arith)
                        requires
                            c == 0,
                    ;
                }
                assert(r[x] == grads[x] + c * e);
            }
        },
        Some(Op::Pow { base, exp }) => {
            let s1 = GradStep::AccumulatePow { target: base, source: v, exp };
            assert(node_steps(g, v).drop_first() =~= Seq::<GradStep>::empty());
            assert(run_steps(g, dval, powrule, tanhrule, grads, node_steps(g, v)) == apply_step(
                g,
                dval,
                powrule,
                tanhrule,
                grads,
                s1,
            ));
        },
        Some(Op::Tanh(a)) => {
            let s1 = GradStep::AccumulateTanh { target: a, source: v };
            assert(node_steps(g, v).drop_first() =~= Seq::<GradStep>::empty());
            assert(run_steps(g, dval, powrule, tanhrule, grads, node_steps(g, v)) == apply_step(
                g,
                dval,
                powrule,
                tanhrule,
                grads,
                s1,
            ));
        },
    }
}

/// Reverse-mode differentiation is what the plan computes: carried out
/// with exact arithmetic from the seeded gradients, the full step
/// sequence of the order's first `m` nodes leaves every node's gradient
/// at its partial adjoint after `m` consumers — and, once all of a
/// node's consumers have run, at its adjoint.
proof fn lemma_run_prefix(
    g: Graph,
    root: Value,
    order: Seq<Value>,
    dval: spec_fn(u64) -> int,
    powrule: spec_fn(int, u64) -> int,
    tanhrule: spec_fn(int) -> int,
    m: int,
)
    requires
        g.wf(),
        root.in_graph(g),
        is_topo_order(g, root, order),
        0 <= m <= order.len(),
    ensures
        run_steps(
            g,
            dval,
            powrule,
            tanhrule,
            seeded_grads(root, g.len_spec()),
            plan_steps(g, order.take(m)),
        ).len() == g.len_spec(),
        forall|x: int|
            0 <= x < g.len_spec() ==> run_steps(
                g,
                dval,
                powrule,
                tanhrule,
                seeded_grads(root, g.len_spec()),
                plan_steps(g, order.take(m)),
            )[x] == partial_grad(g, root, order, dval, powrule, tanhrule, x, m),
    decreases m,
{
    if m == 0 {
        assert(order.take(0) =~= Seq::<Value>::empty());
    } else {
        lemma_run_prefix(g, root, order, dval, powrule, tanhrule, m - 1);
        let before = run_steps(
            g,
            dval,
            powrule,
            tanhrule,
            seeded_grads(root, g.len_spec()),
            plan_steps(g, order.take(m - 1)),
        );
        let v = order[m - 1];
        assert(v.in_graph(g));
        assert(order.take(m) =~= order.take(m - 1).push(v));
        crate::backprop::lemma_plan_steps_push(g, order.take(m - 1), v);
        assert(plan_steps(g, order.take(m)) == plan_steps(g, order.take(m - 1)) + node_steps(
            g,
            v,
        ));
        lemma_run_steps_concat(
            g,
            dval,
            powrule,
            tanhrule,
            seeded_grads(root, g.len_spec()),
            plan_steps(g, order.take(m - 1)),
            node_steps(g, v),
        );
        let after = run_steps(
            g,
            dval,
            powrule,
            tanhrule,
            seeded_grads(root, g.len_spec()),
            plan_steps(g, order.take(m)),
        );
        assert(after == run_steps(g, dval, powrule, tanhrule, before, node_steps(g, v)));
        lemma_run_node_steps(g, dval, powrule, tanhrule, before, v);
        assert(before[v.id()] == partial_grad(g, root, order, dval, powrule, tanhrule, v.id(), m - 1));
        assert(adjoint_at(g, root, order, dval, powrule, tanhrule, m - 1) == partial_grad(
            g,
            root,
            order,
            dval,
            powrule,
            tanhrule,
            order[m - 1].id(),
            m - 1,
        ));
        assert forall|x: int| 0 <= x < g.len_spec() implies after[x] == partial_grad(
            g,
            root,
            order,
            dval,
            powrule,
            tanhrule,
            x,
            m,
        ) by {
            assert(after[x] == before[x] + node_contrib(g, dval, powrule, tanhrule, v, x)
                * before[v.id()]);
            assert(partial_grad(g, root, order, dval, powrule, tanhrule, x, m) == partial_grad(
                g,
                root,
                order,
                dval,
                powrule,
                tanhrule,
                x,
                m - 1,
            ) + node_contrib(g, dval, powrule, tanhrule, order[m - 1], x) * adjoint_at(
                g,
                root,
                order,
                dval,
                powrule,
                tanhrule,
                m - 1,
            ));
        }
    }
}

/// The backward pass computes the analytic gradients. For any exact
/// reading of the scalar payloads — `dval` interpreting data payloads,
/// `powrule` and `tanhrule` giving the `Pow` and `Tanh` local-derivative
/// values — running a backward plan's steps from the seeded gradients
/// gives every ordered node exactly its reverse-mode adjoint: the root
/// gets one, and node `order[j]` gets the sum over its consumers of the
/// consumer's local derivative times the consumer's adjoint, one term
/// per use. The caller's floating-point execution is this computation
/// with a rounding at each accumulation.
pub proof fn lemma_backward_computes_adjoints(
    g: Graph,
    root: Value,
    order: Seq<Value>,
    dval: spec_fn(u64) -> int,
    powrule: spec_fn(int, u64) -> int,
    tanhrule: spec_fn(int) -> int,
    j: int,
)
    requires
        g.wf(),
        root.in_graph(g),
        is_topo_order(g, root, order),
        0 <= j < order.len(),
    ensures
        run_steps(
            g,
            dval,
            powrule,
            tanhrule,
            seeded_grads(root, g.len_spec()),
            plan_steps(g, order),
        )[order[j].id()] == adjoint_at(g, root, order, dval, powrule, tanhrule, j),
{
    lemma_run_prefix(g, root, order, dval, powrule, tanhrule, order.len() as int);
    assert(order.take(order.len() as int) =~= order);
    lemma_partial_grad_stops_growing(g, root, order, dval, powrule, tanhrule, j, order.len() as int);
}

/// Once position `j` is reached, nothing later contributes to
/// `order[j]`'s gradient: every consumer of a node precedes it in the
/// order, so its partial adjoint is already its adjoint.
proof fn lemma_partial_grad_stops_growing(
    g: Graph,
    root: Value,
    order: Seq<Value>,
    dval: spec_fn(u64) -> int,
    powrule: spec_fn(int, u64) -> int,
    tanhrule: spec_fn(int) -> int,
    j: int,
    m: int,
)
    requires
        g.wf(),
        root.in_graph(g),
        is_topo_order(g, root, order),
        0 <= j < order.len(),
        j <= m <= order.len(),
    ensures
        partial_grad(g, root, order, dval, powrule, tanhrule, order[j].id(), m) == adjoint_at(
            g,
            root,
            order,
            dval,
            powrule,
            tanhrule,
            j,
        ),
    decreases m,
{
    if m > j {
        // order[m - 1] sits at or after position j, so its slot index is
        // at most order[j]'s; its operands sit strictly lower still, so
        // none of them is order[j].
        let v = order[m - 1];
        assert(v.in_graph(g));
        assert(g.wf_node(v.id()));
        if m - 1 > j {
            assert(v.id() < order[j].id());
        }
        assert(node_contrib(g, dval, powrule, tanhrule, v, order[j].id()) == 0);
        lemma_partial_grad_stops_growing(g, root, order, dval, powrule, tanhrule, j, m - 1);
    }
}

} // verus!
