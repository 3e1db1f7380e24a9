//! Training support: the example type, the random mini-batch sampler,
//! and the loss-aggregation chain.
//!
//! One gradient-descent iteration runs as follows. The caller builds a
//! fresh [`Graph`], binds the model's parameters once, runs the forward
//! pass per example of the batch (every pass sharing the parameter
//! leaves), builds each example's loss node over the outputs, sums the
//! losses with [`sum_values`], evaluates the graph, carries out the
//! backward plan of the average loss, and updates each parameter payload
//! from the gradient at its bound leaf. The mini-batch variant draws the
//! batch with [`sample_indices`]: independent uniform draws with
//! replacement, one fresh sample per iteration.

use rand::RngExt;
use vstd::prelude::*;

use crate::graph::Graph;
use crate::graph::Op;
use crate::graph::Value;

verus! {

/// One training example: a fixed-length input vector and a fixed-length
/// expected-output vector (one-hot for classification), both as scalar
/// payloads.
pub struct TrainingData {
    pub input: Vec<u64>,
    pub expected_output: Vec<u64>,
}

impl TrainingData {
    /// Pair an input vector with its expected output.
    pub fn new(input: Vec<u64>, expected_output: Vec<u64>) -> (d: TrainingData)
        ensures
            d.input == input,
            d.expected_output == expected_output,
    {
        TrainingData { input, expected_output }
    }
}

} // verus!

verus! {

#[verifier::external_type_specification]
#[verifier::external_body]
pub struct ExThreadRng(rand::rngs::ThreadRng);

/// Relies on rand::rng: a handle to the thread-local generator. It can
/// fail only if the operating system's randomness source fails at first
/// seeding; nothing is assumed of it here.
#[verifier::external_body]
fn thread_rng() -> rand::rngs::ThreadRng {
    rand::rng()
}

/// Relies on rand::RngExt::random_range over `0..len`: it panics on an
/// empty range and otherwise returns a uniformly drawn value of the
/// range, so the result is strictly below `len`. Being random, nothing
/// relates two calls.
#[verifier::external_body]
fn draw_index(rng: &mut rand::rngs::ThreadRng, len: usize) -> (r: usize)
    requires
        len > 0,
    ensures
        r < len,
{
    rng.random_range(0..len)
}

/// Draw a mini-batch of example indices: `batch_size` independent
/// uniform draws, with replacement, from `0..len`.
pub fn sample_indices(len: usize, batch_size: usize) -> (ids: Vec<usize>)
    requires
        len > 0,
    ensures
        ids@.len() == batch_size,
        forall|t: int| 0 <= t < ids@.len() ==> #[trigger] ids@[t] < len,
{
    let mut rng = thread_rng();
    let mut ids: Vec<usize> = Vec::new();
    let mut k: usize = 0;
    while k < batch_size
        invariant
            k <= batch_size,
            ids@.len() == k,
            forall|t: int| 0 <= t < ids@.len() ==> #[trigger] ids@[t] < len,
            len > 0,
        decreases batch_size - k,
    {
        let i = draw_index(&mut rng, len);
        ids.push(i);
        k += 1;
    }
    ids
}

/// Build the batch's forward passes in one graph: bind the model's
/// parameters once, then wrap each example's inputs as leaves and run
/// the forward pass over the shared binding. Every example's pass reads
/// the same parameter leaves, so one backward pass over a summed loss
/// accumulates each parameter's gradient across the whole batch; the
/// returned binding pairs gradient handles with parameter positions.
pub fn batch_forward(
    graph: &mut Graph,
    model: &crate::model::MultiLayerPerceptron,
    batch: &Vec<TrainingData>,
    num_inputs: usize,
) -> (r: (Vec<Value>, Vec<Vec<Value>>))
    requires
        old(graph).wf(),
        model.wf(num_inputs as int),
        forall|e: int|
            0 <= e < batch@.len() ==> (#[trigger] batch@[e]).input@.len() == num_inputs,
    ensures
        final(graph).wf(),
        final(graph).extends(*old(graph)),
        r.0@.len() == model.params_spec().len(),
        forall|k: int|
            0 <= k < r.0@.len() ==> (#[trigger] r.0@[k]).in_graph(*final(graph))
                && final(graph).node_at(r.0@[k].id()).data == model.params_spec()[k]
                && final(graph).node_at(r.0@[k].id()).origin is None,
        r.1@.len() == batch@.len(),
        forall|e: int|
            0 <= e < r.1@.len() ==> (#[trigger] r.1@[e])@.len() == model.output_width(
                num_inputs as int,
            ),
        forall|e: int, t: int|
            0 <= e < r.1@.len() && 0 <= t < r.1@[e]@.len() ==> (#[trigger] r.1@[e]@[t]).in_graph(
                *final(graph),
            ),
{
    proof {
        crate::model::lemma_parameter_count(*model, num_inputs as int);
    }
    let ghost g0 = *graph;
    let bound = model.bind(graph);
    let ghost g1 = *graph;
    let mut outputs: Vec<Vec<Value>> = Vec::new();
    let mut e: usize = 0;
    while e < batch.len()
        invariant
            graph.wf(),
            graph.extends(g1),
            g1.extends(g0),
            model.wf(num_inputs as int),
            bound@.len() == model.params_spec().len(),
            bound@.len() == crate::model::param_count_spec(num_inputs as int, model.widths()),
            forall|k: int|
                0 <= k < bound@.len() ==> (#[trigger] bound@[k]).in_graph(g1) && g1.node_at(
                    bound@[k].id(),
                ).data == model.params_spec()[k] && g1.node_at(bound@[k].id()).origin is None,
            forall|q: int|
                0 <= q < batch@.len() ==> (#[trigger] batch@[q]).input@.len() == num_inputs,
            e <= batch@.len(),
            outputs@.len() == e,
            forall|q: int|
                0 <= q < outputs@.len() ==> (#[trigger] outputs@[q])@.len()
                    == model.output_width(num_inputs as int),
            forall|q: int, t: int|
                0 <= q < outputs@.len() && 0 <= t < outputs@[q]@.len() ==> (
                #[trigger] outputs@[q]@[t]).in_graph(*graph),
        decreases batch@.len() - e,
    {
        let ghost ghead = *graph;
        let example = &batch[e];
        let mut inputs: Vec<Value> = Vec::new();
        let mut t: usize = 0;
        while t < example.input.len()
            invariant
                graph.wf(),
                graph.extends(g1),
                graph.extends(ghead),
                example == batch@[e as int],
                e < batch@.len(),
                forall|q: int|
                    0 <= q < batch@.len() ==> (#[trigger] batch@[q]).input@.len() == num_inputs,
                t <= example.input@.len(),
                inputs@.len() == t,
                forall|q: int| 0 <= q < inputs@.len() ==> (#[trigger] inputs@[q]).in_graph(*graph),
            decreases example.input@.len() - t,
        {
            let v = Value::new(graph, example.input[t]);
            inputs.push(v);
            t += 1;
        }
        proof {
            assert(inputs@.len() == num_inputs);
            assert forall|k: int| 0 <= k < bound@.len() implies (#[trigger] bound@[k]).in_graph(
                *graph,
            ) by {
                assert(bound@[k].in_graph(g1));
            }
        }
        let ghost gmid = *graph;
        let outs = model.forward_bound(graph, &bound, &inputs);
        outputs.push(outs);
        proof {
            assert forall|i: int| 0 <= i < ghead.len_spec() implies graph.node_at(i)
                == #[trigger] ghead.node_at(i) by {
                assert(graph.node_at(i) == gmid.node_at(i));
            }
            assert(graph.extends(ghead));
            assert forall|q: int, t: int|
                0 <= q < outputs@.len() && 0 <= t < outputs@[q]@.len() implies (
            #[trigger] outputs@[q]@[t]).in_graph(*graph) by {
                if q < e as int {
                    assert(outputs@[q]@[t].in_graph(ghead));
                }
            }
        }
        e += 1;
    }
    proof {
        assert forall|k: int| 0 <= k < bound@.len() implies (#[trigger] bound@[k]).in_graph(*graph)
            && graph.node_at(bound@[k].id()).data == model.params_spec()[k] && graph.node_at(
            bound@[k].id(),
        ).origin is None by {
            assert(graph.node_at(bound@[k].id()) == g1.node_at(bound@[k].id()));
        }
    }
    (bound, outputs)
}

/// Node `t` is the left-to-right sum `first + items[0] + … + items[k-1]`,
/// read directly off the graph.
pub open spec fn is_sum_chain(g: Graph, t: Value, first: Value, items: Seq<Value>, k: int) -> bool
    decreases k,
{
    if k <= 0 {
        t == first
    } else {
        &&& t.in_graph(g)
        &&& match g.node_at(t.id()).origin {
            Some(Op::Add(p, q)) => q == items[k - 1] && is_sum_chain(g, p, first, items, k - 1),
            _ => false,
        }
    }
}

/// A sum chain keeps holding as the graph grows.
pub proof fn lemma_sum_chain_extends(
    g1: Graph,
    g2: Graph,
    t: Value,
    first: Value,
    items: Seq<Value>,
    k: int,
)
    requires
        g1.wf(),
        g2.extends(g1),
        is_sum_chain(g1, t, first, items, k),
    ensures
        is_sum_chain(g2, t, first, items, k),
    decreases k,
{
    if k > 0 {
        assert(g2.node_at(t.id()) == g1.node_at(t.id()));
        match g1.node_at(t.id()).origin {
            Some(Op::Add(p, _)) => {
                lemma_sum_chain_extends(g1, g2, p, first, items, k - 1);
            },
            _ => {
                assert(false);
            },
        }
    }
}

/// Sum a batch of nodes — per-example losses — onto `first`,
/// accumulating left to right with one `Add` per item.
pub fn sum_values(graph: &mut Graph, first: Value, items: &Vec<Value>) -> (total: Value)
    requires
        old(graph).wf(),
        first.in_graph(*old(graph)),
        forall|t: int| 0 <= t < items@.len() ==> (#[trigger] items@[t]).in_graph(*old(graph)),
    ensures
        final(graph).wf(),
        final(graph).extends(*old(graph)),
        total.in_graph(*final(graph)),
        is_sum_chain(*final(graph), total, first, items@, items@.len() as int),
{
    let ghost g0 = *graph;
    let mut acc = first;
    let mut k: usize = 0;
    while k < items.len()
        invariant
            graph.wf(),
            graph.extends(g0),
            k <= items@.len(),
            forall|t: int| 0 <= t < items@.len() ==> (#[trigger] items@[t]).in_graph(g0),
            acc.in_graph(*graph),
            is_sum_chain(*graph, acc, first, items@, k as int),
        decreases items@.len() - k,
    {
        let ghost gprev = *graph;
        let s = acc.add(graph, items[k]);
        proof {
            lemma_sum_chain_extends(gprev, *graph, acc, first, items@, k as int);
            assert(graph.node_at(s.id()).origin == Some(Op::Add(acc, items@[k as int])));
        }
        acc = s;
        k += 1;
    }
    acc
}

} // verus!
