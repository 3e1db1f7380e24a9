//! The multi-layer perceptron: neurons composed into layers, layers into
//! a model. The model owns the scalar payloads of its trainable
//! parameters — one bias and one weight per input for every neuron — in a
//! fixed, deterministic order: layer by layer, neuron by neuron, weights
//! first, bias last. A persistence layer serialises exactly this order;
//! the training loop updates it in place by rebuilding the model from an
//! updated payload vector.
//!
//! A forward pass builds nodes in a [`Graph`]: the model's parameters are
//! first bound as leaf nodes, then every neuron contributes
//! `tanh(bias + Σ inputᵢ·weightᵢ)`, accumulated left to right.

use vstd::prelude::*;

use crate::graph::Graph;
use crate::graph::Op;
use crate::graph::Value;

verus! {

/// One neuron: a weight payload per input and one bias payload.
pub struct Neuron {
    pub weights: Vec<u64>,
    pub bias: u64,
}

/// An ordered row of neurons sharing one input width.
pub struct Layer {
    pub neurons: Vec<Neuron>,
}

/// An ordered stack of layers with compatible adjacent widths.
pub struct MultiLayerPerceptron {
    pub layers: Vec<Layer>,
}

impl Neuron {
    /// How many inputs this neuron takes.
    pub open spec fn num_inputs(self) -> int {
        self.weights@.len() as int
    }

    /// This neuron's parameter payloads: weights first, bias last.
    pub open spec fn params_spec(self) -> Seq<u64> {
        self.weights@.push(self.bias)
    }
}

/// The parameter payloads of a row of neurons, in order.
pub open spec fn neurons_params(ns: Seq<Neuron>) -> Seq<u64>
    decreases ns.len(),
{
    if ns.len() == 0 {
        seq![]
    } else {
        ns[0].params_spec() + neurons_params(ns.drop_first())
    }
}

proof fn lemma_neurons_params_push(ns: Seq<Neuron>, n: Neuron)
    ensures
        neurons_params(ns.push(n)) == neurons_params(ns) + n.params_spec(),
    decreases ns.len(),
{
    if ns.len() == 0 {
        assert(ns.push(n).drop_first() =~= ns);
        assert(neurons_params(ns.push(n)) =~= neurons_params(ns) + n.params_spec());
    } else {
        assert(ns.push(n).drop_first() =~= ns.drop_first().push(n));
        lemma_neurons_params_push(ns.drop_first(), n);
        assert(ns.push(n)[0] == ns[0]);
        assert(neurons_params(ns.push(n)) =~= neurons_params(ns) + n.params_spec());
    }
}

impl Layer {
    /// Every neuron of the layer takes `num_inputs` inputs.
    pub open spec fn wf(self, num_inputs: int) -> bool {
        forall|j: int|
            0 <= j < self.neurons@.len() ==> (#[trigger] self.neurons@[j]).num_inputs()
                == num_inputs
    }

    /// How many neurons — output activations — the layer has.
    pub open spec fn width(self) -> int {
        self.neurons@.len() as int
    }

    /// The layer's parameter payloads, neuron by neuron.
    pub open spec fn params_spec(self) -> Seq<u64> {
        neurons_params(self.neurons@)
    }
}

/// The parameter payloads of a stack of layers, in order.
pub open spec fn layers_params(ls: Seq<Layer>) -> Seq<u64>
    decreases ls.len(),
{
    if ls.len() == 0 {
        seq![]
    } else {
        ls[0].params_spec() + layers_params(ls.drop_first())
    }
}

proof fn lemma_layers_params_push(ls: Seq<Layer>, l: Layer)
    ensures
        layers_params(ls.push(l)) == layers_params(ls) + l.params_spec(),
    decreases ls.len(),
{
    if ls.len() == 0 {
        assert(ls.push(l).drop_first() =~= ls);
        assert(layers_params(ls.push(l)) =~= layers_params(ls) + l.params_spec());
    } else {
        assert(ls.push(l).drop_first() =~= ls.drop_first().push(l));
        lemma_layers_params_push(ls.drop_first(), l);
        assert(ls.push(l)[0] == ls[0]);
        assert(layers_params(ls.push(l)) =~= layers_params(ls) + l.params_spec());
    }
}

/// How many parameters a network with the given input width and layer
/// widths owns: each layer contributes `(inputs + 1) * outputs`, its
/// inputs being the previous layer's outputs.
pub open spec fn param_count_spec(num_inputs: int, sizes: Seq<int>) -> int
    decreases sizes.len(),
{
    if sizes.len() == 0 {
        0
    } else {
        (num_inputs + 1) * sizes[0] + param_count_spec(sizes[0], sizes.drop_first())
    }
}

/// The input width of layer `l` under entry width `num_inputs`.
pub open spec fn width_at(num_inputs: int, sizes: Seq<int>, l: int) -> int {
    if l == 0 {
        num_inputs
    } else {
        sizes[l - 1]
    }
}

/// All widths nonnegative.
pub open spec fn sizes_ok(sizes: Seq<int>) -> bool {
    forall|i: int| 0 <= i < sizes.len() ==> #[trigger] sizes[i] >= 0
}

pub proof fn lemma_param_count_nonneg(num_inputs: int, sizes: Seq<int>)
    requires
        num_inputs >= 0,
        sizes_ok(sizes),
    ensures
        param_count_spec(num_inputs, sizes) >= 0,
    decreases sizes.len(),
{
    if sizes.len() > 0 {
        assert(sizes_ok(sizes.drop_first()));
        lemma_param_count_nonneg(sizes[0], sizes.drop_first());
        assert((num_inputs + 1) * sizes[0] >= 0) by (nonlinear_arith)
            requires
                num_inputs >= 0,
                sizes[0] >= 0,
        ;
    }
}

/// Splitting the parameter count at layer `l`.
pub proof fn lemma_param_count_split(num_inputs: int, sizes: Seq<int>, l: int)
    requires
        0 <= l <= sizes.len(),
    ensures
        param_count_spec(num_inputs, sizes) == param_count_spec(num_inputs, sizes.take(l))
            + param_count_spec(width_at(num_inputs, sizes, l), sizes.skip(l)),
    decreases l,
{
    if l == 0 {
        assert(sizes.take(0) =~= Seq::<int>::empty());
        assert(sizes.skip(0) =~= sizes);
    } else {
        let rest = sizes.drop_first();
        lemma_param_count_split(sizes[0], rest, l - 1);
        assert(sizes.take(l).drop_first() =~= rest.take(l - 1));
        assert(sizes.take(l)[0] == sizes[0]);
        assert(sizes.skip(l) =~= rest.skip(l - 1));
    }
}

impl MultiLayerPerceptron {
    /// The widths of the layers, first layer first.
    pub open spec fn widths(self) -> Seq<int> {
        self.layers@.map_values(|l: Layer| l.width())
    }

    /// Adjacent layers have compatible widths under entry width
    /// `num_inputs`.
    pub open spec fn wf(self, num_inputs: int) -> bool {
        forall|l: int|
            0 <= l < self.layers@.len() ==> (#[trigger] self.layers@[l]).wf(
                width_at(num_inputs, self.widths(), l),
            )
    }

    /// Every trainable parameter payload, in the fixed order: layer by
    /// layer, neuron by neuron, weights first, bias last.
    pub open spec fn params_spec(self) -> Seq<u64> {
        layers_params(self.layers@)
    }
}

impl Neuron {
    /// A neuron over the given weight payloads and bias payload. The
    /// training loop owns initialisation: it supplies weights drawn
    /// uniformly from [-1, 1] in its encoding, and the zero payload as
    /// the bias.
    pub fn new(weights: Vec<u64>, bias: u64) -> (n: Neuron)
        ensures
            n.weights == weights,
            n.bias == bias,
            n.num_inputs() == weights@.len(),
    {
        Neuron { weights, bias }
    }

    /// Build one neuron from `num_inputs` weights and a bias read from
    /// `params` starting at `start`.
    fn from_params(params: &Vec<u64>, start: usize, num_inputs: usize) -> (n: Neuron)
        requires
            start + num_inputs + 1 <= params@.len(),
        ensures
            n.num_inputs() == num_inputs,
            n.params_spec() == params@.subrange(start as int, start + num_inputs + 1),
    {
        let plen = params.len();
        let mut weights: Vec<u64> = Vec::new();
        let mut k: usize = 0;
        while k < num_inputs
            invariant
                plen == params@.len(),
                start + num_inputs + 1 <= params@.len(),
                k <= num_inputs,
                weights@ == params@.subrange(start as int, start + k),
            decreases num_inputs - k,
        {
            weights.push(params[start + k]);
            proof {
                assert(params@.subrange(start as int, start + k + 1) =~= params@.subrange(
                    start as int,
                    start + k,
                ).push(params@[start + k]));
            }
            k += 1;
        }
        let bias = params[start + num_inputs];
        let n = Neuron { weights, bias };
        proof {
            assert(n.params_spec() =~= params@.subrange(start as int, start + num_inputs + 1));
        }
        n
    }
}

impl Layer {
    /// A layer of `num_neurons` neurons taking `num_inputs` inputs each,
    /// its parameter payloads read from `params` in the layer's order:
    /// neuron by neuron, weights first, bias last.
    pub fn new(num_inputs: usize, num_neurons: usize, params: Vec<u64>) -> (layer: Layer)
        requires
            params@.len() == (num_inputs + 1) * (num_neurons as int),
        ensures
            layer.wf(num_inputs as int),
            layer.width() == num_neurons,
            layer.params_spec() == params@,
    {
        let (layer, end) = Layer::from_params(&params, 0, num_inputs, num_neurons);
        proof {
            assert(params@.subrange(0, end as int) =~= params@);
        }
        layer
    }

    /// Build one layer of `num_neurons` neurons of `num_inputs` inputs
    /// each, consuming `(num_inputs + 1) * num_neurons` payloads of
    /// `params` from `start` on.
    fn from_params(params: &Vec<u64>, start: usize, num_inputs: usize, num_neurons: usize) -> (r:
        (Layer, usize))
        requires
            start + (num_inputs + 1) * (num_neurons as int) <= params@.len(),
        ensures
            r.0.wf(num_inputs as int),
            r.0.width() == num_neurons,
            r.1 == start + (num_inputs + 1) * (num_neurons as int),
            r.0.params_spec() == params@.subrange(start as int, r.1 as int),
    {
        let plen = params.len();
        let mut neurons: Vec<Neuron> = Vec::new();
        let mut cur: usize = start;
        let mut j: usize = 0;
        while j < num_neurons
            invariant
                plen == params@.len(),
                start + (num_inputs + 1) * (num_neurons as int) <= params@.len(),
                j <= num_neurons,
                cur == start + (num_inputs + 1) * (j as int),
                neurons@.len() == j,
                forall|t: int|
                    0 <= t < neurons@.len() ==> (#[trigger] neurons@[t]).num_inputs()
                        == num_inputs,
                neurons_params(neurons@) == params@.subrange(start as int, cur as int),
            decreases num_neurons - j,
        {
            proof {
                assert((num_inputs + 1) * (j as int) + (num_inputs + 1) <= (num_inputs + 1) * (
                num_neurons as int)) by (nonlinear_arith)
                    requires
                        j < num_neurons,
                ;
            }
            let n = Neuron::from_params(params, cur, num_inputs);
            let ghost prev = neurons@;
            neurons.push(n);
            proof {
                lemma_neurons_params_push(prev, n);
                assert(params@.subrange(start as int, cur + num_inputs + 1) =~= params@.subrange(
                    start as int,
                    cur as int,
                ) + params@.subrange(cur as int, cur + num_inputs + 1));
            }
            proof {
                assert((num_inputs + 1) * (j as int + 1) == (num_inputs + 1) * (j as int) + (
                num_inputs + 1)) by (nonlinear_arith);
            }
            cur += num_inputs;
            cur += 1;
            j += 1;
        }
        (Layer { neurons }, cur)
    }
}

impl MultiLayerPerceptron {
    /// The layer widths a network is asked for: the hidden widths, then
    /// the output width.
    pub open spec fn requested_widths(hidden_layer_sizes: Seq<usize>, num_outputs: usize) -> Seq<
        int,
    > {
        hidden_layer_sizes.map_values(|s: usize| s as int).push(num_outputs as int)
    }

    /// Build a network of the given shape whose parameters — weights and
    /// biases, in the model's fixed order — are the given payloads. The
    /// caller provides exactly as many payloads as the shape owns:
    /// `(inputs + 1) * outputs` summed over adjacent widths.
    pub fn new(
        num_inputs: usize,
        hidden_layer_sizes: &Vec<usize>,
        num_outputs: usize,
        params: Vec<u64>,
    ) -> (m: MultiLayerPerceptron)
        requires
            hidden_layer_sizes@.len() < usize::MAX,
            params@.len() == param_count_spec(
                num_inputs as int,
                Self::requested_widths(hidden_layer_sizes@, num_outputs),
            ),
        ensures
            m.wf(num_inputs as int),
            m.widths() == Self::requested_widths(hidden_layer_sizes@, num_outputs),
            m.params_spec() == params@,
    {
        let ghost gsizes = Self::requested_widths(hidden_layer_sizes@, num_outputs);
        proof {
            assert(sizes_ok(gsizes));
        }
        let plen = params.len();
        let mut layers: Vec<Layer> = Vec::new();
        let mut cur: usize = 0;
        let mut last: usize = num_inputs;
        let mut l: usize = 0;
        while l <= hidden_layer_sizes.len()
            invariant
                plen == params@.len(),
                hidden_layer_sizes@.len() < usize::MAX,
                gsizes == Self::requested_widths(hidden_layer_sizes@, num_outputs),
                gsizes.len() == hidden_layer_sizes@.len() + 1,
                sizes_ok(gsizes),
                params@.len() == param_count_spec(num_inputs as int, gsizes),
                l as int <= gsizes.len(),
                layers@.len() == l,
                last as int == width_at(num_inputs as int, gsizes, l as int),
                cur as int == param_count_spec(num_inputs as int, gsizes.take(l as int)),
                layers_params(layers@) == params@.subrange(0, cur as int),
                forall|t: int|
                    0 <= t < layers@.len() ==> (#[trigger] layers@[t]).wf(
                        width_at(num_inputs as int, gsizes, t),
                    ) && layers@[t].width() == gsizes[t],
            decreases gsizes.len() - l,
        {
            let out_w = if l < hidden_layer_sizes.len() {
                hidden_layer_sizes[l]
            } else {
                num_outputs
            };
            proof {
                assert(gsizes[l as int] == out_w as int);
                lemma_param_count_split(num_inputs as int, gsizes, l as int + 1);
                assert(param_count_spec(num_inputs as int, gsizes.take(l as int + 1))
                    == param_count_spec(num_inputs as int, gsizes.take(l as int)) + (
                last as int + 1) * (out_w as int)) by {
                    lemma_param_count_split_step(
                        num_inputs as int,
                        gsizes,
                        l as int,
                        last as int,
                    );
                }
                assert(sizes_ok(gsizes.skip(l as int + 1)));
                lemma_param_count_nonneg(out_w as int, gsizes.skip(l as int + 1));
            }
            let (layer, next) = Layer::from_params(&params, cur, last, out_w);
            let ghost prev_layers = layers@;
            layers.push(layer);
            proof {
                lemma_layers_params_push(prev_layers, layer);
                assert(params@.subrange(0, next as int) =~= params@.subrange(0, cur as int)
                    + params@.subrange(cur as int, next as int));
            }
            cur = next;
            last = out_w;
            l += 1;
        }
        let m = MultiLayerPerceptron { layers };
        proof {
            assert(m.widths() =~= gsizes);
            assert(gsizes.take(gsizes.len() as int) =~= gsizes);
            assert(params@.subrange(0, params@.len() as int) =~= params@);
            assert(m.wf(num_inputs as int));
        }
        m
    }

    /// Every weight and bias payload across all layers, in the model's
    /// fixed deterministic order; the training loop iterates it and a
    /// persistence layer serialises it.
    pub fn parameters(&self) -> (params: Vec<u64>)
        ensures
            params@ == self.params_spec(),
    {
        let mut out: Vec<u64> = Vec::new();
        let mut l: usize = 0;
        while l < self.layers.len()
            invariant
                l <= self.layers@.len(),
                out@ == layers_params(self.layers@.take(l as int)),
            decreases self.layers@.len() - l,
        {
            let layer = &self.layers[l];
            let mut j: usize = 0;
            while j < layer.neurons.len()
                invariant
                    l < self.layers@.len(),
                    layer == self.layers@[l as int],
                    j <= layer.neurons@.len(),
                    out@ == layers_params(self.layers@.take(l as int)) + neurons_params(
                        layer.neurons@.take(j as int),
                    ),
                decreases layer.neurons@.len() - j,
            {
                let neuron = &layer.neurons[j];
                let ghost before = out@;
                let mut k: usize = 0;
                while k < neuron.weights.len()
                    invariant
                        j < layer.neurons@.len(),
                        neuron == layer.neurons@[j as int],
                        k <= neuron.weights@.len(),
                        out@ == before + neuron.weights@.take(k as int),
                    decreases neuron.weights@.len() - k,
                {
                    out.push(neuron.weights[k]);
                    proof {
                        assert(before + neuron.weights@.take(k as int + 1) =~= (before
                            + neuron.weights@.take(k as int)).push(neuron.weights@[k as int]));
                    }
                    k += 1;
                }
                out.push(neuron.bias);
                proof {
                    assert(neuron.weights@.take(neuron.weights@.len() as int)
                        =~= neuron.weights@);
                    lemma_neurons_params_push(layer.neurons@.take(j as int), *neuron);
                    assert(layer.neurons@.take(j as int + 1) =~= layer.neurons@.take(
                        j as int,
                    ).push(layer.neurons@[j as int]));
                    assert(out@ =~= layers_params(self.layers@.take(l as int)) + neurons_params(
                        layer.neurons@.take(j as int + 1),
                    ));
                }
                j += 1;
            }
            proof {
                assert(layer.neurons@.take(layer.neurons@.len() as int) =~= layer.neurons@);
                lemma_layers_params_push(self.layers@.take(l as int), *layer);
                assert(self.layers@.take(l as int + 1) =~= self.layers@.take(l as int).push(
                    self.layers@[l as int],
                ));
            }
            l += 1;
        }
        proof {
            assert(self.layers@.take(self.layers@.len() as int) =~= self.layers@);
        }
        out
    }
}

/// Node `t` is the left-to-right accumulation `bias + ins[0]*ws[0] + …
/// + ins[k-1]*ws[k-1]`, read directly off the graph: each link is an
/// `Add` of the previous accumulator and a `Mul` of one input with one
/// weight.
pub open spec fn is_affine_chain(
    g: Graph,
    t: Value,
    bias: Value,
    ws: Seq<Value>,
    ins: Seq<Value>,
    k: int,
) -> bool
    decreases k,
{
    if k <= 0 {
        t == bias
    } else {
        &&& t.in_graph(g)
        &&& match g.node_at(t.id()).origin {
            Some(Op::Add(p, m)) => {
                &&& m.in_graph(g)
                &&& g.node_at(m.id()).origin == Some(Op::Mul(ins[k - 1], ws[k - 1]))
                &&& is_affine_chain(g, p, bias, ws, ins, k - 1)
            },
            _ => false,
        }
    }
}

/// Node `out` is `tanh(bias + Σ ins[q] * weight[q])` for the neuron whose
/// parameter handles sit in `bound` at `start` — `ni` weights, then the
/// bias.
pub open spec fn neuron_activation(
    g: Graph,
    out: Value,
    bound: Seq<Value>,
    start: int,
    ni: int,
    ins: Seq<Value>,
) -> bool {
    &&& out.in_graph(g)
    &&& match g.node_at(out.id()).origin {
        Some(Op::Tanh(t)) => is_affine_chain(
            g,
            t,
            bound[start + ni],
            bound.subrange(start, start + ni),
            ins,
            ni,
        ),
        _ => false,
    }
}

/// Every output of `outs` is the activation of the corresponding neuron
/// of `layer` over the inputs `ins`, with the layer's parameter handles
/// at `start` in `bound`.
pub open spec fn layer_outputs(
    g: Graph,
    layer: Layer,
    bound: Seq<Value>,
    start: int,
    ins: Seq<Value>,
    outs: Seq<Value>,
) -> bool {
    &&& outs.len() == layer.width()
    &&& forall|j: int|
        0 <= j < outs.len() ==> neuron_activation(
            g,
            #[trigger] outs[j],
            bound,
            start + j * (ins.len() + 1),
            ins.len() as int,
            ins,
        )
}

/// A complete forward trace: `acts[0]` is the input vector, every
/// `acts[l + 1]` is layer `l`'s output over `acts[l]`, each layer reading
/// its parameter handles at its offset inside `bound`.
pub open spec fn model_trace(
    g: Graph,
    layers: Seq<Layer>,
    bound: Seq<Value>,
    num_inputs: int,
    acts: Seq<Seq<Value>>,
) -> bool {
    let sizes = layers.map_values(|l: Layer| l.width());
    &&& acts.len() == layers.len() + 1
    &&& acts[0].len() == num_inputs
    &&& forall|l: int|
        0 <= l < layers.len() ==> layer_outputs(
            g,
            #[trigger] layers[l],
            bound,
            param_count_spec(num_inputs, sizes.take(l)),
            acts[l],
            acts[l + 1],
        )
}

/// An affine chain keeps holding as the graph grows.
pub proof fn lemma_affine_chain_extends(
    g1: Graph,
    g2: Graph,
    t: Value,
    bias: Value,
    ws: Seq<Value>,
    ins: Seq<Value>,
    k: int,
)
    requires
        g1.wf(),
        g2.extends(g1),
        is_affine_chain(g1, t, bias, ws, ins, k),
    ensures
        is_affine_chain(g2, t, bias, ws, ins, k),
    decreases k,
{
    if k > 0 {
        assert(g2.node_at(t.id()) == g1.node_at(t.id()));
        match g1.node_at(t.id()).origin {
            Some(Op::Add(p, m)) => {
                assert(g2.node_at(m.id()) == g1.node_at(m.id()));
                lemma_affine_chain_extends(g1, g2, p, bias, ws, ins, k - 1);
            },
            _ => {
                assert(false);
            },
        }
    }
}

/// A neuron activation keeps holding as the graph grows.
pub proof fn lemma_neuron_activation_extends(
    g1: Graph,
    g2: Graph,
    out: Value,
    bound: Seq<Value>,
    start: int,
    ni: int,
    ins: Seq<Value>,
)
    requires
        g1.wf(),
        g2.extends(g1),
        neuron_activation(g1, out, bound, start, ni, ins),
    ensures
        neuron_activation(g2, out, bound, start, ni, ins),
{
    assert(g2.node_at(out.id()) == g1.node_at(out.id()));
    match g1.node_at(out.id()).origin {
        Some(Op::Tanh(t)) => {
            lemma_affine_chain_extends(
                g1,
                g2,
                t,
                bound[start + ni],
                bound.subrange(start, start + ni),
                ins,
                ni,
            );
        },
        _ => {
            assert(false);
        },
    }
}

impl MultiLayerPerceptron {
    /// Insert one leaf node per parameter payload, in the model's fixed
    /// order, and hand back their handles: the binding a forward pass
    /// reads its weights and biases through, and the training loop reads
    /// gradients through. Handles are consecutive arena slots.
    pub fn bind(&self, graph: &mut Graph) -> (bound: Vec<Value>)
        requires
            old(graph).wf(),
        ensures
            final(graph).wf(),
            final(graph).extends(*old(graph)),
            bound@.len() == self.params_spec().len(),
            forall|k: int|
                0 <= k < bound@.len() ==> (#[trigger] bound@[k]).in_graph(*final(graph))
                    && bound@[k].id() == old(graph).len_spec() + k && final(graph).node_at(
                    bound@[k].id(),
                ) == (crate::graph::Node { data: self.params_spec()[k], grad: 0, origin: None }),
    {
        let params = self.parameters();
        let ghost g0 = *graph;
        let mut bound: Vec<Value> = Vec::new();
        let mut k: usize = 0;
        while k < params.len()
            invariant
                graph.wf(),
                graph.extends(g0),
                params@ == self.params_spec(),
                k <= params@.len(),
                bound@.len() == k,
                graph.len_spec() == g0.len_spec() + k,
                forall|t: int|
                    0 <= t < k ==> (#[trigger] bound@[t]).in_graph(*graph) && bound@[t].id()
                        == g0.len_spec() + t && graph.node_at(bound@[t].id()) == (
                    crate::graph::Node { data: self.params_spec()[t], grad: 0, origin: None }),
            decreases params@.len() - k,
        {
            let ghost gprev = *graph;
            let v = Value::new(graph, params[k]);
            bound.push(v);
            proof {
                assert forall|t: int|
                    0 <= t < k + 1 implies (#[trigger] bound@[t]).in_graph(*graph) && bound@[t].id()
                    == g0.len_spec() + t && graph.node_at(bound@[t].id()) == (
                crate::graph::Node { data: self.params_spec()[t], grad: 0, origin: None }) by {
                    if t < k {
                        assert(graph.node_at(bound@[t].id()) == gprev.node_at(bound@[t].id()));
                    }
                }
            }
            k += 1;
        }
        bound
    }
}

impl Neuron {
    /// One neuron's forward pass: build `tanh(bias + Σ inputᵢ·weightᵢ)`
    /// over the parameter handles at `start` in `bound`, accumulating
    /// left to right, and return the activation node.
    pub fn forward(
        &self,
        graph: &mut Graph,
        bound: &Vec<Value>,
        start: usize,
        inputs: &Vec<Value>,
    ) -> (out: Value)
        requires
            old(graph).wf(),
            inputs@.len() == self.weights@.len(),
            start + self.weights@.len() + 1 <= bound@.len(),
            forall|t: int| 0 <= t < bound@.len() ==> (#[trigger] bound@[t]).in_graph(*old(graph)),
            forall|t: int|
                0 <= t < inputs@.len() ==> (#[trigger] inputs@[t]).in_graph(*old(graph)),
        ensures
            final(graph).wf(),
            final(graph).extends(*old(graph)),
            out.in_graph(*final(graph)),
            neuron_activation(
                *final(graph),
                out,
                bound@,
                start as int,
                self.weights@.len() as int,
                inputs@,
            ),
    {
        let ghost g0 = *graph;
        let blen = bound.len();
        let ni = self.weights.len();
        let ghost ws = bound@.subrange(start as int, start + ni);
        let mut acc = bound[start + ni];
        let mut k: usize = 0;
        while k < ni
            invariant
                blen == bound@.len(),
                graph.wf(),
                graph.extends(g0),
                ni == self.weights@.len(),
                inputs@.len() == ni,
                start + ni + 1 <= bound@.len(),
                ws == bound@.subrange(start as int, start + ni),
                k <= ni,
                forall|t: int| 0 <= t < bound@.len() ==> (#[trigger] bound@[t]).in_graph(g0),
                forall|t: int| 0 <= t < inputs@.len() ==> (#[trigger] inputs@[t]).in_graph(g0),
                acc.in_graph(*graph),
                is_affine_chain(*graph, acc, bound@[start + ni], ws, inputs@, k as int),
            decreases ni - k,
        {
            let ghost gprev = *graph;
            let m = inputs[k].mul(graph, bound[start + k]);
            let ghost gmid = *graph;
            let s = acc.add(graph, m);
            proof {
                assert(graph.node_at(m.id()) == gmid.node_at(m.id()));
                assert(gmid.node_at(m.id()).origin == Some(Op::Mul(inputs@[k as int], bound@[
                    start + k
                ])));
                assert(ws[k as int] == bound@[start + k]);
                lemma_affine_chain_extends(
                    gprev,
                    *graph,
                    acc,
                    bound@[start + ni],
                    ws,
                    inputs@,
                    k as int,
                );
                assert(graph.node_at(s.id()).origin == Some(Op::Add(acc, m)));
                assert(is_affine_chain(*graph, s, bound@[start + ni], ws, inputs@, k + 1));
            }
            acc = s;
            k += 1;
        }
        let ghost glast = *graph;
        let out = acc.tanh(graph);
        proof {
            lemma_affine_chain_extends(
                glast,
                *graph,
                acc,
                bound@[start + ni],
                ws,
                inputs@,
                ni as int,
            );
            assert(graph.node_at(out.id()).origin == Some(Op::Tanh(acc)));
        }
        out
    }
}

impl Layer {
    /// One layer's forward pass: every neuron's activation over the same
    /// input vector, in neuron order, reading the layer's parameter
    /// handles at `start` in `bound`. Returns the activations and the
    /// offset just past this layer's handles, where the next layer's
    /// begin.
    pub fn forward(
        &self,
        graph: &mut Graph,
        bound: &Vec<Value>,
        start: usize,
        inputs: &Vec<Value>,
    ) -> (r: (Vec<Value>, usize))
        requires
            old(graph).wf(),
            self.wf(inputs@.len() as int),
            start + (inputs@.len() + 1) * self.width() <= bound@.len(),
            forall|t: int| 0 <= t < bound@.len() ==> (#[trigger] bound@[t]).in_graph(*old(graph)),
            forall|t: int|
                0 <= t < inputs@.len() ==> (#[trigger] inputs@[t]).in_graph(*old(graph)),
        ensures
            final(graph).wf(),
            final(graph).extends(*old(graph)),
            r.0@.len() == self.width(),
            r.1 as int == start + (inputs@.len() + 1) * self.width(),
            forall|t: int| 0 <= t < r.0@.len() ==> (#[trigger] r.0@[t]).in_graph(*final(graph)),
            layer_outputs(*final(graph), *self, bound@, start as int, inputs@, r.0@),
    {
        let ghost g0 = *graph;
        let blen = bound.len();
        let ni = inputs.len();
        let width = self.neurons.len();
        let mut outs: Vec<Value> = Vec::new();
        let mut cur: usize = start;
        let mut j: usize = 0;
        while j < width
            invariant
                blen == bound@.len(),
                graph.wf(),
                graph.extends(g0),
                width == self.neurons@.len(),
                ni == inputs@.len(),
                self.wf(ni as int),
                start + (ni + 1) * (width as int) <= bound@.len(),
                j <= width,
                cur == start + (ni + 1) * (j as int),
                outs@.len() == j,
                forall|t: int| 0 <= t < bound@.len() ==> (#[trigger] bound@[t]).in_graph(g0),
                forall|t: int| 0 <= t < inputs@.len() ==> (#[trigger] inputs@[t]).in_graph(g0),
                forall|t: int|
                    0 <= t < outs@.len() ==> (#[trigger] outs@[t]).in_graph(*graph)
                        && neuron_activation(
                        *graph,
                        outs@[t],
                        bound@,
                        start + t * (ni + 1),
                        ni as int,
                        inputs@,
                    ),
            decreases width - j,
        {
            proof {
                assert((ni + 1) * (j as int) + (ni + 1) <= (ni + 1) * (width as int))
                    by (nonlinear_arith)
                    requires
                        j < width,
                ;
            }
            let ghost gprev = *graph;
            let out = self.neurons[j].forward(graph, bound, cur, inputs);
            outs.push(out);
            proof {
                assert forall|t: int|
                    0 <= t < outs@.len() implies (#[trigger] outs@[t]).in_graph(*graph)
                    && neuron_activation(
                    *graph,
                    outs@[t],
                    bound@,
                    start + t * (ni + 1),
                    ni as int,
                    inputs@,
                ) by {
                    if t < j {
                        lemma_neuron_activation_extends(
                            gprev,
                            *graph,
                            outs@[t],
                            bound@,
                            start + t * (ni + 1),
                            ni as int,
                            inputs@,
                        );
                    } else {
                        assert(outs@[t] == out);
                        assert(t == j as int);
                        assert(start + (j as int) * (ni + 1) == cur) by (nonlinear_arith)
                            requires
                                cur == start + (ni + 1) * (j as int),
                        ;
                    }
                }
                assert((ni + 1) * (j as int + 1) == (ni + 1) * (j as int) + (ni + 1))
                    by (nonlinear_arith);
            }
            cur += ni;
            cur += 1;
            j += 1;
        }
        (outs, cur)
    }
}

/// A layer's outputs keep holding as the graph grows.
pub proof fn lemma_layer_outputs_extends(
    g1: Graph,
    g2: Graph,
    layer: Layer,
    bound: Seq<Value>,
    start: int,
    ins: Seq<Value>,
    outs: Seq<Value>,
)
    requires
        g1.wf(),
        g2.extends(g1),
        layer_outputs(g1, layer, bound, start, ins, outs),
    ensures
        layer_outputs(g2, layer, bound, start, ins, outs),
{
    assert forall|j: int| 0 <= j < outs.len() implies neuron_activation(
        g2,
        #[trigger] outs[j],
        bound,
        start + j * (ins.len() + 1),
        ins.len() as int,
        ins,
    ) by {
        lemma_neuron_activation_extends(
            g1,
            g2,
            outs[j],
            bound,
            start + j * (ins.len() + 1),
            ins.len() as int,
            ins,
        );
    }
}

impl MultiLayerPerceptron {
    /// The width of the vector a forward pass returns: the last layer's
    /// width, or the input width for a model with no layers.
    pub open spec fn output_width(self, num_inputs: int) -> int {
        width_at(num_inputs, self.widths(), self.layers@.len() as int)
    }

    /// The model's forward pass over already-bound parameter handles:
    /// fold the input vector through every layer in order. Each layer
    /// reads its parameter handles at its fixed offset inside `bound`, so
    /// one binding serves any number of forward passes in the same graph
    /// — every pass shares the same parameter leaves, and their gradients
    /// accumulate across passes during backpropagation.
    pub fn forward_bound(
        &self,
        graph: &mut Graph,
        bound: &Vec<Value>,
        inputs: &Vec<Value>,
    ) -> (outs: Vec<Value>)
        requires
            old(graph).wf(),
            self.wf(inputs@.len() as int),
            bound@.len() == param_count_spec(inputs@.len() as int, self.widths()),
            forall|t: int| 0 <= t < bound@.len() ==> (#[trigger] bound@[t]).in_graph(*old(graph)),
            forall|t: int|
                0 <= t < inputs@.len() ==> (#[trigger] inputs@[t]).in_graph(*old(graph)),
        ensures
            final(graph).wf(),
            final(graph).extends(*old(graph)),
            outs@.len() == self.output_width(inputs@.len() as int),
            forall|t: int| 0 <= t < outs@.len() ==> (#[trigger] outs@[t]).in_graph(*final(graph)),
            exists|acts: Seq<Seq<Value>>|
                {
                    &&& model_trace(
                        *final(graph),
                        self.layers@,
                        bound@,
                        inputs@.len() as int,
                        acts,
                    )
                    &&& acts[0] == inputs@
                    &&& acts[acts.len() - 1] == outs@
                },
    {
        let ghost g0 = *graph;
        let ghost ni0 = inputs@.len() as int;
        let ghost sizes = self.widths();
        let mut activations: Vec<Value> = Vec::new();
        let mut t: usize = 0;
        while t < inputs.len()
            invariant
                t <= inputs@.len(),
                activations@ == inputs@.take(t as int),
            decreases inputs@.len() - t,
        {
            activations.push(inputs[t]);
            proof {
                assert(inputs@.take(t as int + 1) =~= inputs@.take(t as int).push(
                    inputs@[t as int],
                ));
            }
            t += 1;
        }
        proof {
            assert(inputs@.take(inputs@.len() as int) =~= inputs@);
            assert(sizes.take(0) =~= Seq::<int>::empty());
            assert(sizes_ok(sizes));
        }
        let ghost acts: Seq<Seq<Value>> = seq![inputs@];
        let mut cursor: usize = 0;
        let mut l: usize = 0;
        while l < self.layers.len()
            invariant
                graph.wf(),
                graph.extends(g0),
                ni0 == inputs@.len() as int,
                sizes == self.widths(),
                sizes_ok(sizes),
                self.wf(ni0),
                bound@.len() == param_count_spec(ni0, sizes),
                forall|t: int| 0 <= t < bound@.len() ==> (#[trigger] bound@[t]).in_graph(g0),
                l <= self.layers@.len(),
                acts.len() == l + 1,
                acts[0] == inputs@,
                activations@ == acts[l as int],
                activations@.len() == width_at(ni0, sizes, l as int),
                cursor as int == param_count_spec(ni0, sizes.take(l as int)),
                forall|t: int|
                    0 <= t < activations@.len() ==> (#[trigger] activations@[t]).in_graph(*graph),
                forall|q: int|
                    0 <= q < l ==> layer_outputs(
                        *graph,
                        #[trigger] self.layers@[q],
                        bound@,
                        param_count_spec(ni0, sizes.take(q)),
                        acts[q],
                        acts[q + 1],
                    ),
            decreases self.layers@.len() - l,
        {
            let layer = &self.layers[l];
            proof {
                assert(sizes[l as int] == layer.width());
                assert(layer.wf(width_at(ni0, sizes, l as int)));
                lemma_param_count_split(ni0, sizes, l as int + 1);
                lemma_param_count_split_step(ni0, sizes, l as int, activations@.len() as int);
                assert(sizes_ok(sizes.skip(l as int + 1)));
                lemma_param_count_nonneg(sizes[l as int], sizes.skip(l as int + 1));
            }
            let ghost gprev = *graph;
            let (outs_l, next) = layer.forward(graph, bound, cursor, &activations);
            proof {
                assert forall|q: int| 0 <= q < l + 1 implies layer_outputs(
                    *graph,
                    #[trigger] self.layers@[q],
                    bound@,
                    param_count_spec(ni0, sizes.take(q)),
                    acts.push(outs_l@)[q],
                    acts.push(outs_l@)[q + 1],
                ) by {
                    if q < l {
                        assert(acts.push(outs_l@)[q] == acts[q]);
                        assert(acts.push(outs_l@)[q + 1] == acts[q + 1]);
                        lemma_layer_outputs_extends(
                            gprev,
                            *graph,
                            self.layers@[q],
                            bound@,
                            param_count_spec(ni0, sizes.take(q)),
                            acts[q],
                            acts[q + 1],
                        );
                    } else {
                        assert(acts.push(outs_l@)[q] == activations@);
                        assert(acts.push(outs_l@)[q + 1] == outs_l@);
                    }
                }
            }
            proof {
                acts = acts.push(outs_l@);
            }
            activations = outs_l;
            cursor = next;
            l += 1;
        }
        proof {
            assert(sizes.take(self.layers@.len() as int) =~= sizes);
            assert(model_trace(*graph, self.layers@, bound@, ni0, acts));
            assert(acts[acts.len() - 1] == activations@);
        }
        activations
    }

    /// The model's forward pass: bind every parameter as a fresh leaf
    /// node, then fold the input vector through every layer. The graph
    /// afterwards holds leaves carrying exactly the model's parameter
    /// payloads, and the outputs are the last layer's activations over
    /// them.
    pub fn forward(&self, graph: &mut Graph, inputs: &Vec<Value>) -> (outs: Vec<Value>)
        requires
            old(graph).wf(),
            self.wf(inputs@.len() as int),
            forall|t: int|
                0 <= t < inputs@.len() ==> (#[trigger] inputs@[t]).in_graph(*old(graph)),
        ensures
            final(graph).wf(),
            final(graph).extends(*old(graph)),
            outs@.len() == self.output_width(inputs@.len() as int),
            forall|t: int| 0 <= t < outs@.len() ==> (#[trigger] outs@[t]).in_graph(*final(graph)),
            exists|bound: Seq<Value>, acts: Seq<Seq<Value>>|
                {
                    &&& bound.len() == self.params_spec().len()
                    &&& forall|k: int|
                        0 <= k < bound.len() ==> (#[trigger] bound[k]).in_graph(*final(graph))
                            && final(graph).node_at(bound[k].id()).data == self.params_spec()[k]
                            && final(graph).node_at(bound[k].id()).origin is None
                    &&& model_trace(
                        *final(graph),
                        self.layers@,
                        bound,
                        inputs@.len() as int,
                        acts,
                    )
                    &&& acts[0] == inputs@
                    &&& acts[acts.len() - 1] == outs@
                },
    {
        proof {
            lemma_parameter_count(*self, inputs@.len() as int);
        }
        let ghost g0 = *graph;
        let bound = self.bind(graph);
        let ghost g1 = *graph;
        let outs = self.forward_bound(graph, &bound, inputs);
        proof {
            assert forall|k: int| 0 <= k < bound@.len() implies (#[trigger] bound@[k]).in_graph(
                *graph,
            ) && graph.node_at(bound@[k].id()).data == self.params_spec()[k] && graph.node_at(
                bound@[k].id(),
            ).origin is None by {
                assert(graph.node_at(bound@[k].id()) == g1.node_at(bound@[k].id()));
            }
        }
        outs
    }
}

proof fn lemma_param_count_split_step(num_inputs: int, sizes: Seq<int>, l: int, last: int)
    requires
        0 <= l < sizes.len(),
        last == width_at(num_inputs, sizes, l),
    ensures
        param_count_spec(num_inputs, sizes.take(l + 1)) == param_count_spec(
            num_inputs,
            sizes.take(l),
        ) + (last + 1) * sizes[l],
{
    lemma_param_count_split(num_inputs, sizes.take(l + 1), l);
    assert(sizes.take(l + 1).take(l) =~= sizes.take(l));
    assert(sizes.take(l + 1).skip(l) =~= seq![sizes[l]]);
    assert(width_at(num_inputs, sizes.take(l + 1), l) == last);
    assert(param_count_spec(last, seq![sizes[l]]) == (last + 1) * sizes[l] + param_count_spec(
        sizes[l],
        seq![sizes[l]].drop_first(),
    ));
    assert(seq![sizes[l]].drop_first() =~= Seq::<int>::empty());
}

/// The number of parameters a well-formed model exposes equals the sum
/// over adjacent layer widths of `(inputs + 1) * outputs`.
pub proof fn lemma_parameter_count(m: MultiLayerPerceptron, num_inputs: int)
    requires
        m.wf(num_inputs),
    ensures
        m.params_spec().len() == param_count_spec(num_inputs, m.widths()),
{
    lemma_layers_param_count(m.layers@, num_inputs, m.widths());
}

proof fn lemma_neurons_param_count(ns: Seq<Neuron>, num_inputs: int)
    requires
        forall|j: int| 0 <= j < ns.len() ==> (#[trigger] ns[j]).num_inputs() == num_inputs,
    ensures
        neurons_params(ns).len() == (num_inputs + 1) * ns.len(),
    decreases ns.len(),
{
    if ns.len() == 0 {
    } else {
        lemma_neurons_param_count(ns.drop_first(), num_inputs);
        assert((num_inputs + 1) * (ns.len() as int) == (num_inputs + 1) + (num_inputs + 1) * (
        ns.len() - 1)) by (nonlinear_arith);
    }
}

proof fn lemma_layers_param_count(ls: Seq<Layer>, num_inputs: int, sizes: Seq<int>)
    requires
        sizes == ls.map_values(|l: Layer| l.width()),
        forall|l: int|
            0 <= l < ls.len() ==> (#[trigger] ls[l]).wf(width_at(num_inputs, sizes, l)),
    ensures
        layers_params(ls).len() == param_count_spec(num_inputs, sizes),
    decreases ls.len(),
{
    if ls.len() == 0 {
    } else {
        let rest = ls.drop_first();
        let rsizes = rest.map_values(|l: Layer| l.width());
        assert(rsizes =~= sizes.drop_first());
        assert forall|l: int| 0 <= l < rest.len() implies (#[trigger] rest[l]).wf(
            width_at(sizes[0], rsizes, l),
        ) by {
            assert(rest[l] == ls[l + 1]);
            assert(width_at(num_inputs, sizes, l + 1) == width_at(sizes[0], rsizes, l));
        }
        lemma_layers_param_count(rest, sizes[0], rsizes);
        lemma_neurons_param_count(ls[0].neurons@, num_inputs);
        assert(ls[0].wf(width_at(num_inputs, sizes, 0)));
        assert(sizes[0] == ls[0].width());
    }
}

} // verus!
