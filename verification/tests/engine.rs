use neural_net_mnist::backprop::GradStep;
use neural_net_mnist::codec::decode_parameters;
use neural_net_mnist::codec::encode_parameters;
use neural_net_mnist::graph::Graph;
use neural_net_mnist::graph::Op;
use neural_net_mnist::graph::Value;
use neural_net_mnist::model::Layer;
use neural_net_mnist::model::MultiLayerPerceptron;
use neural_net_mnist::model::Neuron;
use neural_net_mnist::training::batch_forward;
use neural_net_mnist::training::sample_indices;
use neural_net_mnist::training::sum_values;
use neural_net_mnist::training::TrainingData;

fn bits(x: f64) -> u64 {
    x.to_bits()
}

fn num(p: u64) -> f64 {
    f64::from_bits(p)
}

/// Fill in the data payload of every derived node, in arena order:
/// every operand sits at a smaller index, so one ascending scan suffices.
fn evaluate(g: &mut Graph) {
    for i in 0..g.len() {
        let v = Value { index: i };
        match v.origin(g) {
            None => {}
            Some(Op::Add(a, b)) => {
                let d = num(a.data(g)) + num(b.data(g));
                v.set_data(g, bits(d));
            }
            Some(Op::Neg(a)) => {
                let d = -num(a.data(g));
                v.set_data(g, bits(d));
            }
            Some(Op::Mul(a, b)) => {
                let d = num(a.data(g)) * num(b.data(g));
                v.set_data(g, bits(d));
            }
            Some(Op::Pow { base, exp }) => {
                let d = num(base.data(g)).powf(num(exp));
                v.set_data(g, bits(d));
            }
            Some(Op::Tanh(a)) => {
                let d = num(a.data(g)).tanh();
                v.set_data(g, bits(d));
            }
        }
    }
}

/// Carry out a backward plan with IEEE-754 arithmetic: zero the
/// gradients of the ordered closure, seed the root with 1.0, then apply
/// each accumulation step in order.
fn run_backward(g: &mut Graph, root: Value) {
    let plan = root.backward(g);
    for v in plan.order.iter() {
        v.set_grad(g, bits(0.0));
    }
    root.set_grad(g, bits(1.0));
    for step in plan.steps.iter() {
        match *step {
            GradStep::Accumulate { target, source } => {
                let d = num(target.grad(g)) + num(source.grad(g));
                target.set_grad(g, bits(d));
            }
            GradStep::AccumulateNegated { target, source } => {
                let d = num(target.grad(g)) - num(source.grad(g));
                target.set_grad(g, bits(d));
            }
            GradStep::AccumulateScaled { target, source, factor } => {
                let d = num(target.grad(g)) + num(source.grad(g)) * num(factor.data(g));
                target.set_grad(g, bits(d));
            }
            GradStep::AccumulatePow { target, source, exp } => {
                let e = num(exp);
                let d = num(target.grad(g))
                    + num(source.grad(g)) * e * num(target.data(g)).powf(e - 1.0);
                target.set_grad(g, bits(d));
            }
            GradStep::AccumulateTanh { target, source } => {
                let t = num(target.data(g)).tanh();
                let d = num(target.grad(g)) + num(source.grad(g)) * (1.0 - t * t);
                target.set_grad(g, bits(d));
            }
        }
    }
}

#[test]
fn test1() {
    let mut g = Graph::new();
    let a = Value::new(&mut g, bits(3.0));
    let b = Value::new(&mut g, bits(7.0));
    let c = Value::new(&mut g, bits(11.0));
    let s = b.add(&mut g, c);
    let d = a.mul(&mut g, s);
    evaluate(&mut g);
    run_backward(&mut g, d);
    assert_eq!(num(a.grad(&g)), 18.0);
    assert_eq!(num(b.grad(&g)), 3.0);
    assert_eq!(num(c.grad(&g)), 3.0);
    assert_eq!(num(d.grad(&g)), 1.0);
}

#[test]
fn test2() {
    let mut g = Graph::new();
    let a = Value::new(&mut g, bits(3.0));
    let b = Value::new(&mut g, bits(7.0));
    let c = Value::new(&mut g, bits(11.0));
    let ab = a.mul(&mut g, b);
    let nc = c.neg(&mut g);
    let s = ab.add(&mut g, nc);
    let d = s.powf(&mut g, bits(5.0));
    evaluate(&mut g);
    run_backward(&mut g, d);
    assert_eq!(num(a.grad(&g)), 350000.0);
    assert_eq!(num(b.grad(&g)), 150000.0);
    assert_eq!(num(c.grad(&g)), -50000.0);
    assert_eq!(num(d.grad(&g)), 1.0);
}

#[test]
fn test3() {
    let mut g = Graph::new();
    let a = Value::new(&mut g, bits(3.0));
    let aa = a.mul(&mut g, a);
    let b = aa.add(&mut g, a);
    evaluate(&mut g);
    run_backward(&mut g, b);
    assert_eq!(num(a.grad(&g)), 7.0);
    assert_eq!(num(b.grad(&g)), 1.0);
}

#[test]
fn test4() {
    let mut g = Graph::new();
    let a = Value::new(&mut g, bits(0.5));
    let b = Value::new(&mut g, bits(0.25));
    let ab = a.mul(&mut g, b);
    let s = ab.add(&mut g, a);
    let t = s.tanh(&mut g);
    let c = b.mul(&mut g, t);
    evaluate(&mut g);
    run_backward(&mut g, c);
    assert_eq!(num(a.grad(&g)), 0.2163809837406213);
    assert_eq!(num(b.grad(&g)), 0.6411521158456308);
    assert_eq!(num(c.grad(&g)), 1.0);
}

#[test]
fn test() {
    let mlp = MultiLayerPerceptron::new(10, &vec![9, 5, 10], 1, vec![0u64; 220]);
    assert_eq!(mlp.parameters().len(), 220);
}

#[test]
fn parameter_count_formula() {
    // (10 + 1) * 9 + (9 + 1) * 5 + (5 + 1) * 10 = 99 + 50 + 60 = 209
    let mlp = MultiLayerPerceptron::new(10, &vec![9, 5], 10, vec![0u64; 209]);
    assert_eq!(mlp.parameters().len(), 209);
}

#[test]
fn tanh_derivative_nested() {
    // y = tanh(x * x) at x = 0.3: dy/dx = (1 - tanh(0.09)^2) * 2 * 0.3.
    let mut g = Graph::new();
    let x = Value::new(&mut g, bits(0.3));
    let xx = x.mul(&mut g, x);
    let y = xx.tanh(&mut g);
    evaluate(&mut g);
    run_backward(&mut g, y);
    let t: f64 = (0.3f64 * 0.3).tanh();
    let expected = (1.0 - t * t) * 2.0 * 0.3;
    assert!((num(x.grad(&g)) - expected).abs() < 1e-9);
    // The upstream gradient scales it: z = 2 * tanh(x * x).
    let mut g2 = Graph::new();
    let x2 = Value::new(&mut g2, bits(0.3));
    let xx2 = x2.mul(&mut g2, x2);
    let t2 = xx2.tanh(&mut g2);
    let two = Value::new(&mut g2, bits(2.0));
    let z = two.mul(&mut g2, t2);
    evaluate(&mut g2);
    run_backward(&mut g2, z);
    assert!((num(x2.grad(&g2)) - 2.0 * expected).abs() < 1e-9);
}

fn fan_in_graph() -> (Graph, Value, Value) {
    let mut g = Graph::new();
    let x = Value::new(&mut g, bits(3.0));
    let xx = x.mul(&mut g, x);
    let y = xx.add(&mut g, x);
    (g, x, y)
}

#[test]
fn backward_twice_identical() {
    // Two freshly built identical graphs yield bit-identical gradients,
    // and repeating the pass on one of them changes nothing.
    let (mut g1, x1, y1) = fan_in_graph();
    let (mut g2, x2, y2) = fan_in_graph();
    evaluate(&mut g1);
    evaluate(&mut g2);
    run_backward(&mut g1, y1);
    run_backward(&mut g2, y2);
    assert_eq!(x1.grad(&g1), x2.grad(&g2));
    assert_eq!(y1.grad(&g1), y2.grad(&g2));
    run_backward(&mut g1, y1);
    assert_eq!(x1.grad(&g1), x2.grad(&g2));
    assert_eq!(num(x1.grad(&g1)), 7.0);
}

#[test]
fn backward_plan_counts_uses() {
    // One accumulation step lands on x per use of x as an operand.
    let (g, x, y) = fan_in_graph();
    let plan = y.backward(&g);
    let into_x = plan
        .steps
        .iter()
        .filter(|s| {
            let t = match **s {
                GradStep::Accumulate { target, .. } => target,
                GradStep::AccumulateNegated { target, .. } => target,
                GradStep::AccumulateScaled { target, .. } => target,
                GradStep::AccumulatePow { target, .. } => target,
                GradStep::AccumulateTanh { target, .. } => target,
            };
            t == x
        })
        .count();
    assert_eq!(into_x, 3);
    assert_eq!(plan.order.len(), 3);
    assert_eq!(plan.order[0], y);
}

/// The loss graph `Σ (outputᵢ - expectedᵢ)²` over one example's
/// forward-pass outputs.
fn example_loss(g: &mut Graph, outputs: &Vec<Value>, example: &TrainingData) -> Value {
    let zero = Value::new(g, bits(0.0));
    let mut terms = Vec::new();
    for (o, e) in outputs.iter().zip(example.expected_output.iter()) {
        let exp_leaf = Value::new(g, *e);
        let neg_e = exp_leaf.neg(g);
        let diff = o.add(g, neg_e);
        let sq = diff.powf(g, bits(2.0));
        terms.push(sq);
    }
    sum_values(g, zero, &terms)
}

fn batch_loss_value(model: &MultiLayerPerceptron, data: &Vec<TrainingData>) -> (Graph, Value, Vec<Value>) {
    let mut g = Graph::new();
    let (bound, outputs) = batch_forward(&mut g, model, data, data[0].input.len());
    let zero = Value::new(&mut g, bits(0.0));
    let mut losses = Vec::new();
    for (outs, ex) in outputs.iter().zip(data.iter()) {
        losses.push(example_loss(&mut g, outs, ex));
    }
    let total = sum_values(&mut g, zero, &losses);
    evaluate(&mut g);
    (g, total, bound)
}

#[test]
fn training_step_decreases_loss() {
    // 2-2-1 network, four examples, fixed starting weights: one
    // gradient-descent update with a small learning rate strictly
    // decreases the total loss.
    let start: Vec<u64> = vec![
        bits(0.4), bits(-0.3), bits(0.1),
        bits(0.2), bits(0.5), bits(-0.1),
        bits(-0.6), bits(0.7), bits(0.05),
    ];
    let data = vec![
        TrainingData::new(vec![bits(0.0), bits(0.0)], vec![bits(0.0)]),
        TrainingData::new(vec![bits(0.0), bits(1.0)], vec![bits(1.0)]),
        TrainingData::new(vec![bits(1.0), bits(0.0)], vec![bits(1.0)]),
        TrainingData::new(vec![bits(1.0), bits(1.0)], vec![bits(0.0)]),
    ];
    let model = MultiLayerPerceptron::new(2, &vec![2], 1, start.clone());
    let (mut g, total, bound) = batch_loss_value(&model, &data);
    let loss_before = num(total.data(&g));
    run_backward(&mut g, total);
    let lr = 0.05;
    let old_params = model.parameters();
    let mut new_params = Vec::new();
    for (k, p) in old_params.iter().enumerate() {
        let grad = num(bound[k].grad(&g));
        new_params.push(bits(num(*p) - grad * lr));
    }
    let updated = MultiLayerPerceptron::new(2, &vec![2], 1, new_params);
    let (g2, total2, _) = batch_loss_value(&updated, &data);
    let loss_after = num(total2.data(&g2));
    assert!(loss_before.is_finite());
    assert!(loss_after < loss_before);
}

#[test]
fn parameters_round_trip() {
    let params: Vec<u64> = vec![
        bits(0.0),
        bits(-0.0),
        bits(1.5),
        bits(-3.25),
        bits(0.1),
        0x7ff8000000000001u64,
        u64::MAX,
        0,
        42,
    ];
    let bytes = encode_parameters(&params);
    assert_eq!(bytes.len(), 8 * params.len());
    let back = decode_parameters(&bytes, params.len()).unwrap();
    assert_eq!(back, params);
}

#[test]
fn decode_rejects_wrong_length() {
    let params: Vec<u64> = vec![1, 2, 3];
    let mut bytes = encode_parameters(&params);
    assert!(decode_parameters(&bytes, 2).is_none());
    assert!(decode_parameters(&bytes, 4).is_none());
    bytes.push(0);
    assert!(decode_parameters(&bytes, 3).is_none());
    bytes.pop();
    bytes.pop();
    assert!(decode_parameters(&bytes, 3).is_none());
}

#[test]
fn sampled_batch_is_in_range() {
    let ids = sample_indices(5, 100);
    assert_eq!(ids.len(), 100);
    assert!(ids.iter().all(|i| *i < 5));
    let ids2 = sample_indices(1, 7);
    assert!(ids2.iter().all(|i| *i == 0));
}

#[test]
fn model_forward_output_width() {
    let model = MultiLayerPerceptron::new(3, &vec![4, 2], 2, vec![bits(0.25); 4 * 4 + 5 * 2 + 3 * 2]);
    let mut g = Graph::new();
    let mut inputs = Vec::new();
    for x in [0.5f64, -1.0, 0.75] {
        inputs.push(Value::new(&mut g, bits(x)));
    }
    let outputs = model.forward(&mut g, &inputs);
    assert_eq!(outputs.len(), 2);
    evaluate(&mut g);
    for o in outputs.iter() {
        let d = num(o.data(&g));
        assert!(d.is_finite() && -1.0 <= d && d <= 1.0);
        assert!(matches!(o.origin(&g), Some(Op::Tanh(_))));
    }
}

#[test]
fn layer_construction_and_children() {
    let n = Neuron::new(vec![bits(0.5), bits(-0.25)], bits(0.125));
    assert_eq!(n.weights.len(), 2);
    assert_eq!(n.bias, bits(0.125));
    // A layer consumes its payloads neuron by neuron: weights first,
    // bias last.
    let layer = Layer::new(
        2,
        2,
        vec![bits(0.5), bits(-0.25), bits(0.125), bits(1.0), bits(2.0), bits(3.0)],
    );
    assert_eq!(layer.neurons.len(), 2);
    assert_eq!(layer.neurons[0].weights, vec![bits(0.5), bits(-0.25)]);
    assert_eq!(layer.neurons[0].bias, bits(0.125));
    assert_eq!(layer.neurons[1].weights, vec![bits(1.0), bits(2.0)]);
    assert_eq!(layer.neurons[1].bias, bits(3.0));
    // A derived node reports its operands in operand order; a leaf has
    // none.
    let mut g = Graph::new();
    let a = Value::new(&mut g, bits(1.0));
    let b = Value::new(&mut g, bits(2.0));
    let s = a.add(&mut g, b);
    assert_eq!(s.children(&g), vec![a, b]);
    assert_eq!(a.children(&g), vec![]);
    assert_eq!(s.origin(&g), Some(Op::Add(a, b)));
    assert_eq!(a.origin(&g), None);
}
