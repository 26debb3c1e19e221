use rustymicrograd::{Graph, Layer, MultiLayerPerceptron, Neuron, Op, ShapeError};

/// Values of every node of `g`, leaves taken from `leaf_value` by id.
fn values(g: &Graph, leaf_value: &dyn Fn(usize) -> f64) -> Vec<f64> {
    let mut v: Vec<f64> = Vec::new();
    for id in 0..g.len() {
        let x = match g.op(id) {
            Op::Leaf => leaf_value(id),
            Op::Add(a, b) => v[a] + v[b],
            Op::Mul(a, b) => v[a] * v[b],
            Op::Pow(_) => panic!("no exponent known"),
            Op::TanH(a) => v[a].tanh(),
        };
        v.push(x);
    }
    v
}

/// A spread of values in (-1, 1), different for each id.
fn spread(id: usize) -> f64 {
    ((id * 37 + 11) % 199) as f64 / 100.0 - 0.99
}

#[test]
fn perceptron_has_forty_one_parameters() {
    let mut g = Graph::new();
    let net = MultiLayerPerceptron::new(&mut g, 3, &[4, 4, 1]);
    assert_eq!(net.sizes, vec![3, 4, 4, 1]);
    let p = net.parameters();
    assert_eq!(p.len(), (3 + 1) * 4 + (4 + 1) * 4 + (4 + 1) * 1);
    assert_eq!(p.len(), 41);
    assert_eq!(p, (0..41).collect::<Vec<usize>>());
    assert_eq!(g.len(), 41);
    assert!((0..41).all(|i| g.op(i) == Op::Leaf));
    assert_eq!(net.layers.len(), 3);
    assert_eq!(net.layers[1].neurons.len(), 4);
    assert_eq!(net.layers[1].neurons[2].w.len(), 4);
}

#[test]
fn perceptron_forward_gives_one_output_inside_the_unit_interval() {
    let mut g = Graph::new();
    let xs: Vec<usize> = (0..3).map(|_| g.leaf()).collect();
    let net = MultiLayerPerceptron::new(&mut g, 3, &[4, 4, 1]);
    let out = net.forward(&mut g, &xs).unwrap();
    assert_eq!(out.len(), 1);
    assert!(matches!(g.op(out[0]), Op::TanH(_)));
    assert_eq!(out[0], g.len() - 1);
    let inputs = [2.0, 3.0, -1.0];
    let v = values(&g, &|id| if id < 3 { inputs[id] } else { spread(id) });
    assert!(v[out[0]] > -1.0 && v[out[0]] < 1.0);
}

#[test]
fn perceptron_forward_node_count() {
    let mut g = Graph::new();
    let xs: Vec<usize> = (0..3).map(|_| g.leaf()).collect();
    let net = MultiLayerPerceptron::new(&mut g, 3, &[4, 4, 1]);
    let before = g.len();
    net.forward(&mut g, &xs).unwrap();
    assert_eq!(g.len() - before, 4 * (2 * 3 + 1) + 4 * (2 * 4 + 1) + 1 * (2 * 4 + 1));
}

#[test]
fn perceptron_rejects_wrong_input_count() {
    let mut g = Graph::new();
    let xs: Vec<usize> = (0..2).map(|_| g.leaf()).collect();
    let net = MultiLayerPerceptron::new(&mut g, 3, &[4, 1]);
    let before = g.len();
    assert_eq!(net.forward(&mut g, &xs), Err(ShapeError { expected: 3, found: 2 }));
    assert_eq!(g.len(), before);
}

#[test]
fn perceptron_without_layers_passes_inputs_through() {
    let mut g = Graph::new();
    let xs: Vec<usize> = (0..2).map(|_| g.leaf()).collect();
    let net = MultiLayerPerceptron::new(&mut g, 2, &[]);
    assert!(net.parameters().is_empty());
    assert_eq!(net.forward(&mut g, &xs), Ok(xs.clone()));
    assert_eq!(g.len(), 2);
}

#[test]
fn neuron_builds_weighted_sum_then_tanh() {
    let mut g = Graph::new();
    let x0 = g.leaf();
    let x1 = g.leaf();
    let n = Neuron::new(&mut g, 2);
    assert_eq!(n.w, vec![2, 3]);
    assert_eq!(n.b, 4);
    assert_eq!(n.parameters(), vec![2, 3, 4]);
    let out = n.forward(&mut g, &[x0, x1]).unwrap();
    assert_eq!(out, 9);
    assert_eq!(g.op(5), Op::Mul(x0, 2));
    assert_eq!(g.op(6), Op::Add(4, 5));
    assert_eq!(g.op(7), Op::Mul(x1, 3));
    assert_eq!(g.op(8), Op::Add(6, 7));
    assert_eq!(g.op(9), Op::TanH(8));
    let v = values(&g, &|id| [1.0, 2.0, 0.5, -0.25, 0.1][id]);
    assert!((v[out] - (0.1f64 + 0.5 - 0.5).tanh()).abs() < 1e-12);
}

#[test]
fn neuron_rejects_wrong_input_count() {
    let mut g = Graph::new();
    let x0 = g.leaf();
    let n = Neuron::new(&mut g, 2);
    assert_eq!(n.forward(&mut g, &[x0]), Err(ShapeError { expected: 2, found: 1 }));
    assert_eq!(g.len(), 4);
}

#[test]
fn neuron_without_weights_is_tanh_of_bias() {
    let mut g = Graph::new();
    let n = Neuron::new(&mut g, 0);
    assert_eq!(n.parameters(), vec![0]);
    assert_eq!(n.forward(&mut g, &[]), Ok(1));
    assert_eq!(g.op(1), Op::TanH(0));
}

#[test]
fn layer_outputs_in_neuron_order() {
    let mut g = Graph::new();
    let x0 = g.leaf();
    let layer = Layer::new(&mut g, 1, 3);
    assert_eq!(layer.neurons.len(), 3);
    assert_eq!(layer.parameters(), vec![1, 2, 3, 4, 5, 6]);
    let outs = layer.forward(&mut g, &[x0]).unwrap();
    assert_eq!(outs, vec![9, 12, 15]);
    assert_eq!(g.op(7), Op::Mul(x0, 1));
    assert_eq!(g.op(10), Op::Mul(x0, 3));
    assert_eq!(g.op(12), Op::TanH(11));
}

#[test]
fn layer_rejects_wrong_input_count() {
    let mut g = Graph::new();
    let x0 = g.leaf();
    let layer = Layer::new(&mut g, 2, 2);
    assert_eq!(layer.forward(&mut g, &[x0]), Err(ShapeError { expected: 2, found: 1 }));
    assert_eq!(g.len(), 7);
}
