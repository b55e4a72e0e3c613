use micrograd::graph::{Constant, Graph, Prev};
use micrograd::loss::{
    check_shapes, hinge_embedding_loss, BinaryCrossEntropyLoss, ConstructionError, CrossEntropyLoss, HingeLoss,
    MeanSquareErrorLoss,
};
use micrograd::functional::{l1_regularization, l2_regularization, sigmoid, softmax};
use micrograd::metrics::count_agreements;
use micrograd::nn::{Layer, MultiLayerPerceptron, Neuron};
use micrograd::{ActvFn, Op};

fn constant_value(c: Constant) -> f64 {
    match c {
        Constant::Int(i) => i as f64,
        Constant::Recip(n) => (n as f64).powf(-1.0),
    }
}

/// Values of every node, the `Var` leaves taken from `leaves` by index.
fn evaluate(g: &Graph, leaves: &[f64]) -> Vec<f64> {
    let mut data = vec![0.0; g.len()];
    for i in 0..g.len() {
        let n = g.node(i);
        data[i] = match (n.op, n.prev) {
            (Op::Var, _) => leaves[i],
            (Op::Const, _) => constant_value(n.constant),
            (Op::Add, Prev::Binary(a, b)) => data[a] + data[b],
            (Op::Mul, Prev::Binary(a, b)) => data[a] * data[b],
            (Op::Pow, Prev::Binary(a, b)) => data[a].powf(data[b]),
            (Op::Ln, Prev::Unary(a)) => data[a].ln(),
            (Op::Exp, Prev::Unary(a)) => data[a].exp(),
            (Op::ActvFn(ActvFn::ReLU), Prev::Unary(a)) => data[a].max(0.0),
            (Op::ActvFn(ActvFn::LeakyReLU), Prev::Unary(a)) => data[a].max(0.01 * data[a]),
            (Op::ActvFn(ActvFn::Tanh), Prev::Unary(a)) => data[a].tanh(),
            (Op::ActvFn(ActvFn::Sigmoid), Prev::Unary(a)) => 1.0 / (1.0 + (-1.0 * data[a]).exp()),
            _ => unreachable!(),
        };
    }
    data
}

/// A graph whose first leaves hold `values`, and the table of their ids.
fn table(g: &mut Graph, rows: &[&[f64]], leaves: &mut Vec<f64>) -> Vec<Vec<usize>> {
    rows.iter()
        .map(|r| {
            r.iter()
                .map(|x| {
                    let i = g.var();
                    leaves.push(*x);
                    i
                })
                .collect()
        })
        .collect()
}

fn close(a: f64, b: f64) -> bool {
    (a - b).abs() < 1e-12
}

#[test]
fn neuron_parameters_are_weights_then_bias() {
    let n = Neuron::new(5, 3, Some(ActvFn::Tanh));
    assert_eq!(n.parameters(), vec![5, 6, 7, 8]);
    assert_eq!(n.bias, 8);
    assert_eq!(n.actv_fn, Some(ActvFn::Tanh));
}

#[test]
fn layer_parameters_go_neuron_by_neuron() {
    let l = Layer::new(2, 2, 3, None);
    assert_eq!(l.parameters(), (2..11).collect::<Vec<usize>>());
    assert_eq!(l.neurons.len(), 3);
}

#[test]
fn parameter_enumeration_is_stable_and_positional() {
    let m = MultiLayerPerceptron::new(2, vec![16, 16, 1], ActvFn::ReLU);
    let first = m.parameters();
    let second = m.parameters();
    assert_eq!(first, second);
    assert_eq!(first.len(), 16 * 3 + 16 * 17 + 17);
    assert_eq!(first, (0..first.len()).collect::<Vec<usize>>());
}

#[test]
fn only_the_last_layer_is_linear() {
    let m = MultiLayerPerceptron::new(3, vec![4, 2], ActvFn::Sigmoid);
    assert_eq!(m.layers[0].neurons[0].actv_fn, Some(ActvFn::Sigmoid));
    assert_eq!(m.layers[0].neurons[0].weights.len(), 3);
    assert_eq!(m.layers[1].neurons[1].actv_fn, None);
    assert_eq!(m.layers[1].neurons[1].weights.len(), 4);
}

#[test]
fn neuron_forward_computes_weighted_sum_plus_bias() {
    let n = Neuron::new(0, 2, None);
    let mut g = Graph::new();
    g.vars(3);
    let x0 = g.var();
    let x1 = g.var();
    let out = n.forw(&mut g, &vec![x0, x1]);
    let v = evaluate(&g, &[0.5, -2.0, 0.25, 4.0, 1.5]);
    assert!(close(v[out], 0.5 * 4.0 + -2.0 * 1.5 + 0.25));
}

#[test]
fn network_forward_chains_layers_and_rows_are_independent() {
    let m = MultiLayerPerceptron::new(1, vec![1, 1], ActvFn::ReLU);
    let mut g = Graph::new();
    g.vars(4);
    let xa = g.var();
    let xb = g.var();
    let outs = m.forward(&mut g, &vec![vec![xa], vec![xb]]);
    // w0 = 2, b0 = -1, w1 = 3, b1 = 0.5
    let v = evaluate(&g, &[2.0, -1.0, 3.0, 0.5, 1.0, -4.0]);
    assert_eq!(outs.len(), 2);
    assert!(close(v[outs[0][0]], 3.0 * (2.0f64 * 1.0 - 1.0).max(0.0) + 0.5));
    assert!(close(v[outs[1][0]], 0.5));
}

#[test]
fn mean_squared_error_value() {
    let mut g = Graph::new();
    let mut leaves = Vec::new();
    let p = table(&mut g, &[&[1.0, 2.0], &[3.0, 5.0]], &mut leaves);
    let t = table(&mut g, &[&[0.0, 2.0], &[3.0, 3.0]], &mut leaves);
    let l = MeanSquareErrorLoss::new().loss(&mut g, &p, &t).unwrap();
    let v = evaluate(&g, &leaves);
    assert!(close(v[l], ((1.0 + 0.0) / 2.0 + (0.0 + 4.0) / 2.0) / 2.0));
}

#[test]
fn binary_cross_entropy_applies_sigmoid_to_scores() {
    let mut g = Graph::new();
    let mut leaves = Vec::new();
    let p = table(&mut g, &[&[0.8], &[-0.3]], &mut leaves);
    let t = table(&mut g, &[&[1.0], &[0.0]], &mut leaves);
    let bce = BinaryCrossEntropyLoss::new().loss(&mut g, &p, &t).unwrap();
    let v = evaluate(&g, &leaves);
    let sig = |x: f64| 1.0 / (1.0 + (-x).exp());
    let want = -(sig(0.8).ln() + (1.0 - sig(-0.3)).ln()) / 2.0;
    assert!(close(v[bce], want));
}

#[test]
fn cross_entropy_is_the_mean_over_rows_of_row_sums() {
    let mut g = Graph::new();
    let mut leaves = Vec::new();
    let p = table(&mut g, &[&[0.7, 0.3]], &mut leaves);
    let t = table(&mut g, &[&[1.0, 0.0]], &mut leaves);
    let ce = CrossEntropyLoss::new().loss(&mut g, &p, &t).unwrap();
    let v = evaluate(&g, &leaves);
    assert!(close(v[ce], -(0.7f64.ln())));

    let mut g = Graph::new();
    let mut leaves = Vec::new();
    let p = table(&mut g, &[&[0.5, 0.5], &[0.2, 0.8]], &mut leaves);
    let t = table(&mut g, &[&[0.0, 1.0], &[0.0, 1.0]], &mut leaves);
    let ce = CrossEntropyLoss::new().loss(&mut g, &p, &t).unwrap();
    let v = evaluate(&g, &leaves);
    assert!(close(v[ce], -(0.5f64.ln() + 0.8f64.ln()) / 2.0));
}

#[test]
fn log_to_a_base() {
    let mut g = Graph::new();
    let a = g.var();
    let base = g.var();
    let l = g.log(a, base);
    let v = evaluate(&g, &[8.0, 2.0]);
    assert!(close(v[l], 3.0));
}

#[test]
fn hinge_losses_values() {
    let mut g = Graph::new();
    let mut leaves = Vec::new();
    let p = table(&mut g, &[&[0.5, -2.0]], &mut leaves);
    let t = table(&mut g, &[&[1.0, 1.0]], &mut leaves);
    let margin = g.var();
    leaves.push(2.0);
    let h = HingeLoss::new().loss(&mut g, &p, &t).unwrap();
    let he = hinge_embedding_loss(&mut g, &p, &t, margin).unwrap();
    let v = evaluate(&g, &leaves);
    assert!(close(v[h], (0.5 + 3.0) / 2.0));
    assert!(close(v[he], (1.5 + 4.0) / 2.0));
}

#[test]
fn loss_shape_errors() {
    let mut g = Graph::new();
    let a = g.var();
    let before = g.len();
    let mse = MeanSquareErrorLoss::new();
    assert_eq!(mse.loss(&mut g, &vec![], &vec![]), Err(ConstructionError::EmptyBatch));
    assert_eq!(mse.loss(&mut g, &vec![vec![a]], &vec![]), Err(ConstructionError::BatchMismatch));
    assert_eq!(mse.loss(&mut g, &vec![vec![]], &vec![vec![]]), Err(ConstructionError::EmptyRow));
    assert_eq!(
        mse.loss(&mut g, &vec![vec![a], vec![a, a]], &vec![vec![a], vec![a, a]]),
        Err(ConstructionError::FeatureMismatch)
    );
    assert_eq!(mse.loss(&mut g, &vec![vec![a]], &vec![vec![a, a]]), Err(ConstructionError::FeatureMismatch));
    assert_eq!(g.len(), before);
    assert_eq!(check_shapes(&vec![vec![a, a]], &vec![vec![a, a]]), Ok(()));
}

#[test]
fn softmax_rows_sum_to_one() {
    let mut g = Graph::new();
    let mut leaves = Vec::new();
    let y = table(&mut g, &[&[1.0, 2.0, 3.0], &[0.0, 0.0, 0.0]], &mut leaves);
    let s = softmax(&mut g, &y);
    let sg = sigmoid(&mut g, &y);
    let v = evaluate(&g, &leaves);
    let total: f64 = s[0].iter().map(|&i| v[i]).sum();
    assert!(close(total, 1.0));
    assert!(close(v[s[1][2]], 1.0 / 3.0));
    assert!(close(v[s[0][2]], 3.0f64.exp() / (1.0f64.exp() + 2.0f64.exp() + 3.0f64.exp())));
    assert!(close(v[sg[1][0]], 0.5));
}

#[test]
fn regularization_values() {
    let mut g = Graph::new();
    let ps = vec![g.var(), g.var()];
    let alpha = g.var();
    let l1 = l1_regularization(&mut g, alpha, &ps);
    let l2 = l2_regularization(&mut g, alpha, &ps);
    let v = evaluate(&g, &[3.0, -4.0, 0.5]);
    assert!(close(v[l1], -0.5));
    assert!(close(v[l2], 12.5));
}

#[test]
fn agreement_count() {
    assert_eq!(count_agreements(&vec![true, false, true, true], &vec![true, true, true, false]), 2);
    assert_eq!(count_agreements(&vec![], &vec![]), 0);
}
