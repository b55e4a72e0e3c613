use micrograd::functional::sigmoid;
use micrograd::graph::{Constant, Graph, Prev};
use micrograd::loss::BinaryCrossEntropyLoss;
use micrograd::metrics::count_agreements;
use micrograd::nn::MultiLayerPerceptron;
use micrograd::persist::{decode_weights, encode_weights};
use micrograd::topo::backward_order;
use micrograd::{ActvFn, Op};
use rand::rngs::StdRng;
use rand::{Rng, SeedableRng};

fn constant_value(c: Constant) -> f64 {
    match c {
        Constant::Int(i) => i as f64,
        Constant::Recip(n) => (n as f64).powf(-1.0),
    }
}

/// Values of every node; `leaves[i]` is the value of `Var` leaf `i`.
fn evaluate(g: &Graph, leaves: &[f64]) -> Vec<f64> {
    let mut data = vec![0.0; g.len()];
    for i in 0..g.len() {
        let n = g.node(i);
        data[i] = match (n.op, n.prev) {
            (Op::Var, _) => leaves[i],
            (Op::Const, _) => constant_value(n.constant),
            (Op::Add, Prev::Binary(a, b)) => data[a] + data[b],
            (Op::Mul, Prev::Binary(a, b)) => data[a] * data[b],
            (Op::Pow, Prev::Binary(a, b)) => data[a].powf(data[b]),
            (Op::Ln, Prev::Unary(a)) => data[a].ln(),
            (Op::Exp, Prev::Unary(a)) => data[a].exp(),
            (Op::ActvFn(ActvFn::ReLU), Prev::Unary(a)) => data[a].max(0.0),
            (Op::ActvFn(ActvFn::Sigmoid), Prev::Unary(a)) => 1.0 / (1.0 + (-1.0 * data[a]).exp()),
            _ => unreachable!(),
        };
    }
    data
}

fn backward(g: &Graph, data: &[f64], root: usize) -> Vec<f64> {
    let mut grad = vec![0.0; g.len()];
    grad[root] = 1.0;
    for i in backward_order(g, root) {
        let n = g.node(i);
        let out = grad[i];
        match (n.op, n.prev) {
            (Op::Add, Prev::Binary(a, b)) => {
                grad[a] += out;
                grad[b] += out;
            }
            (Op::Mul, Prev::Binary(a, b)) => {
                grad[a] += data[b] * out;
                grad[b] += data[a] * out;
            }
            (Op::Pow, Prev::Binary(a, b)) => grad[a] += data[b] * data[a].powf(data[b] - 1.0) * out,
            (Op::Ln, Prev::Unary(a)) => grad[a] += out / data[a],
            (Op::Exp, Prev::Unary(a)) => grad[a] += data[i] * out,
            (Op::ActvFn(ActvFn::ReLU), Prev::Unary(a)) => grad[a] += if data[i] > 0.0 { out } else { 0.0 },
            (Op::ActvFn(ActvFn::Sigmoid), Prev::Unary(a)) => grad[a] += data[i] * (1.0 - data[i]) * out,
            _ => {}
        }
    }
    grad
}

fn init_params(m: &MultiLayerPerceptron, rng: &mut StdRng) -> Vec<f64> {
    let mut p: Vec<f64> = (0..m.parameters().len()).map(|_| rng.gen_range(-1.0..1.0)).collect();
    for l in &m.layers {
        for n in &l.neurons {
            p[n.bias] = 0.0;
        }
    }
    p
}

/// Network outputs for input rows `xs`, the parameters being the first leaves.
fn outputs(m: &MultiLayerPerceptron, params: &[f64], xs: &[Vec<f64>]) -> Vec<Vec<f64>> {
    let mut g = Graph::new();
    g.vars(params.len());
    let mut leaves = params.to_vec();
    let rows: Vec<Vec<usize>> = xs
        .iter()
        .map(|r| {
            r.iter()
                .map(|x| {
                    leaves.push(*x);
                    g.var()
                })
                .collect()
        })
        .collect();
    let out = m.forward(&mut g, &rows);
    let data = evaluate(&g, &leaves);
    out.iter().map(|r| r.iter().map(|&i| data[i]).collect()).collect()
}

#[test]
fn saved_weights_reproduce_outputs_in_a_fresh_network() {
    let mut rng = StdRng::seed_from_u64(3);
    let m = MultiLayerPerceptron::new(3, vec![4, 4, 2], ActvFn::ReLU);
    let params = init_params(&m, &mut rng);
    let bits: Vec<u64> = params.iter().map(|p| p.to_bits()).collect();
    let bytes = encode_weights(&bits);
    let fresh = MultiLayerPerceptron::new(3, vec![4, 4, 2], ActvFn::ReLU);
    let loaded: Vec<f64> = decode_weights(&bytes, fresh.parameters().len())
        .unwrap()
        .into_iter()
        .map(f64::from_bits)
        .collect();
    let xs = vec![vec![0.5, -1.0, 2.0], vec![-0.25, 0.75, 0.0]];
    assert_eq!(outputs(&m, &params, &xs), outputs(&fresh, &loaded, &xs));
    assert!(decode_weights(&bytes, fresh.parameters().len() + 1).is_err());
}

#[test]
fn circles_are_learned_with_adam() {
    let mut rng = StdRng::seed_from_u64(11);
    let (xs, ys): (Vec<Vec<f64>>, Vec<Vec<f64>>) = (0..100)
        .map(|i| {
            let inner = i % 2 == 0;
            let r = if inner { 0.5 } else { 1.0 } + rng.gen_range(-0.1..0.1);
            let a: f64 = rng.gen_range(0.0..std::f64::consts::TAU);
            (vec![r * a.cos(), r * a.sin()], vec![if inner { 1.0 } else { 0.0 }])
        })
        .unzip();
    let m = MultiLayerPerceptron::new(2, vec![16, 16, 1], ActvFn::ReLU);
    let mut params = init_params(&m, &mut rng);
    let n = params.len();
    let (lr, b1, b2, eps) = (0.1, 0.9, 0.999, 1e-4);
    let (mut mom, mut vel) = (vec![0.0; n], vec![0.0; n]);
    let mut losses = Vec::new();
    let mut accuracy = 0.0;
    for t in 1..=100 {
        let mut g = Graph::new();
        g.vars(n);
        let mut leaves = params.clone();
        let mut table = |rows: &[Vec<f64>], g: &mut Graph| -> Vec<Vec<usize>> {
            rows.iter()
                .map(|r| {
                    r.iter()
                        .map(|x| {
                            leaves.push(*x);
                            g.var()
                        })
                        .collect()
                })
                .collect()
        };
        let x = table(&xs, &mut g);
        let y = table(&ys, &mut g);
        let out = m.forward(&mut g, &x);
        let probs = sigmoid(&mut g, &out);
        let loss = BinaryCrossEntropyLoss::new().loss(&mut g, &out, &y).unwrap();
        let data = evaluate(&g, &leaves);
        let grad = backward(&g, &data, loss);
        losses.push(data[loss]);
        let pred: Vec<bool> = probs.iter().map(|r| data[r[0]] > 0.5).collect();
        let truth: Vec<bool> = ys.iter().map(|r| r[0] > 0.5).collect();
        accuracy = count_agreements(&pred, &truth) as f64 / 100.0;
        for i in 0..n {
            mom[i] = b1 * mom[i] + (1.0 - b1) * grad[i];
            vel[i] = b2 * vel[i] + (1.0 - b2) * grad[i].powi(2);
            let mc = mom[i] / (1.0 - f64::powi(b1, t));
            let vc = vel[i] / (1.0 - f64::powi(b2, t));
            params[i] -= lr * mc / (vc.sqrt() + eps);
        }
    }
    let decreasing = losses.windows(2).filter(|w| w[1] < w[0]).count();
    assert!(decreasing * 2 > losses.len() - 1, "loss fell on {decreasing} steps: {losses:?}");
    assert!(accuracy > 0.9, "accuracy {accuracy}");
}
