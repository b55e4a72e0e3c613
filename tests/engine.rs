use micrograd::graph::{Constant, Graph, Prev};
use micrograd::topo::{backward_order, topological_sort};
use micrograd::{ActvFn, Op};

/// Values and gradients held next to the arena, one per node.
struct Values {
    data: Vec<f64>,
    grad: Vec<f64>,
}

fn constant_value(c: Constant) -> f64 {
    match c {
        Constant::Int(i) => i as f64,
        Constant::Recip(n) => (n as f64).powf(-1.0),
    }
}

/// Evaluates every node in arena order; `leaves` gives the value of each
/// `Var` leaf, by index.
fn evaluate(g: &Graph, leaves: &[(usize, f64)]) -> Values {
    let mut data = vec![0.0; g.len()];
    for i in 0..g.len() {
        let n = g.node(i);
        data[i] = match (n.op, n.prev) {
            (Op::Var, _) => leaves.iter().find(|(k, _)| *k == i).map(|(_, v)| *v).unwrap(),
            (Op::Const, _) => constant_value(n.constant),
            (Op::Add, Prev::Binary(a, b)) => data[a] + data[b],
            (Op::Mul, Prev::Binary(a, b)) => data[a] * data[b],
            (Op::Pow, Prev::Binary(a, b)) => data[a].powf(data[b]),
            (Op::Ln, Prev::Unary(a)) => data[a].ln(),
            (Op::Exp, Prev::Unary(a)) => data[a].exp(),
            (Op::ActvFn(ActvFn::ReLU), Prev::Unary(a)) => data[a].max(0.0),
            (Op::ActvFn(ActvFn::LeakyReLU), Prev::Unary(a)) => data[a].max(0.01 * data[a]),
            (Op::ActvFn(ActvFn::Tanh), Prev::Unary(a)) => data[a].tanh(),
            (Op::ActvFn(ActvFn::Sigmoid), Prev::Unary(a)) => 1.0 / (1.0 + (-1.0 * data[a]).exp()),
            _ => unreachable!(),
        };
    }
    Values { data, grad: vec![0.0; g.len()] }
}

/// Seeds the root with 1 and runs each node's rule in backward order.
fn backward(g: &Graph, v: &mut Values, root: usize) {
    v.grad[root] = 1.0;
    for i in backward_order(g, root) {
        let n = g.node(i);
        let out = v.grad[i];
        match (n.op, n.prev) {
            (Op::Add, Prev::Binary(a, b)) => {
                v.grad[a] += out;
                v.grad[b] += out;
            }
            (Op::Mul, Prev::Binary(a, b)) => {
                let (da, db) = (v.data[a], v.data[b]);
                v.grad[a] += db * out;
                v.grad[b] += da * out;
            }
            (Op::Pow, Prev::Binary(a, b)) => {
                let (base, p) = (v.data[a], v.data[b]);
                v.grad[a] += p * base.powf(p - 1.0) * out;
            }
            (Op::Ln, Prev::Unary(a)) => v.grad[a] += out / v.data[a],
            (Op::Exp, Prev::Unary(a)) => v.grad[a] += v.data[i] * out,
            (Op::ActvFn(ActvFn::ReLU), Prev::Unary(a)) => {
                v.grad[a] += if v.data[i] > 0.0 { out } else { 0.0 }
            }
            (Op::ActvFn(ActvFn::LeakyReLU), Prev::Unary(a)) => {
                v.grad[a] += if v.data[i] > 0.0 { out } else { 0.01 * out }
            }
            (Op::ActvFn(ActvFn::Tanh), Prev::Unary(a)) => v.grad[a] += (1.0 - v.data[i].powi(2)) * out,
            (Op::ActvFn(ActvFn::Sigmoid), Prev::Unary(a)) => {
                v.grad[a] += v.data[i] * (1.0 - v.data[i]) * out
            }
            _ => {}
        }
    }
}

#[test]
fn add_gives_unit_gradient_to_both_operands() {
    for (x, y) in [(3.0, -2.0), (0.0, 0.0), (-1.5, 1e9)] {
        let mut g = Graph::new();
        let a = g.var();
        let b = g.var();
        let s = g.add(a, b);
        let mut v = evaluate(&g, &[(a, x), (b, y)]);
        backward(&g, &mut v, s);
        assert_eq!(v.data[s], x + y);
        assert_eq!(v.grad[a], 1.0);
        assert_eq!(v.grad[b], 1.0);
    }
}

#[test]
fn mul_gradient_is_the_other_operand() {
    for (x, y) in [(3.0, -2.0), (0.5, 4.0), (-7.25, 0.125)] {
        let mut g = Graph::new();
        let a = g.var();
        let b = g.var();
        let p = g.mul(a, b);
        let mut v = evaluate(&g, &[(a, x), (b, y)]);
        backward(&g, &mut v, p);
        assert_eq!(v.data[p], x * y);
        assert_eq!(v.grad[a], y);
        assert_eq!(v.grad[b], x);
    }
}

#[test]
fn diamond_sharing_sums_both_paths() {
    // c = a * 3, d = a^2, e = c + d: de/da = 3 + 2a.
    let mut g = Graph::new();
    let a = g.var();
    let three = g.constant(Constant::Int(3));
    let c = g.mul(a, three);
    let d = g.powi(a, 2);
    let e = g.add(c, d);
    let order = backward_order(&g, e);
    assert_eq!(order.iter().filter(|&&i| i == a).count(), 1);
    let pos = |x: usize| order.iter().position(|&i| i == x).unwrap();
    assert!(pos(c) < pos(a));
    assert!(pos(d) < pos(a));
    assert_eq!(order[0], e);
    let mut v = evaluate(&g, &[(a, 5.0)]);
    backward(&g, &mut v, e);
    assert_eq!(v.grad[a], 13.0);
}

#[test]
fn topological_sort_is_post_order_of_reachable_nodes() {
    let mut g = Graph::new();
    let a = g.var();
    let unused = g.var();
    let b = g.var();
    let c = g.add(a, b);
    let d = g.mul(c, a);
    let topo = topological_sort(&g, d);
    assert_eq!(topo, vec![a, b, c, d]);
    assert!(!topo.contains(&unused));
    assert_eq!(backward_order(&g, d), vec![d, c, b, a]);
}

#[test]
fn leaf_root_orders_itself_alone() {
    let mut g = Graph::new();
    let a = g.var();
    assert_eq!(backward_order(&g, a), vec![a]);
}

#[test]
fn canonical_fixture_matches_to_the_last_bit() {
    let mut g = Graph::new();
    let a = g.var();
    let b = g.var();
    let c = g.add(a, b);
    let ab = g.mul(a, b);
    let b3 = g.powi(b, 3);
    let d = g.add(ab, b3);
    // c += c + 1
    let one = g.constant(Constant::Int(1));
    let t = g.add(c, one);
    let c = g.add(c, t);
    // c += 1 + c + (-a)
    let one = g.constant(Constant::Int(1));
    let t = g.add(one, c);
    let na = g.neg(a);
    let t = g.add(t, na);
    let c = g.add(c, t);
    // d += d * 2 + (b + a).relu()
    let t = g.scale(d, Constant::Int(2));
    let ba = g.add(b, a);
    let r = g.relu(ba);
    let t = g.add(t, r);
    let d = g.add(d, t);
    // d += 3 * d + (b - a).relu()
    let three = g.constant(Constant::Int(3));
    let t = g.mul(three, d);
    let bma = g.sub(b, a);
    let r = g.relu(bma);
    let t = g.add(t, r);
    let d = g.add(d, t);
    let e = g.sub(c, d);
    let f = g.powi(e, 2);
    // g = f / 2; g += 10 / f
    let half = g.scale(f, Constant::Recip(2));
    let ten = g.constant(Constant::Int(10));
    let q = g.div(ten, f);
    let out = g.add(half, q);

    let mut v = evaluate(&g, &[(a, -4.0), (b, 2.0)]);
    backward(&g, &mut v, out);
    assert_eq!(v.data[out], 24.70408163265306);
    assert_eq!(v.grad[a], 138.83381924198252);
    assert_eq!(v.grad[b], 645.5772594752186);
}

/// Builds a graph over two leaves from every primitive and returns its root.
fn mixed_graph(g: &mut Graph, a: usize, b: usize) -> usize {
    let ab = g.mul(a, b);
    let s = g.add(ab, a);
    let sq = g.powi(s, 2);
    let one = g.constant(Constant::Int(1));
    let sq1 = g.add(sq, one);
    let l = g.ln(sq1);
    let eb = g.exp(b);
    let th = g.tanh(l);
    let sg = g.sigmoid(eb);
    let rl = g.relu(ab);
    let t = g.add(th, sg);
    let t = g.mul(t, b);
    g.add(t, rl)
}

#[test]
fn analytic_gradient_matches_central_differences() {
    let eps = 1e-6;
    for (x, y) in [(0.7, -0.3), (1.3, 0.4), (-0.8, 1.1)] {
        let mut g = Graph::new();
        let a = g.var();
        let b = g.var();
        let root = mixed_graph(&mut g, a, b);
        let mut v = evaluate(&g, &[(a, x), (b, y)]);
        backward(&g, &mut v, root);
        let at = |x: f64, y: f64| {
            let mut h = Graph::new();
            let a = h.var();
            let b = h.var();
            let r = mixed_graph(&mut h, a, b);
            evaluate(&h, &[(a, x), (b, y)]).data[r]
        };
        let da = (at(x + eps, y) - at(x - eps, y)) / (2.0 * eps);
        let db = (at(x, y + eps) - at(x, y - eps)) / (2.0 * eps);
        assert!((v.grad[a] - da).abs() <= 1e-4 * da.abs().max(1.0), "{} vs {}", v.grad[a], da);
        assert!((v.grad[b] - db).abs() <= 1e-4 * db.abs().max(1.0), "{} vs {}", v.grad[b], db);
    }
}

#[test]
fn empty_sum_is_zero_and_empty_product_is_one() {
    let mut g = Graph::new();
    let s = g.sum(&vec![]);
    let p = g.product(&vec![]);
    let v = evaluate(&g, &[]);
    assert_eq!(v.data[s], 0.0);
    assert_eq!(v.data[p], 1.0);
}

#[test]
fn sum_of_one_node_is_that_node() {
    let mut g = Graph::new();
    let a = g.var();
    assert_eq!(g.sum(&vec![a]), a);
    assert_eq!(g.len(), 1);
}

#[test]
fn sum_and_product_fold_left() {
    let mut g = Graph::new();
    let xs: Vec<usize> = (0..4).map(|_| g.var()).collect();
    let s = g.sum(&xs);
    let p = g.product(&xs);
    let v = evaluate(&g, &[(0, 1.5), (1, 2.0), (2, -3.0), (3, 0.5)]);
    assert_eq!(v.data[s], 1.0);
    assert_eq!(v.data[p], -4.5);
    assert_eq!(g.node(s).prev, Prev::Binary(g.len() - 5, xs[3]));
}

#[test]
fn compound_operations_have_the_documented_shape() {
    let mut g = Graph::new();
    let a = g.var();
    let b = g.var();
    let n = g.neg(a);
    assert_eq!(g.node(n).op, Op::Mul);
    assert_eq!(g.node(n - 1).constant, Constant::Int(-1));
    let d = g.div(a, b);
    let v = evaluate(&g, &[(a, 3.0), (b, 4.0)]);
    assert_eq!(v.data[n], -3.0);
    assert_eq!(v.data[d], 0.75);
    let s = g.sub(a, b);
    let v = evaluate(&g, &[(a, 3.0), (b, 4.0)]);
    assert_eq!(v.data[s], -1.0);
}

#[test]
fn activations_and_their_gradients() {
    let mut g = Graph::new();
    let a = g.var();
    let r = g.relu(a);
    let l = g.leaky_relu(a);
    let t = g.tanh(a);
    let s = g.sigmoid(a);
    let mut v = evaluate(&g, &[(a, -2.0)]);
    assert_eq!(v.data[r], 0.0);
    assert_eq!(v.data[l], -0.02);
    backward(&g, &mut v, l);
    assert_eq!(v.grad[a], 0.01);
    let mut v = evaluate(&g, &[(a, 0.5)]);
    backward(&g, &mut v, t);
    assert!((v.grad[a] - (1.0 - 0.5f64.tanh().powi(2))).abs() < 1e-12);
    let mut v = evaluate(&g, &[(a, 0.5)]);
    backward(&g, &mut v, s);
    let sg = 1.0 / (1.0 + (-0.5f64).exp());
    assert!((v.grad[a] - sg * (1.0 - sg)).abs() < 1e-12);
}

#[test]
fn op_symbols_and_arity() {
    assert_eq!(Op::Add.symbol(), "+");
    assert_eq!(Op::Pow.symbol(), "^");
    assert_eq!(Op::ActvFn(ActvFn::Sigmoid).symbol(), "σ");
    assert_eq!(Op::Var.symbol(), "");
    assert_eq!(Op::Mul.arity(), 2);
    assert_eq!(Op::Exp.arity(), 1);
    assert_eq!(Op::Const.arity(), 0);
}
