use neural::graph::{Graph, Visit};
use neural::network::{build_layers, full_shape, param_count, params, Layer};

fn leaf(g: &mut Graph<f64>, v: f64) -> usize {
    g.leaf(v)
}

fn node(g: &mut Graph<f64>, value: f64, l: (f64, usize), r: (f64, usize)) -> usize {
    g.node(value, vec![l, r]).unwrap()
}

fn add(g: &mut Graph<f64>, a: usize, b: usize) -> usize {
    let (x, y) = (g.value(a), g.value(b));
    node(g, x + y, (1., a), (1., b))
}

fn sub(g: &mut Graph<f64>, a: usize, b: usize) -> usize {
    let (x, y) = (g.value(a), g.value(b));
    node(g, x - y, (1., a), (-1., b))
}

fn mul(g: &mut Graph<f64>, a: usize, b: usize) -> usize {
    let (x, y) = (g.value(a), g.value(b));
    node(g, x * y, (y, a), (x, b))
}

fn div(g: &mut Graph<f64>, a: usize, b: usize) -> usize {
    let (x, y) = (g.value(a), g.value(b));
    node(g, x / y, (1. / y, a), (x * (-(1. / y.powi(2))), b))
}

fn pow(g: &mut Graph<f64>, a: usize, b: usize) -> usize {
    let (x, y) = (g.value(a), g.value(b));
    node(g, x.powf(y), (y * x.powf(y - 1.), a), (x.powf(y) * x.ln(), b))
}

fn backward(g: &mut Graph<f64>, root: usize, seed: f64) {
    let plan = g.tour(root);
    let mut contrib: Vec<f64> = Vec::new();
    for v in &plan {
        let c = match v.via {
            None => seed,
            Some((at, j)) => contrib[at] * g.parent(plan[at].node, j).0,
        };
        contrib.push(c);
        let old = g.grad(v.node);
        g.set_grad(v.node, old + c);
    }
}

/// `1/(x^2 + y^2) - x*y`
fn example(g: &mut Graph<f64>, x: usize, y: usize) -> usize {
    let one = leaf(g, 1.);
    let two_a = leaf(g, 2.);
    let xx = pow(g, x, two_a);
    let two_b = leaf(g, 2.);
    let yy = pow(g, y, two_b);
    let s = add(g, xx, yy);
    let q = div(g, one, s);
    let xy = mul(g, x, y);
    sub(g, q, xy)
}

#[test]
fn var_calc_grad() {
    let mut g = Graph::new(0.);
    let x = leaf(&mut g, 2.);
    let y = leaf(&mut g, 1.);
    let f = example(&mut g, x, y);
    backward(&mut g, f, 1.);
    assert_eq!(g.grad(x), -1.16);
    assert_eq!(g.grad(y), -2.08);
    assert_eq!(g.value(f), -1.8);
}

#[test]
fn shared_operand_sums_both_paths() {
    let mut g = Graph::new(0.);
    let x = leaf(&mut g, 3.);
    let f = mul(&mut g, x, x);
    let plan = g.tour(f);
    assert_eq!(
        plan,
        vec![
            Visit { node: f, via: None },
            Visit { node: x, via: Some((0, 0)) },
            Visit { node: x, via: Some((0, 1)) },
        ]
    );
    backward(&mut g, f, 1.);
    assert_eq!(g.grad(x), 2. * g.value(x));
    assert_eq!(g.grad(x), 6.);
}

#[test]
fn tour_visits_once_per_path() {
    // d = (a + b) * (a - b): `a` and `b` are each reached along two paths.
    let mut g = Graph::new(0.);
    let a = leaf(&mut g, 5.);
    let b = leaf(&mut g, 2.);
    let s = add(&mut g, a, b);
    let t = sub(&mut g, a, b);
    let d = mul(&mut g, s, t);
    let plan = g.tour(d);
    let nodes: Vec<usize> = plan.iter().map(|v| v.node).collect();
    assert_eq!(nodes, vec![d, s, a, b, t, a, b]);
    assert_eq!(plan[2].via, Some((1, 0)));
    assert_eq!(plan[6].via, Some((4, 1)));
    backward(&mut g, d, 1.);
    assert_eq!(g.grad(a), 10.);
    assert_eq!(g.grad(b), -4.);
    assert_eq!(g.grad(d), 1.);
}

#[test]
fn seed_scales_every_gradient() {
    let mut g1 = Graph::new(0.);
    let x1 = leaf(&mut g1, 2.);
    let y1 = leaf(&mut g1, 1.);
    let f1 = example(&mut g1, x1, y1);
    backward(&mut g1, f1, 1.);
    let mut g2 = Graph::new(0.);
    let x2 = leaf(&mut g2, 2.);
    let y2 = leaf(&mut g2, 1.);
    let f2 = example(&mut g2, x2, y2);
    backward(&mut g2, f2, 2.);
    for i in 0..g1.size() {
        assert_eq!(g2.grad(i), 2. * g1.grad(i));
    }
    let mut g3 = Graph::new(0.);
    let x3 = leaf(&mut g3, 2.);
    let y3 = leaf(&mut g3, 1.);
    let f3 = example(&mut g3, x3, y3);
    backward(&mut g3, f3, -0.3);
    assert!((g3.grad(x3) - (-0.3) * g1.grad(x1)).abs() < 1e-12);
    assert!((g3.grad(y3) - (-0.3) * g1.grad(y1)).abs() < 1e-12);
}

#[test]
fn gradients_accumulate_until_cleared() {
    let mut g = Graph::new(0.);
    let x = leaf(&mut g, 2.);
    let y = leaf(&mut g, 1.);
    let f = example(&mut g, x, y);
    backward(&mut g, f, 1.);
    backward(&mut g, f, 1.);
    assert_eq!(g.grad(x), -2.32);
    g.clear_grads();
    for i in 0..g.size() {
        assert_eq!(g.grad(i), 0.);
    }
    let f2 = example(&mut g, x, y);
    backward(&mut g, f2, 1.);
    assert_eq!(g.grad(x), -1.16);
    assert_eq!(g.grad(y), -2.08);
}

#[test]
fn set_value_does_not_reach_built_nodes() {
    let mut g = Graph::new(0.);
    let a = leaf(&mut g, 1.5);
    let b = leaf(&mut g, 2.);
    let c = add(&mut g, a, b);
    let m = mul(&mut g, a, b);
    g.set_value(a, 10.);
    assert_eq!(g.value(a), 10.);
    assert_eq!(g.value(c), 3.5);
    assert_eq!(g.value(m), 3.);
    assert_eq!(g.parent(m, 0), (2., a));
    assert_eq!(g.parent(m, 1), (1.5, b));
}

#[test]
fn node_rejects_unknown_operand() {
    let mut g = Graph::new(0.);
    let a = leaf(&mut g, 1.);
    assert_eq!(g.node(4., vec![(1., a), (1., 7)]), None);
    assert_eq!(g.size(), 1);
    assert_eq!(g.node(4., vec![(1., a), (1., 1)]), None);
    assert_eq!(g.node(4., vec![(1., a), (1., a)]), Some(1));
    assert_eq!(g.arity(1), 2);
    assert_eq!(g.arity(a), 0);
    assert_eq!(g.grad(1), 0.);
}

#[test]
fn truncate_keeps_earlier_nodes() {
    let mut g = Graph::new(0.);
    let a = leaf(&mut g, 1.);
    let b = leaf(&mut g, 2.);
    let mark = g.size();
    let c = mul(&mut g, a, b);
    let _ = add(&mut g, c, a);
    assert_eq!(g.size(), 4);
    g.truncate(mark);
    assert_eq!(g.size(), 2);
    assert_eq!(g.value(b), 2.);
    g.truncate(10);
    assert_eq!(g.size(), 2);
    assert_eq!(g.tour(b), vec![Visit { node: b, via: None }]);
}

struct Lcg(u64);

impl Lcg {
    fn next(&mut self) -> f64 {
        self.0 = self.0.wrapping_mul(6364136223846793005).wrapping_add(1442695040888963407);
        (self.0 >> 11) as f64 / (1u64 << 53) as f64
    }
}

fn check_operator(op: fn(&mut Graph<f64>, usize, usize) -> usize, lo: f64, hi: f64) {
    let mut rng = Lcg(17);
    let h = 1e-6;
    for _ in 0..25 {
        let x = lo + (hi - lo) * rng.next();
        let y = lo + (hi - lo) * rng.next();
        let eval = |x: f64, y: f64| {
            let mut g = Graph::new(0.);
            let a = leaf(&mut g, x);
            let b = leaf(&mut g, y);
            let f = op(&mut g, a, b);
            g.value(f)
        };
        let mut g = Graph::new(0.);
        let a = leaf(&mut g, x);
        let b = leaf(&mut g, y);
        let f = op(&mut g, a, b);
        backward(&mut g, f, 1.);
        let dx = (eval(x + h, y) - eval(x - h, y)) / (2. * h);
        let dy = (eval(x, y + h) - eval(x, y - h)) / (2. * h);
        assert!((g.grad(a) - dx).abs() < 1e-4 * (1. + dx.abs()), "{} {}", x, y);
        assert!((g.grad(b) - dy).abs() < 1e-4 * (1. + dy.abs()), "{} {}", x, y);
    }
}

#[test]
fn operators_match_finite_differences() {
    check_operator(add, -3., 3.);
    check_operator(sub, -3., 3.);
    check_operator(mul, -3., 3.);
    check_operator(div, 0.5, 3.);
    check_operator(pow, 0.5, 2.5);
}

#[test]
fn parameter_count_of_shapes() {
    assert_eq!(param_count(&vec![2, 5, 5, 1]), Some(51));
    assert_eq!(param_count(&vec![2, 2, 1]), Some(9));
    assert_eq!(param_count(&vec![3]), Some(0));
    assert_eq!(param_count(&vec![]), Some(0));
    assert_eq!(param_count(&vec![usize::MAX, 2]), None);
    assert_eq!(param_count(&vec![usize::MAX, 0]), Some(0));
    assert_eq!(full_shape(2, &vec![5, 5], 1), vec![2, 5, 5, 1]);
    assert_eq!(full_shape(3, &vec![], 4), vec![3, 4]);
}

#[test]
fn layers_take_initial_values_in_order() {
    let mut g = Graph::new(0.);
    let x = leaf(&mut g, 9.);
    let shape = vec![2, 3, 1];
    let init: Vec<f64> = (0..13).map(|i| i as f64).collect();
    let layers: Vec<Layer> = build_layers(&mut g, &shape, &init);
    assert_eq!(layers.len(), 2);
    assert_eq!(layers[0].neurons.len(), 3);
    assert_eq!(layers[1].neurons.len(), 1);
    assert_eq!(layers[0].neurons[1].weights, vec![4, 5]);
    assert_eq!(layers[0].neurons[1].bias, 6);
    assert_eq!(layers[1].neurons[0].weights, vec![10, 11, 12]);
    assert_eq!(g.value(layers[1].neurons[0].bias), 12.);
    assert_eq!(params(&layers), (1..14).collect::<Vec<usize>>());
    assert_eq!(g.value(x), 9.);
    assert_eq!(g.size(), 14);
}

fn sigmoid(g: &mut Graph<f64>, x: usize) -> usize {
    let one = leaf(g, 1.);
    let one_b = leaf(g, 1.);
    let e = leaf(g, std::f64::consts::E);
    let zero = leaf(g, 0.);
    let neg = sub(g, zero, x);
    let p = pow(g, e, neg);
    let d = add(g, one_b, p);
    div(g, one, d)
}

fn forward(g: &mut Graph<f64>, layers: &[Layer], input: &[f64]) -> Vec<usize> {
    let mut current: Vec<usize> = input.iter().map(|v| leaf(g, *v)).collect();
    for layer in layers {
        let mut next = Vec::new();
        for n in &layer.neurons {
            let mut acc = leaf(g, 0.);
            for (w, i) in n.weights.iter().zip(&current) {
                let t = mul(g, *w, *i);
                acc = add(g, acc, t);
            }
            let z = add(g, acc, n.bias);
            next.push(sigmoid(g, z));
        }
        current = next;
    }
    current
}

#[test]
fn training_learns_nand() {
    let data = [([0., 0.], 1.), ([0., 1.], 1.), ([1., 0.], 1.), ([1., 1.], 0.)];
    let shape = full_shape(2, &vec![3], 1);
    let count = param_count(&shape).unwrap();
    let mut rng = Lcg(5);
    let init: Vec<f64> = (0..count).map(|_| rng.next()).collect();
    let mut g = Graph::new(0.);
    let layers = build_layers(&mut g, &shape, &init);
    let ids = params(&layers);
    let mark = g.size();
    for _ in 0..5000 {
        let mut loss = leaf(&mut g, 0.);
        for (input, real) in &data {
            let out = forward(&mut g, &layers, input)[0];
            let r = leaf(&mut g, *real);
            let diff = sub(&mut g, out, r);
            let two = leaf(&mut g, 2.);
            let sq = pow(&mut g, diff, two);
            loss = add(&mut g, loss, sq);
        }
        backward(&mut g, loss, 1.);
        for &p in &ids {
            let v = g.value(p) - g.grad(p) * 1.0;
            g.set_value(p, v);
            g.set_grad(p, 0.);
        }
        g.truncate(mark);
    }
    for (input, real) in &data {
        let out = forward(&mut g, &layers, input)[0];
        assert!((g.value(out) - real).abs() < 0.1, "{:?} {}", input, g.value(out));
    }
}
