//! End-to-end runs of the engine with double-precision arithmetic supplied
//! by the test: values are computed here and handed to the library as bit
//! patterns, and the schedule that the library returns is carried out here.

use micrograd_rs::nn::zero_grad;
use micrograd_rs::{Graph, Request, Scale, Value};

fn num(bits: u64) -> f64 {
    f64::from_bits(bits)
}

fn value_of(g: &Graph, v: Value) -> f64 {
    num(v.data(g))
}

fn grad_of(g: &Graph, v: Value) -> f64 {
    num(v.grad(g))
}

fn leaf(g: &mut Graph, x: f64) -> Value {
    Value::new(g, x.to_bits())
}

fn add(g: &mut Graph, a: Value, b: Value) -> Value {
    let v = value_of(g, a) + value_of(g, b);
    a.add(g, &b, v.to_bits())
}

fn sub(g: &mut Graph, a: Value, b: Value) -> Value {
    let v = value_of(g, a) - value_of(g, b);
    a.sub(g, &b, v.to_bits())
}

fn mul(g: &mut Graph, a: Value, b: Value) -> Value {
    let v = value_of(g, a) * value_of(g, b);
    a.mul(g, &b, v.to_bits())
}

fn pow_i(g: &mut Graph, a: Value, b: Value) -> Value {
    let v = value_of(g, a).powf(value_of(g, b));
    a.pow_i(g, &b, v.to_bits())
}

fn pow(g: &mut Graph, a: Value, e: f64) -> Value {
    let v = value_of(g, a).powf(e);
    a.pow(g, e.to_bits(), v.to_bits())
}

fn div(g: &mut Graph, a: Value, b: Value) -> Value {
    let inverse = value_of(g, b).powf(-1.0);
    let quotient = value_of(g, a) * inverse;
    a.div(g, &b, inverse.to_bits(), quotient.to_bits())
}

fn relu(g: &mut Graph, a: Value) -> Value {
    a.relu(g)
}

fn kernel(r: &Request) -> u64 {
    let upstream = num(r.upstream);
    let share = match r.scale {
        Scale::One => upstream,
        Scale::By(v) => upstream * num(v),
        Scale::PowerSlope { base, exponent } => {
            num(exponent) * num(base).powf(num(exponent) - 1.0) * upstream
        }
        Scale::PowerLog { base, exponent } => {
            num(base).powf(num(exponent)) * num(base).ln() * upstream
        }
    };
    let old = num(r.gradient);
    let new = if r.subtract { old - share } else { old + share };
    new.to_bits()
}

fn backward(g: &mut Graph, root: Value) {
    let mut pass = root.backward(g);
    while let Some(r) = pass.request(g) {
        pass.commit(g, kernel(&r));
    }
}

fn close(x: f64, y: f64) -> bool {
    (x - y).abs() <= 1e-12
}

#[test]
fn sum_hands_one_to_each_operand() {
    for (x, y) in [(1.0, 1.0), (-2.5, 7.0), (0.0, 1e300), (3.0, -3.0)] {
        let mut g = Graph::new();
        let a = leaf(&mut g, x);
        let b = leaf(&mut g, y);
        let out = add(&mut g, a, b);
        backward(&mut g, out);
        assert_eq!(value_of(&g, out), x + y);
        assert_eq!(grad_of(&g, out), 1.0);
        assert_eq!(grad_of(&g, a), 1.0);
        assert_eq!(grad_of(&g, b), 1.0);
    }
}

#[test]
fn product_hands_each_operand_the_other_value() {
    for (x, y) in [(1.0, 3.0), (-2.5, 7.0), (0.5, 1e300), (3.0, -3.0)] {
        let mut g = Graph::new();
        let a = leaf(&mut g, x);
        let b = leaf(&mut g, y);
        let out = mul(&mut g, a, b);
        backward(&mut g, out);
        assert_eq!(value_of(&g, out), x * y);
        assert_eq!(grad_of(&g, a), y);
        assert_eq!(grad_of(&g, b), x);
    }
}

#[test]
fn square_by_self_multiplication() {
    for x in [3.0, -1.5, 0.25] {
        let mut g = Graph::new();
        let a = leaf(&mut g, x);
        let out = mul(&mut g, a, a);
        assert_eq!(g.inner(&out).prev.len(), 1);
        backward(&mut g, out);
        assert_eq!(grad_of(&g, a), 2.0 * x);
    }
}

#[test]
fn power_rule_with_negative_exponent() {
    let mut g = Graph::new();
    let a = leaf(&mut g, 3.0);
    let b = leaf(&mut g, -1.0);
    let out = pow_i(&mut g, a, b);
    backward(&mut g, out);
    assert!(close(value_of(&g, out), 1.0 / 3.0));
    assert!(close(grad_of(&g, a), -1.0 / 9.0));
    assert!(close(grad_of(&g, b), (1.0 / 3.0) * 3.0f64.ln()));
}

#[test]
fn quotient_is_product_with_reciprocal() {
    for (x, y) in [(1.0, 3.0), (-4.0, 0.5), (7.0, -2.0)] {
        let mut g = Graph::new();
        let a = leaf(&mut g, x);
        let b = leaf(&mut g, y);
        let q = div(&mut g, a, b);
        backward(&mut g, q);

        let mut h = Graph::new();
        let c = leaf(&mut h, x);
        let d = leaf(&mut h, y);
        let r = pow(&mut h, d, -1.0);
        let p = mul(&mut h, c, r);
        backward(&mut h, p);

        assert_eq!(value_of(&g, q).to_bits(), value_of(&h, p).to_bits());
        assert_eq!(grad_of(&g, a).to_bits(), grad_of(&h, c).to_bits());
        assert_eq!(grad_of(&g, b).to_bits(), grad_of(&h, d).to_bits());
        assert!(close(value_of(&g, q), x / y));
        assert!(close(grad_of(&g, a), 1.0 / y));
        assert!(close(grad_of(&g, b), -x / (y * y)));
    }
}

#[test]
fn quotient_records_three_nodes() {
    let mut g = Graph::new();
    let a = leaf(&mut g, 1.0);
    let b = leaf(&mut g, 3.0);
    let q = div(&mut g, a, b);
    assert_eq!(g.len(), 5);
    assert_eq!(q.id, 4);
    let minus_one = Value { id: 2 };
    assert_eq!(value_of(&g, minus_one), -1.0);
    assert_eq!(g.inner(&minus_one).name, "pow -1.0");
    assert!(g.inner(&minus_one).backward.is_none());
    assert_eq!(g.inner(&Value { id: 3 }).op, "pow");
    assert_eq!(g.inner(&q).op, "*");
}

#[test]
fn rectifier_gates_on_upstream_gradient() {
    let mut g = Graph::new();
    let a = leaf(&mut g, -2.0);
    let out = relu(&mut g, a);
    assert_eq!(value_of(&g, out), 0.0);
    backward(&mut g, out);
    assert_eq!(grad_of(&g, a), 1.0);

    // A negative upstream gradient is held back even where the input is
    // positive.
    let mut h = Graph::new();
    let b = leaf(&mut h, 2.0);
    let r = relu(&mut h, b);
    let m = leaf(&mut h, -1.0);
    let top = mul(&mut h, r, m);
    backward(&mut h, top);
    assert_eq!(grad_of(&h, r), -1.0);
    assert_eq!(grad_of(&h, b), 0.0);
}

#[test]
fn diamond_is_ordered_leaves_first() {
    let mut g = Graph::new();
    let a = leaf(&mut g, 2.0);
    let b = leaf(&mut g, 5.0);
    let s = add(&mut g, a, b);
    let t = sub(&mut g, a, b);
    let d = mul(&mut g, s, t);
    let order = d.topo_order(&g);
    assert_eq!(order.len(), 5);
    let at = |v: Value| order.iter().position(|x| *x == v).unwrap();
    for leaf in [a, b] {
        assert_eq!(order.iter().filter(|x| **x == leaf).count(), 1);
        assert!(at(leaf) < at(s));
        assert!(at(leaf) < at(t));
    }
    assert!(at(s) < at(d));
    assert!(at(t) < at(d));
    assert_eq!(at(d), 4);
    assert_eq!(order, vec![a, b, s, t, d]);
}

#[test]
fn cube_by_constant_exponent() {
    let mut g = Graph::new();
    let x = leaf(&mut g, 2.0);
    let y = pow(&mut g, x, 3.0);
    backward(&mut g, y);
    assert_eq!(value_of(&g, y), 8.0);
    assert_eq!(grad_of(&g, x), 12.0);
}

#[test]
fn second_pass_accumulates() {
    let mut g = Graph::new();
    let a = leaf(&mut g, 3.0);
    let b = leaf(&mut g, -4.0);
    let out = mul(&mut g, a, b);
    backward(&mut g, out);
    let (ga, gb) = (grad_of(&g, a), grad_of(&g, b));
    backward(&mut g, out);
    assert_eq!(grad_of(&g, a), 2.0 * ga);
    assert_eq!(grad_of(&g, b), 2.0 * gb);
    assert_eq!(grad_of(&g, out), 1.0);
}

#[test]
fn backward_from_a_leaf_only_seeds_it() {
    let mut g = Graph::new();
    let a = leaf(&mut g, 3.0);
    let b = leaf(&mut g, 4.0);
    let mut pass = a.backward(&mut g);
    assert!(pass.plan().is_empty());
    assert!(pass.request(&g).is_none());
    pass.commit(&mut g, 7.0f64.to_bits());
    assert_eq!(grad_of(&g, a), 1.0);
    assert_eq!(grad_of(&g, b), 0.0);
}

#[test]
fn difference_takes_from_both_operands() {
    let mut g = Graph::new();
    let a = leaf(&mut g, 5.0);
    let b = leaf(&mut g, 2.0);
    let out = sub(&mut g, a, b);
    backward(&mut g, out);
    assert_eq!(value_of(&g, out), 3.0);
    assert_eq!(grad_of(&g, a), -1.0);
    assert_eq!(grad_of(&g, b), -1.0);
}

#[test]
fn second_pass_over_an_inner_node_adds_its_grown_gradient() {
    let mut g = Graph::new();
    let a = leaf(&mut g, 2.0);
    let b = leaf(&mut g, 3.0);
    let c = leaf(&mut g, 4.0);
    let mid = add(&mut g, a, b);
    let y = mul(&mut g, mid, c);
    backward(&mut g, y);
    assert_eq!(grad_of(&g, mid), 4.0);
    assert_eq!(grad_of(&g, a), 4.0);
    assert_eq!(grad_of(&g, c), 5.0);
    backward(&mut g, y);
    assert_eq!(grad_of(&g, y), 1.0);
    assert_eq!(grad_of(&g, mid), 8.0);
    assert_eq!(grad_of(&g, c), 10.0);
    assert_eq!(grad_of(&g, a), 12.0);
    assert_eq!(grad_of(&g, b), 12.0);
}

#[test]
fn chain_rule_through_shared_node() {
    // f = (a * b + a) * (a * b + a): df/da = 2 (ab + a) (b + 1), df/db = 2 (ab + a) a
    let mut g = Graph::new();
    let a = leaf(&mut g, 1.5);
    let b = leaf(&mut g, -2.0);
    let ab = mul(&mut g, a, b);
    let s = add(&mut g, ab, a);
    let f = mul(&mut g, s, s);
    backward(&mut g, f);
    let sv = 1.5 * -2.0 + 1.5;
    assert_eq!(value_of(&g, f), sv * sv);
    assert_eq!(grad_of(&g, s), 2.0 * sv);
    assert_eq!(grad_of(&g, a), 2.0 * sv * (-2.0 + 1.0));
    assert_eq!(grad_of(&g, b), 2.0 * sv * 1.5);
}

#[test]
fn power_of_a_node_by_itself_changes_it_twice() {
    let mut g = Graph::new();
    let a = leaf(&mut g, 2.0);
    let out = pow_i(&mut g, a, a);
    assert_eq!(g.inner(&out).prev.len(), 1);
    backward(&mut g, out);
    let slope = 2.0 * 2.0f64.powf(1.0);
    let log = 2.0f64.powf(2.0) * 2.0f64.ln();
    assert_eq!(grad_of(&g, a), (0.0 + slope) + log);
}

#[test]
fn training_steps_on_one_neuron() {
    // One linear neuron, w * x + b, fitted to the target 2 at x = 1.
    let mut g = Graph::new();
    let w = leaf(&mut g, 0.5);
    let b = leaf(&mut g, 0.25);
    let parameters = vec![w.link(), b.link()];
    let weights_only = g.len();
    let mut losses = Vec::new();
    for _ in 0..20 {
        let x = leaf(&mut g, 1.0);
        let minus_target = leaf(&mut g, -2.0);
        let wx = mul(&mut g, w, x);
        let out = add(&mut g, wx, b);
        let miss = add(&mut g, out, minus_target);
        let loss = mul(&mut g, miss, miss);
        zero_grad(&mut g, &parameters);
        backward(&mut g, loss);
        losses.push(value_of(&g, loss));
        let err = value_of(&g, out) - 2.0;
        assert_eq!(grad_of(&g, w), 2.0 * err);
        assert_eq!(grad_of(&g, b), 2.0 * err);
        for p in [w, b] {
            let stepped = value_of(&g, p) - 0.1 * grad_of(&g, p);
            p.set_data(&mut g, stepped.to_bits());
        }
        g.truncate(weights_only);
        assert_eq!(g.len(), 2);
    }
    assert!(losses[0] > 1.0);
    assert!(losses[19] < 1e-6);
    assert!(losses.windows(2).all(|p| p[1] <= p[0]));
}
