//! The graph itself: leaves, recorded nodes, handles, order and schedule.

use micrograd_rs::backward::Step;
use micrograd_rs::nn::{layer_shapes, zero_grad, LayerShape};
use micrograd_rs::{Graph, Prev, Rule, Value, ValueInner, NEG_ONE, ONE, ZERO};

#[test]
fn constants_are_the_bit_patterns_of_the_doubles() {
    assert_eq!(ZERO, 0.0f64.to_bits());
    assert_eq!(ONE, 1.0f64.to_bits());
    assert_eq!(NEG_ONE, (-1.0f64).to_bits());
}

#[test]
fn fresh_leaf_has_no_history() {
    let inner = ValueInner::new(42);
    assert_eq!(inner.data, 42);
    assert_eq!(inner.grad, ZERO);
    assert!(inner.backward.is_none());
    assert!(inner.prev.is_empty());
    assert_eq!(inner.op, "");
    assert_eq!(inner.name, "");
    let named = ValueInner::new_with_name(7, "weight".to_string());
    assert_eq!(named.data, 7);
    assert_eq!(named.grad, ZERO);
    assert!(named.backward.is_none());
    assert!(named.prev.is_empty());
    assert_eq!(named.op, "");
    assert_eq!(named.name, "weight");
}

#[test]
fn leaves_get_consecutive_handles() {
    let mut g = Graph::new();
    assert_eq!(g.len(), 0);
    let a = Value::new(&mut g, 11);
    let b = Value::new_with_name(&mut g, 22, "b".to_string());
    assert_eq!((a.id, b.id), (0, 1));
    assert_eq!(g.len(), 2);
    assert_eq!(a.data(&g), 11);
    assert_eq!(b.data(&g), 22);
    assert_eq!(a.grad(&g), ZERO);
    assert_eq!(g.inner(&b).name, "b");
    assert_eq!(g.inner(&a).name, "");
}

#[test]
fn handles_to_one_node_share_its_state() {
    let mut g = Graph::new();
    let a = Value::new(&mut g, 1);
    let again = a.link().value();
    assert_eq!(a, again);
    again.set_data(&mut g, 5);
    again.set_grad(&mut g, 6);
    assert_eq!(a.data(&g), 5);
    assert_eq!(a.grad(&g), 6);
}

#[test]
fn recorded_nodes_carry_label_rule_and_predecessors() {
    let mut g = Graph::new();
    let a = Value::new(&mut g, 1);
    let b = Value::new(&mut g, 2);
    let (pa, pb) = (a.link(), b.link());
    let sum = a.add(&mut g, &b, 30);
    let dif = a.sub(&mut g, &b, 40);
    let pro = a.mul(&mut g, &b, 50);
    let pw = a.pow_i(&mut g, &b, 60);
    let rl = a.relu(&mut g);
    let cases = [
        (sum, "+", Rule::Add { lhs: pa, rhs: pb }, 30, vec![pa, pb]),
        (dif, "-", Rule::Sub { lhs: pa, rhs: pb }, 40, vec![pa, pb]),
        (pro, "*", Rule::Mul { lhs: pa, rhs: pb }, 50, vec![pa, pb]),
        (pw, "pow", Rule::Pow { base: pa, exponent: pb }, 60, vec![pa, pb]),
        (rl, "relu", Rule::Relu { input: pa }, 1, vec![pa]),
    ];
    for (i, (v, op, rule, data, prev)) in cases.into_iter().enumerate() {
        assert_eq!(v.id, 2 + i);
        let inner = g.inner(&v);
        assert_eq!(inner.op, op);
        assert_eq!(inner.name, "");
        assert_eq!(inner.backward, Some(rule));
        assert_eq!(inner.data, data);
        assert_eq!(inner.grad, ZERO);
        assert_eq!(inner.prev, prev);
    }
}

#[test]
fn same_operand_twice_is_one_predecessor() {
    let mut g = Graph::new();
    let a = Value::new(&mut g, 1);
    let pa = a.link();
    for v in [a.add(&mut g, &a, 0), a.sub(&mut g, &a, 0), a.mul(&mut g, &a, 0), a.pow_i(&mut g, &a, 0)] {
        assert_eq!(g.inner(&v).prev, vec![pa]);
        assert_eq!(g.inner(&v).backward.unwrap().updates().len(), 2);
    }
}

#[test]
fn constant_exponent_becomes_an_unnamed_leaf() {
    let mut g = Graph::new();
    let a = Value::new(&mut g, 1);
    let out = a.pow(&mut g, 3.0f64.to_bits(), 9);
    assert_eq!(g.len(), 3);
    assert_eq!(out.id, 2);
    let e = Value { id: 1 };
    assert_eq!(e.data(&g), 3.0f64.to_bits());
    assert_eq!(g.inner(&e).name, "");
    assert!(g.inner(&e).backward.is_none());
    assert_eq!(g.inner(&out).backward, Some(Rule::Pow { base: a.link(), exponent: e.link() }));
    assert_eq!(out.data(&g), 9);
}

#[test]
fn changing_a_leaf_leaves_derived_values() {
    let mut g = Graph::new();
    let a = Value::new(&mut g, 1);
    let b = Value::new(&mut g, 2);
    let s = a.add(&mut g, &b, 3);
    a.set_data(&mut g, 100);
    assert_eq!(a.data(&g), 100);
    assert_eq!(b.data(&g), 2);
    assert_eq!(s.data(&g), 3);
    assert_eq!(g.inner(&s).prev, vec![a.link(), b.link()]);
}

#[test]
fn order_lists_only_what_the_root_reaches() {
    let mut g = Graph::new();
    let a = Value::new(&mut g, 1);
    let b = Value::new(&mut g, 2);
    let c = Value::new(&mut g, 3);
    let ab = a.mul(&mut g, &b, 0);
    let bc = b.mul(&mut g, &c, 0);
    let top = ab.add(&mut g, &a, 0);
    assert_eq!(top.topo_order(&g), vec![a, b, ab, top]);
    assert_eq!(bc.topo_order(&g), vec![b, c, bc]);
    assert_eq!(c.topo_order(&g), vec![c]);
}

#[test]
fn order_follows_the_predecessor_list() {
    let mut g = Graph::new();
    let a = Value::new(&mut g, 1);
    let b = Value::new(&mut g, 2);
    let ba = b.sub(&mut g, &a, 0);
    assert_eq!(ba.topo_order(&g), vec![b, a, ba]);
    let chain = ba.relu(&mut g);
    let top = a.mul(&mut g, &chain, 0);
    assert_eq!(top.topo_order(&g), vec![a, b, ba, chain, top]);
}

#[test]
fn schedule_runs_from_the_root_down_without_leaves() {
    let mut g = Graph::new();
    let a = Value::new(&mut g, 1);
    let b = Value::new(&mut g, 2);
    let s = a.add(&mut g, &b, 0);
    let t = a.sub(&mut g, &b, 0);
    let d = s.mul(&mut g, &t, 0);
    let pass = d.backward(&mut g);
    assert_eq!(
        *pass.plan(),
        vec![
            Step { node: d, rule: Rule::Mul { lhs: s.link(), rhs: t.link() } },
            Step { node: t, rule: Rule::Sub { lhs: a.link(), rhs: b.link() } },
            Step { node: s, rule: Rule::Add { lhs: a.link(), rhs: b.link() } },
        ]
    );
    assert_eq!(d.grad(&g), ONE);
    for v in [a, b, s, t] {
        assert_eq!(v.grad(&g), ZERO);
    }
}

#[test]
fn backward_seeds_without_resetting() {
    let mut g = Graph::new();
    let a = Value::new(&mut g, 1);
    let b = Value::new(&mut g, 2);
    let s = a.add(&mut g, &b, 0);
    a.set_grad(&mut g, 77);
    s.set_grad(&mut g, 88);
    let first = s.backward(&mut g).plan().clone();
    assert_eq!(s.grad(&g), ONE);
    assert_eq!(a.grad(&g), 77);
    let second = s.backward(&mut g).plan().clone();
    assert_eq!(first, second);
    assert_eq!(a.grad(&g), 77);
}

#[test]
fn zero_grad_resets_the_listed_nodes_only() {
    let mut g = Graph::new();
    let a = Value::new(&mut g, 1);
    let b = Value::new(&mut g, 2);
    let c = Value::new(&mut g, 3);
    for v in [a, b, c] {
        v.set_grad(&mut g, 9);
    }
    let listed: Vec<Prev> = vec![a.link(), c.link(), a.link()];
    zero_grad(&mut g, &listed);
    assert_eq!(a.grad(&g), ZERO);
    assert_eq!(b.grad(&g), 9);
    assert_eq!(c.grad(&g), ZERO);
    assert_eq!((a.data(&g), b.data(&g), c.data(&g)), (1, 2, 3));
    zero_grad(&mut g, &Vec::new());
    assert_eq!(b.grad(&g), 9);
}

#[test]
fn truncate_forgets_the_newest_nodes() {
    let mut g = Graph::new();
    let a = Value::new(&mut g, 1);
    let b = Value::new(&mut g, 2);
    let s = a.add(&mut g, &b, 3);
    let _ = s.relu(&mut g);
    g.truncate(7);
    assert_eq!(g.len(), 4);
    g.truncate(2);
    assert_eq!(g.len(), 2);
    assert_eq!((a.data(&g), b.data(&g)), (1, 2));
    let again = a.mul(&mut g, &b, 2);
    assert_eq!(again.id, 2);
    assert_eq!(g.inner(&again).op, "*");
    g.truncate(0);
    assert_eq!(g.len(), 0);
}

#[test]
fn layers_chain_and_only_the_last_is_linear() {
    assert_eq!(
        layer_shapes(2, &vec![16, 16, 1]),
        vec![
            LayerShape { n_inputs: 2, n_outputs: 16, non_lin: true },
            LayerShape { n_inputs: 16, n_outputs: 16, non_lin: true },
            LayerShape { n_inputs: 16, n_outputs: 1, non_lin: false },
        ]
    );
    assert_eq!(
        layer_shapes(3, &vec![4]),
        vec![LayerShape { n_inputs: 3, n_outputs: 4, non_lin: false }]
    );
    assert_eq!(layer_shapes(5, &Vec::new()), Vec::new());
}
