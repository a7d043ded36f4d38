//! The pass as a cursor: what it asks for, what it stores, and when a rule
//! holds back.

use micrograd_rs::double::{is_non_negative, rectify};
use micrograd_rs::{Factor, Graph, Prev, Request, Rule, Scale, Update, Value, ONE, ZERO};

fn bits(x: f64) -> u64 {
    x.to_bits()
}

#[test]
fn rule_table() {
    let (a, b) = (Prev { id: 3 }, Prev { id: 5 });
    assert_eq!(
        Rule::Add { lhs: a, rhs: b }.updates(),
        vec![
            Update { target: a, factor: Factor::One, subtract: false },
            Update { target: b, factor: Factor::One, subtract: false },
        ]
    );
    assert_eq!(
        Rule::Sub { lhs: a, rhs: b }.updates(),
        vec![
            Update { target: a, factor: Factor::One, subtract: true },
            Update { target: b, factor: Factor::One, subtract: true },
        ]
    );
    assert_eq!(
        Rule::Mul { lhs: a, rhs: b }.updates(),
        vec![
            Update { target: a, factor: Factor::ValueOf(b), subtract: false },
            Update { target: b, factor: Factor::ValueOf(a), subtract: false },
        ]
    );
    assert_eq!(
        Rule::Pow { base: a, exponent: b }.updates(),
        vec![
            Update { target: a, factor: Factor::PowerSlope { base: a, exponent: b }, subtract: false },
            Update { target: b, factor: Factor::PowerLog { base: a, exponent: b }, subtract: false },
        ]
    );
    assert_eq!(
        Rule::Relu { input: a }.updates(),
        vec![Update { target: a, factor: Factor::One, subtract: false }]
    );
}

#[test]
fn rule_labels_and_links() {
    let (a, b) = (Prev { id: 3 }, Prev { id: 5 });
    assert_eq!(Rule::Add { lhs: a, rhs: b }.label_text(), "+");
    assert_eq!(Rule::Sub { lhs: a, rhs: b }.label_text(), "-");
    assert_eq!(Rule::Mul { lhs: a, rhs: b }.label_text(), "*");
    assert_eq!(Rule::Pow { base: a, exponent: b }.label_text(), "pow");
    assert_eq!(Rule::Relu { input: a }.label_text(), "relu");
    assert_eq!(Rule::Mul { lhs: b, rhs: a }.links(), vec![b, a]);
    assert_eq!(Rule::Mul { lhs: b, rhs: b }.links(), vec![b]);
    assert_eq!(Rule::Relu { input: a }.links(), vec![a]);
}

#[test]
fn only_the_rectifier_holds_back() {
    let (a, b) = (Prev { id: 0 }, Prev { id: 1 });
    let samples = [
        0.0,
        -0.0,
        1.0,
        -1.0,
        5e-324,
        -5e-324,
        f64::MAX,
        f64::MIN,
        f64::INFINITY,
        f64::NEG_INFINITY,
        f64::NAN,
        -f64::NAN,
        f64::MIN_POSITIVE,
        -f64::MIN_POSITIVE,
        1e-310,
        -1e-310,
    ];
    for x in samples {
        assert_eq!(Rule::Relu { input: a }.fires(bits(x)), x >= 0.0, "{x}");
        assert!(Rule::Add { lhs: a, rhs: b }.fires(bits(x)));
        assert!(Rule::Sub { lhs: a, rhs: b }.fires(bits(x)));
        assert!(Rule::Mul { lhs: a, rhs: b }.fires(bits(x)));
        assert!(Rule::Pow { base: a, exponent: b }.fires(bits(x)));
    }
    for raw in [0x7FF0_0000_0000_0001u64, 0x7FFF_FFFF_FFFF_FFFF, 0xFFF8_0000_0000_0000, 0x8000_0000_0000_0001] {
        assert_eq!(Rule::Relu { input: a }.fires(raw), f64::from_bits(raw) >= 0.0);
    }
}

#[test]
fn requests_name_target_numbers_and_sign() {
    let mut g = Graph::new();
    let a = Value::new(&mut g, bits(3.0));
    let b = Value::new(&mut g, bits(-4.0));
    a.set_grad(&mut g, bits(0.5));
    let p = a.pow_i(&mut g, &b, bits(9.0));
    let d = p.sub(&mut g, &a, bits(8.0));
    let mut pass = d.backward(&mut g);

    let r = pass.request(&g).unwrap();
    assert_eq!(
        r,
        Request { target: p.link(), gradient: ZERO, upstream: ONE, scale: Scale::One, subtract: true }
    );
    assert_eq!(pass.request(&g), Some(r));
    pass.commit(&mut g, bits(-1.0));
    assert_eq!(p.grad(&g), bits(-1.0));

    let r = pass.request(&g).unwrap();
    assert_eq!(
        r,
        Request { target: a.link(), gradient: bits(0.5), upstream: ONE, scale: Scale::One, subtract: true }
    );
    pass.commit(&mut g, bits(-0.5));

    let r = pass.request(&g).unwrap();
    assert_eq!(
        r,
        Request {
            target: a.link(),
            gradient: bits(-0.5),
            upstream: bits(-1.0),
            scale: Scale::PowerSlope { base: bits(3.0), exponent: bits(-4.0) },
            subtract: false,
        }
    );
    pass.commit(&mut g, bits(2.0));

    let r = pass.request(&g).unwrap();
    assert_eq!(
        r,
        Request {
            target: b.link(),
            gradient: ZERO,
            upstream: bits(-1.0),
            scale: Scale::PowerLog { base: bits(3.0), exponent: bits(-4.0) },
            subtract: false,
        }
    );
    pass.commit(&mut g, bits(6.0));

    assert_eq!(pass.request(&g), None);
    pass.commit(&mut g, bits(123.0));
    assert_eq!(pass.request(&g), None);
    assert_eq!(
        (d.grad(&g), p.grad(&g), a.grad(&g), b.grad(&g)),
        (ONE, bits(-1.0), bits(2.0), bits(6.0))
    );
    assert_eq!((a.data(&g), b.data(&g), p.data(&g), d.data(&g)), (bits(3.0), bits(-4.0), bits(9.0), bits(8.0)));
}

#[test]
fn a_held_back_rectifier_is_passed_over() {
    let mut g = Graph::new();
    let a = Value::new(&mut g, bits(2.0));
    let r = a.relu(&mut g);
    let m = Value::new(&mut g, bits(-1.0));
    let top = r.mul(&mut g, &m, bits(-2.0));
    let mut pass = top.backward(&mut g);
    assert_eq!(pass.plan().len(), 2);

    let first = pass.request(&g).unwrap();
    assert_eq!(first.target, r.link());
    assert_eq!(first.scale, Scale::By(bits(-1.0)));
    pass.commit(&mut g, bits(-1.0));
    let second = pass.request(&g).unwrap();
    assert_eq!(second.target, m.link());
    assert_eq!(second.scale, Scale::By(bits(2.0)));
    pass.commit(&mut g, bits(2.0));

    // The rectifier's gradient is negative, so its rule makes no change.
    assert_eq!(pass.request(&g), None);
    assert_eq!(a.grad(&g), ZERO);
}

#[test]
fn product_reads_values_and_current_gradients() {
    let mut g = Graph::new();
    let a = Value::new(&mut g, bits(3.0));
    let sq = a.mul(&mut g, &a, bits(9.0));
    let mut pass = sq.backward(&mut g);
    let r = pass.request(&g).unwrap();
    assert_eq!(
        r,
        Request { target: a.link(), gradient: ZERO, upstream: ONE, scale: Scale::By(bits(3.0)), subtract: false }
    );
    pass.commit(&mut g, bits(3.0));
    let r = pass.request(&g).unwrap();
    assert_eq!(
        r,
        Request {
            target: a.link(),
            gradient: bits(3.0),
            upstream: ONE,
            scale: Scale::By(bits(3.0)),
            subtract: false,
        }
    );
    pass.commit(&mut g, bits(6.0));
    assert_eq!(pass.request(&g), None);
    assert_eq!(a.grad(&g), bits(6.0));
}

fn samples() -> Vec<f64> {
    vec![
        0.0,
        -0.0,
        1.0,
        -1.0,
        0.5,
        -2.0,
        5e-324,
        -5e-324,
        1e-310,
        -1e-310,
        f64::MIN_POSITIVE,
        -f64::MIN_POSITIVE,
        f64::MAX,
        f64::MIN,
        f64::INFINITY,
        f64::NEG_INFINITY,
        f64::NAN,
        -f64::NAN,
        f64::from_bits(0x7FF0_0000_0000_0001),
        f64::from_bits(0x7FFF_FFFF_FFFF_FFFF),
        f64::from_bits(0xFFF0_0000_0000_0001),
        f64::from_bits(0xFFFF_FFFF_FFFF_FFFF),
        f64::from_bits(0x8000_0000_0000_0001),
    ]
}

#[test]
fn comparison_with_zero_is_that_of_doubles() {
    for x in samples() {
        assert_eq!(is_non_negative(bits(x)), x >= 0.0, "{x}");
    }
}

#[test]
fn rectifier_is_the_greater_of_value_and_zero() {
    for x in samples() {
        let r = f64::from_bits(rectify(bits(x)));
        let expected = x.max(0.0);
        assert_eq!(r, expected, "{x}");
        if x > 0.0 {
            assert_eq!(rectify(bits(x)), bits(x));
        } else {
            assert_eq!(rectify(bits(x)), ZERO);
        }
    }
    let mut g = Graph::new();
    let a = Value::new(&mut g, bits(-2.0));
    let b = Value::new(&mut g, bits(3.5));
    let ra = a.relu(&mut g);
    let rb = b.relu(&mut g);
    assert_eq!(ra.data(&g), bits(0.0));
    assert_eq!(rb.data(&g), bits(3.5));
}
