use autodiff::{Computation, Step, Value, Weight};

fn step(into: usize, from: usize, weight: Weight) -> Step {
    Step::Accumulate { into, from, weight }
}

#[test]
fn the_order_starts_at_the_root_and_falls() {
    let mut g = Computation::new();
    let a = g.push(Value::new());
    let b = g.push(Value::new());
    let e = g.push(Value::add(a, b));
    let c = g.push(Value::new());
    let d = g.push(Value::sub(e, c));
    assert_eq!(g.topological_order(d), vec![d, c, e, b, a]);
    assert_eq!(g.topological_order(e), vec![e, b, a]);
    assert_eq!(g.topological_order(c), vec![c]);
}

#[test]
fn the_order_puts_every_consumer_before_its_operands() {
    let mut g = Computation::new();
    let x = g.push(Value::new());
    let a = g.push(Value::new());
    let b = g.push(Value::new());
    let left = g.push(Value::mul(x, a));
    let right = g.push(Value::mul(x, b));
    let y = g.push(Value::add(left, right));
    let order = g.topological_order(y);
    assert_eq!(order.len(), 6);
    for (i, &c) in order.iter().enumerate() {
        for p in g.node(c).operands() {
            let j = order.iter().position(|n| n == p).unwrap();
            assert!(i < j);
        }
    }
}

#[test]
fn backward_from_a_leaf_only_seeds_it() {
    let mut g = Computation::new();
    let a = g.push(Value::new());
    assert_eq!(g.backward(a), vec![Step::Seed { node: a }]);
}

#[test]
fn backward_from_a_sum_passes_the_gradient_to_both_operands() {
    let mut g = Computation::new();
    let a = g.push(Value::new());
    let b = g.push(Value::new());
    let s = g.push(Value::add(a, b));
    assert_eq!(
        g.backward(s),
        vec![Step::Seed { node: s }, step(a, s, Weight::One), step(b, s, Weight::One)]
    );
}

#[test]
fn backward_from_a_difference_negates_for_the_second_operand() {
    let mut g = Computation::new();
    let a = g.push(Value::new());
    let b = g.push(Value::new());
    let s = g.push(Value::sub(a, b));
    assert_eq!(
        g.backward(s),
        vec![Step::Seed { node: s }, step(a, s, Weight::One), step(b, s, Weight::MinusOne)]
    );
}

#[test]
fn backward_from_a_product_weighs_each_operand_by_the_other() {
    let mut g = Computation::new();
    let a = g.push(Value::new());
    let b = g.push(Value::new());
    let p = g.push(Value::mul(a, b));
    assert_eq!(
        g.backward(p),
        vec![
            Step::Seed { node: p },
            step(a, p, Weight::ValueOf(b)),
            step(b, p, Weight::ValueOf(a)),
        ]
    );
}

#[test]
fn backward_from_a_tanh_weighs_by_the_slope_at_the_operand() {
    let mut g = Computation::new();
    let a = g.push(Value::new());
    let t = g.push(Value::tanh(a));
    assert_eq!(g.backward(t), vec![Step::Seed { node: t }, step(a, t, Weight::TanhSlopeAt(a))]);
}

#[test]
fn backward_through_a_diamond_gives_one_step_for_each_edge() {
    let mut g = Computation::new();
    let x = g.push(Value::new());
    let a = g.push(Value::new());
    let b = g.push(Value::new());
    let left = g.push(Value::mul(x, a));
    let right = g.push(Value::mul(x, b));
    let y = g.push(Value::add(left, right));
    assert_eq!(
        g.backward(y),
        vec![
            Step::Seed { node: y },
            step(left, y, Weight::One),
            step(right, y, Weight::One),
            step(x, right, Weight::ValueOf(b)),
            step(b, right, Weight::ValueOf(x)),
            step(x, left, Weight::ValueOf(a)),
            step(a, left, Weight::ValueOf(x)),
        ]
    );
}

#[test]
fn backward_settles_a_gradient_before_handing_it_on() {
    let mut g = Computation::new();
    let x = g.push(Value::new());
    let t = g.push(Value::tanh(x));
    let u = g.push(Value::mul(x, t));
    let v = g.push(Value::sub(u, t));
    let w = g.push(Value::add(v, x));
    let tape = g.backward(w);
    for (i, earlier) in tape.iter().enumerate() {
        if let Step::Accumulate { from, .. } = earlier {
            for later in &tape[i + 1..] {
                match later {
                    Step::Seed { node } => assert_ne!(node, from),
                    Step::Accumulate { into, .. } => assert_ne!(into, from),
                }
            }
        }
    }
}

#[test]
fn backward_leaves_out_what_the_root_does_not_depend_on() {
    let mut g = Computation::new();
    let a = g.push(Value::new());
    let b = g.push(Value::new());
    let _other = g.push(Value::mul(a, b));
    let t = g.push(Value::tanh(a));
    assert_eq!(g.backward(t), vec![Step::Seed { node: t }, step(a, t, Weight::TanhSlopeAt(a))]);
}
