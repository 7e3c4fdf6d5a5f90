use autodiff::{Computation, Operation, Step, Value, Weight};

/// A computation together with the numbers of its nodes.
struct Engine {
    graph: Computation,
    data: Vec<f64>,
    grad: Vec<f64>,
}

impl Engine {
    fn new() -> Engine {
        Engine { graph: Computation::new(), data: Vec::new(), grad: Vec::new() }
    }

    fn insert(&mut self, value: Value, data: f64) -> usize {
        assert!(self.graph.accepts(&value));
        self.data.push(data);
        self.grad.push(0.0);
        self.graph.push(value)
    }

    fn leaf(&mut self, data: f64) -> usize {
        self.insert(Value::new(), data)
    }

    fn add(&mut self, a: usize, b: usize) -> usize {
        self.insert(Value::add(a, b), self.data[a] + self.data[b])
    }

    fn sub(&mut self, a: usize, b: usize) -> usize {
        self.insert(Value::sub(a, b), self.data[a] - self.data[b])
    }

    fn mul(&mut self, a: usize, b: usize) -> usize {
        self.insert(Value::mul(a, b), self.data[a] * self.data[b])
    }

    fn tanh(&mut self, a: usize) -> usize {
        self.insert(Value::tanh(a), self.data[a].tanh())
    }

    fn backward(&mut self, root: usize) {
        for step in self.graph.backward(root) {
            match step {
                Step::Seed { node } => self.grad[node] = 1.0,
                Step::Accumulate { into, from, weight } => {
                    let grad = self.grad[from];
                    match weight {
                        Weight::One => self.grad[into] += grad,
                        Weight::MinusOne => self.grad[into] -= grad,
                        Weight::ValueOf(b) => self.grad[into] += grad * self.data[b],
                        Weight::TanhSlopeAt(a) => {
                            let t = self.data[a].tanh();
                            self.grad[into] += grad * (1.0 - t * t)
                        }
                    }
                }
            }
        }
    }
}

#[test]
fn a_sum_adds_the_values_and_passes_gradient_one() {
    for (x, y) in [(34.0, 23.0), (-1.5, 0.25), (0.0, 0.0), (1e300, -1e300)] {
        let mut e = Engine::new();
        let a = e.leaf(x);
        let b = e.leaf(y);
        let s = e.add(a, b);
        assert_eq!(e.data[s], x + y);
        e.backward(s);
        assert_eq!(e.grad[s], 1.0);
        assert_eq!(e.grad[a], 1.0);
        assert_eq!(e.grad[b], 1.0);
    }
}

#[test]
fn a_difference_passes_gradient_one_and_minus_one() {
    let mut e = Engine::new();
    let a = e.leaf(7.0);
    let b = e.leaf(9.5);
    let d = e.sub(a, b);
    assert_eq!(e.data[d], -2.5);
    e.backward(d);
    assert_eq!(e.grad[a], 1.0);
    assert_eq!(e.grad[b], -1.0);
}

#[test]
fn a_product_passes_to_each_operand_the_value_of_the_other() {
    let mut e = Engine::new();
    let a = e.leaf(3.0);
    let b = e.leaf(-4.0);
    let p = e.mul(a, b);
    assert_eq!(e.data[p], -12.0);
    e.backward(p);
    assert_eq!(e.grad[a], -4.0);
    assert_eq!(e.grad[b], 3.0);
}

#[test]
fn a_leaf_used_twice_gathers_both_contributions() {
    let mut e = Engine::new();
    let x = e.leaf(5.0);
    let a = e.leaf(2.0);
    let b = e.leaf(11.0);
    let left = e.mul(x, a);
    let right = e.mul(x, b);
    let y = e.add(left, right);
    assert_eq!(e.data[y], 65.0);
    e.backward(y);
    assert_eq!(e.grad[x], 13.0);
    assert_eq!(e.grad[a], 5.0);
    assert_eq!(e.grad[b], 5.0);
}

#[test]
fn tanh_at_zero_has_slope_one() {
    let mut e = Engine::new();
    let a = e.leaf(0.0);
    let t = e.tanh(a);
    assert_eq!(e.data[t], 0.0);
    e.backward(t);
    assert_eq!(e.grad[a], 1.0);
}

#[test]
fn tanh_of_a_large_input_gives_numbers() {
    for x in [1000.0, -1000.0, 1e308, -1e308] {
        let mut e = Engine::new();
        let a = e.leaf(x);
        let t = e.tanh(a);
        assert_eq!(e.data[t], if x > 0.0 { 1.0 } else { -1.0 });
        e.backward(t);
        assert!(!e.grad[a].is_nan());
        assert_eq!(e.grad[a], 0.0);
    }
}

#[test]
fn a_saturated_tanh_lets_almost_no_gradient_through() {
    let mut e = Engine::new();
    let a = e.leaf(34.0);
    let b = e.leaf(23.0);
    let c = e.leaf(88.0);
    let f = e.leaf(2.0);
    let sum = e.add(a, b);
    assert_eq!(e.data[sum], 57.0);
    let d = e.sub(sum, c);
    assert_eq!(e.data[d], -31.0);
    let product = e.mul(d, f);
    assert_eq!(e.data[product], -62.0);
    let l = e.tanh(product);
    assert!((e.data[l] + 1.0).abs() < 1e-12);
    e.backward(l);
    assert_eq!(e.grad[l], 1.0);
    for node in [a, b, c, f] {
        assert!(e.grad[node].is_finite());
        assert!(e.grad[node].abs() < 1e-12);
    }
}

#[test]
fn the_chain_rule_holds_through_a_tanh_that_is_not_saturated() {
    let mut e = Engine::new();
    let a = e.leaf(0.5);
    let b = e.leaf(0.25);
    let c = e.leaf(1.0);
    let f = e.leaf(2.0);
    let sum = e.add(a, b);
    let d = e.sub(sum, c);
    let product = e.mul(d, f);
    let l = e.tanh(product);
    e.backward(l);
    let slope = 1.0 - (-0.5f64).tanh() * (-0.5f64).tanh();
    assert_eq!(e.grad[product], slope);
    assert_eq!(e.grad[d], slope * 2.0);
    assert_eq!(e.grad[f], slope * -0.25);
    assert_eq!(e.grad[a], slope * 2.0);
    assert_eq!(e.grad[b], slope * 2.0);
    assert_eq!(e.grad[c], -(slope * 2.0));
}

#[test]
fn the_graph_records_what_the_numbers_came_from() {
    let mut e = Engine::new();
    let a = e.leaf(1.0);
    let b = e.leaf(2.0);
    let p = e.mul(a, b);
    let t = e.tanh(p);
    assert_eq!(e.graph.node(t).operation(), Operation::Tanh);
    assert_eq!(e.graph.node(t).operands(), &vec![p]);
    assert_eq!(e.graph.node(p).operation(), Operation::Multiply);
    assert_eq!(e.graph.node(p).operands(), &vec![a, b]);
}

/// A graph in which nodes are shared along several paths.
fn tangled() -> (Engine, usize) {
    let mut e = Engine::new();
    let x = e.leaf(3.0);
    let y = e.leaf(-2.0);
    let z = e.leaf(5.0);
    let p = e.mul(x, y);
    let q = e.sub(p, x);
    let _unused = e.add(q, z);
    let r = e.mul(q, p);
    let s = e.add(r, y);
    let t = e.sub(s, q);
    (e, t)
}

/// The local derivative of node `c` by its operand `p`.
fn local(e: &Engine, p: usize, c: usize) -> f64 {
    let node = e.graph.node(c);
    let operands = node.operands();
    match node.operation() {
        Operation::Leaf => unreachable!(),
        Operation::Add => 1.0,
        Operation::Subtract => {
            if p == operands[0] {
                1.0
            } else {
                -1.0
            }
        }
        Operation::Multiply => {
            if p == operands[0] {
                e.data[operands[1]]
            } else {
                e.data[operands[0]]
            }
        }
        Operation::Tanh => 1.0 - e.data[p].tanh() * e.data[p].tanh(),
    }
}

/// The derivative of `root` by `n` as the sum, over all paths from `root`
/// down to `n`, of the product of the local derivatives along the path.
fn over_all_paths(e: &Engine, root: usize, n: usize) -> f64 {
    if root == n {
        return 1.0;
    }
    let mut sum = 0.0;
    for &p in e.graph.node(root).operands() {
        sum += local(e, p, root) * over_all_paths(e, p, n);
    }
    sum
}

#[test]
fn the_values_of_a_tangled_graph_are_as_computed_by_hand() {
    let (e, t) = tangled();
    // p = -6, q = -9, r = 54, s = 52, t = 61
    assert_eq!(e.data[t], 61.0);
}

#[test]
fn every_gradient_is_the_sum_over_all_paths() {
    let (mut e, t) = tangled();
    e.backward(t);
    for n in 0..e.graph.len() {
        assert_eq!(e.grad[n], over_all_paths(&e, t, n));
    }
}

#[test]
fn the_gradients_of_a_tangled_graph_are_as_computed_by_hand() {
    let (mut e, t) = tangled();
    e.backward(t);
    // t = (q * p + y) - q with p = x * y and q = p - x.
    // dt/dq = p - 1 = -7, dt/dp = q + dt/dq = -16,
    // dt/dx = y * dt/dp - dt/dq = 39, dt/dy = 1 + x * dt/dp = -47.
    assert_eq!(e.grad, vec![39.0, -47.0, 0.0, -16.0, -7.0, 0.0, 1.0, 1.0, 1.0]);
}

#[test]
fn every_gradient_is_gathered_from_the_consumers_newest_first() {
    let (mut e, t) = tangled();
    e.backward(t);
    let (reached, _) = e.graph.trace(t);
    for n in 0..t {
        let mut expected = 0.0;
        for c in (n + 1..=t).rev() {
            if reached.contains(&c) && e.graph.node(c).operands().contains(&n) {
                match e.graph.node(c).operation() {
                    Operation::Subtract if e.graph.node(c).operands()[1] == n => {
                        expected -= e.grad[c]
                    }
                    Operation::Add | Operation::Subtract => expected += e.grad[c],
                    _ => expected += e.grad[c] * local(&e, n, c),
                }
            }
        }
        assert_eq!(e.grad[n], expected);
    }
}
