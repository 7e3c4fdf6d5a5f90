use autodiff::{Computation, Operation, Value};

#[test]
fn a_new_computation_is_empty() {
    let g = Computation::new();
    assert_eq!(g.len(), 0);
}

#[test]
fn a_leaf_has_no_operation_and_no_operands() {
    let leaf = Value::new();
    assert_eq!(leaf.operation(), Operation::Leaf);
    assert!(leaf.operands().is_empty());
}

#[test]
fn each_operation_records_its_operands_in_order() {
    let sum = Value::add(3, 5);
    assert_eq!(sum.operation(), Operation::Add);
    assert_eq!(sum.operands(), &vec![3, 5]);
    let difference = Value::sub(5, 3);
    assert_eq!(difference.operation(), Operation::Subtract);
    assert_eq!(difference.operands(), &vec![5, 3]);
    let product = Value::mul(0, 9);
    assert_eq!(product.operation(), Operation::Multiply);
    assert_eq!(product.operands(), &vec![0, 9]);
    let squashed = Value::tanh(7);
    assert_eq!(squashed.operation(), Operation::Tanh);
    assert_eq!(squashed.operands(), &vec![7]);
}

#[test]
fn handles_count_up_from_zero() {
    let mut g = Computation::new();
    assert_eq!(g.push(Value::new()), 0);
    assert_eq!(g.push(Value::new()), 1);
    assert_eq!(g.push(Value::add(0, 1)), 2);
    assert_eq!(g.push(Value::tanh(2)), 3);
    assert_eq!(g.len(), 4);
}

#[test]
fn pushing_leaves_earlier_nodes_as_they_were() {
    let mut g = Computation::new();
    let a = g.push(Value::new());
    let b = g.push(Value::new());
    let s = g.push(Value::sub(a, b));
    let _ = g.push(Value::mul(s, a));
    let _ = g.push(Value::tanh(b));
    assert_eq!(g.node(a).operation(), Operation::Leaf);
    assert_eq!(g.node(b).operation(), Operation::Leaf);
    assert_eq!(g.node(s).operation(), Operation::Subtract);
    assert_eq!(g.node(s).operands(), &vec![a, b]);
}

#[test]
fn a_computation_accepts_nodes_over_its_own_handles() {
    let mut g = Computation::new();
    assert!(g.accepts(&Value::new()));
    assert!(!g.accepts(&Value::tanh(0)));
    let a = g.push(Value::new());
    assert!(g.accepts(&Value::tanh(a)));
    assert!(!g.accepts(&Value::add(a, 1)));
    let b = g.push(Value::new());
    assert!(g.accepts(&Value::add(a, b)));
    assert!(g.accepts(&Value::sub(b, a)));
    assert!(!g.accepts(&Value::mul(b, 2)));
}

#[test]
fn a_binary_node_over_one_operand_twice_does_not_fit() {
    assert!(!Value::mul(0, 0).fits(1));
    assert!(!Value::add(4, 4).fits(10));
    assert!(Value::mul(0, 1).fits(2));
    assert!(!Value::mul(0, 1).fits(1));
    assert!(Value::new().fits(0));
}
