use autodiff::{Computation, Value};

fn sorted<T: Ord + Clone>(v: &[T]) -> Vec<T> {
    let mut w = v.to_vec();
    w.sort();
    w
}

/// `x * a + x * b`, with a node in between that the root does not use.
fn diamond() -> (Computation, usize) {
    let mut g = Computation::new();
    let x = g.push(Value::new());
    let a = g.push(Value::new());
    let b = g.push(Value::new());
    let _unused = g.push(Value::tanh(x));
    let left = g.push(Value::mul(x, a));
    let right = g.push(Value::mul(x, b));
    let y = g.push(Value::add(left, right));
    (g, y)
}

#[test]
fn a_leaf_traces_to_itself() {
    let mut g = Computation::new();
    let a = g.push(Value::new());
    let (nodes, edges) = g.trace(a);
    assert_eq!(nodes, vec![a]);
    assert!(edges.is_empty());
}

#[test]
fn trace_finds_what_the_root_depends_on() {
    let mut g = Computation::new();
    let a = g.push(Value::new());
    let b = g.push(Value::new());
    let e = g.push(Value::add(a, b));
    let c = g.push(Value::new());
    let d = g.push(Value::sub(e, c));
    let (nodes, edges) = g.trace(d);
    assert_eq!(sorted(&nodes), vec![a, b, e, c, d]);
    assert_eq!(sorted(&edges), vec![(a, e), (b, e), (e, d), (c, d)]);
}

#[test]
fn trace_finds_each_node_of_a_diamond_once() {
    let (g, y) = diamond();
    let (nodes, _) = g.trace(y);
    assert_eq!(sorted(&nodes), vec![0, 1, 2, 4, 5, 6]);
}

#[test]
fn trace_finds_each_edge_of_a_diamond_once() {
    let (g, y) = diamond();
    let (_, edges) = g.trace(y);
    assert_eq!(sorted(&edges), vec![(0, 4), (0, 5), (1, 4), (2, 5), (4, 6), (5, 6)]);
}

#[test]
fn trace_leaves_out_what_the_root_does_not_depend_on() {
    let (g, _) = diamond();
    let (nodes, edges) = g.trace(4);
    assert_eq!(sorted(&nodes), vec![0, 1, 4]);
    assert_eq!(sorted(&edges), vec![(0, 4), (1, 4)]);
}

#[test]
fn tracing_twice_gives_the_same_nodes_and_edges() {
    let (g, y) = diamond();
    let (nodes1, edges1) = g.trace(y);
    let (nodes2, edges2) = g.trace(y);
    assert_eq!(nodes1.len(), nodes2.len());
    assert_eq!(edges1.len(), edges2.len());
    assert_eq!(sorted(&nodes1), sorted(&nodes2));
    assert_eq!(sorted(&edges1), sorted(&edges2));
}

#[test]
fn nodes_are_told_apart_by_handle() {
    // Two leaves that would carry the same number are still two nodes.
    let mut g = Computation::new();
    let a = g.push(Value::new());
    let b = g.push(Value::new());
    let s = g.push(Value::add(a, b));
    let (nodes, edges) = g.trace(s);
    assert_eq!(nodes.len(), 3);
    assert_eq!(edges.len(), 2);
}
