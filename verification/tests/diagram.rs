use autodiff::diagram::{sanitize, symbol};
use autodiff::{Computation, Operation, Value};
use graphviz_rust::dot_structures::{Edge, EdgeTy, Graph, Id, Node, NodeId, Stmt, Vertex};
use graphviz_rust::printer::{DotPrinter, PrinterContext};

fn node(name: &str) -> Stmt {
    Stmt::Node(Node::new(NodeId(Id::Plain(name.to_string()), None), vec![]))
}

fn edge(from: &str, to: &str) -> Stmt {
    Stmt::Edge(Edge {
        ty: EdgeTy::Pair(
            Vertex::N(NodeId(Id::Plain(from.to_string()), None)),
            Vertex::N(NodeId(Id::Plain(to.to_string()), None)),
        ),
        attributes: vec![],
    })
}

fn undirected(stmts: Vec<Stmt>) -> Graph {
    Graph::Graph { id: Id::Plain("id".to_string()), strict: false, stmts }
}

/// The statements of an undirected diagram named `id`, as text, sorted.
fn sorted_statements(dot: &Graph) -> Vec<String> {
    let mut texts: Vec<String> = match dot {
        Graph::Graph { id, strict: false, stmts } if *id == Id::Plain("id".to_string()) => {
            stmts.iter().map(|s| format!("{:?}", s)).collect()
        }
        _ => panic!("not an undirected diagram named id"),
    };
    texts.sort();
    texts
}

#[test]
fn sanitize_spells_out_the_operation_symbols() {
    assert_eq!(sanitize("57+"), "57_plus_");
    assert_eq!(sanitize("-31-"), "_minus_31_minus_");
    assert_eq!(sanitize("-62*"), "_minus_62_star_");
    assert_eq!(sanitize("-1T"), "_minus_1_tanh_");
    assert_eq!(sanitize("*+-T"), "_star__plus__minus__tanh_");
}

#[test]
fn sanitize_keeps_every_other_character() {
    assert_eq!(sanitize(""), "");
    assert_eq!(sanitize("34"), "34");
    assert_eq!(sanitize("0.5 t_x"), "0.5 t_x");
    assert_eq!(sanitize("1e21"), "1e21");
}

#[test]
fn each_operation_has_its_symbol() {
    assert_eq!(symbol(Operation::Leaf), ' ');
    assert_eq!(symbol(Operation::Add), '+');
    assert_eq!(symbol(Operation::Subtract), '-');
    assert_eq!(symbol(Operation::Multiply), '*');
    assert_eq!(symbol(Operation::Tanh), 'T');
}

#[test]
fn a_leaf_is_drawn_as_one_node() {
    let mut g = Computation::new();
    let a = g.push(Value::new());
    let dot = g.draw_dot(a, &vec!["34".to_string()]);
    assert_eq!(dot, undirected(vec![node("34")]));
}

#[test]
fn an_operation_is_drawn_with_a_node_of_its_own() {
    let mut g = Computation::new();
    let a = g.push(Value::new());
    let b = g.push(Value::new());
    let s = g.push(Value::add(a, b));
    let labels = vec!["34".to_string(), "23".to_string(), "57".to_string()];
    let dot = g.draw_dot(s, &labels);
    assert_eq!(
        sorted_statements(&dot),
        sorted_statements(&undirected(vec![
            node("57"),
            node("57_plus_"),
            edge("57", "57_plus_"),
            node("34"),
            node("23"),
            edge("34", "57_plus_"),
            edge("23", "57_plus_"),
        ]))
    );
}

#[test]
fn a_diagram_draws_the_nodes_and_edges_it_is_given() {
    let mut g = Computation::new();
    let a = g.push(Value::new());
    let t = g.push(Value::tanh(a));
    let d = g.push(Value::sub(a, t));
    let labels = vec!["-2".to_string(), "-1".to_string(), "-1".to_string()];
    let dot = g.diagram(&labels, &vec![t, a], &vec![(a, t), (t, d)]);
    assert_eq!(
        dot,
        undirected(vec![
            node("_minus_1"),
            node("_minus_1_tanh_"),
            edge("_minus_1", "_minus_1_tanh_"),
            node("_minus_2"),
            edge("_minus_2", "_minus_1_tanh_"),
            edge("_minus_1", "_minus_1_minus_"),
        ])
    );
}

#[test]
fn a_drawn_diagram_prints_as_dot() {
    let mut g = Computation::new();
    let a = g.push(Value::new());
    let b = g.push(Value::new());
    let p = g.push(Value::mul(a, b));
    let labels = vec!["2".to_string(), "3".to_string(), "6".to_string()];
    let dot = g.diagram(&labels, &vec![p, a, b], &vec![(a, p), (b, p)]);
    let text = dot.print(&mut PrinterContext::default());
    assert_eq!(
        text,
        "graph id {\n    6\n    6_star_\n    6 -- 6_star_ \n    2\n    3\n    2 -- 6_star_ \n    3 -- 6_star_ \n}"
    );
}
