//! A traced graph as a Graphviz diagram.
//!
//! Every node is drawn under the text of its value, which the caller
//! supplies; a node that an operation produced gets a second diagram node,
//! named by the text with the operation's symbol behind it, which the edges
//! from its operands lead to.
use crate::graph::{lemma_reaches_bounds, lemma_reaches_extends, well_formed, Computation};
use crate::trace::is_trace;
use crate::value::{Node, Operation};
use vstd::prelude::*;
use vstd::string::StringExecFns;

verus! {

/// What a character of a label becomes in a diagram name: the symbols of the
/// operations are spelled out, every other character stays.
pub open spec fn replacement(c: char) -> Seq<char> {
    if c == '*' {
        seq!['_', 's', 't', 'a', 'r', '_']
    } else if c == '+' {
        seq!['_', 'p', 'l', 'u', 's', '_']
    } else if c == '-' {
        seq!['_', 'm', 'i', 'n', 'u', 's', '_']
    } else if c == 'T' {
        seq!['_', 't', 'a', 'n', 'h', '_']
    } else {
        seq![c]
    }
}

/// A label with each character replaced, in order.
pub open spec fn sanitized(s: Seq<char>) -> Seq<char>
    decreases s.len(),
{
    if s.len() == 0 {
        Seq::empty()
    } else {
        sanitized(s.drop_last()) + replacement(s.last())
    }
}

/// `String::push` of std: the character is appended, the rest stays.
#[verifier::external_body]
fn push_char(s: &mut String, c: char)
    ensures
        final(s)@ == old(s)@.push(c),
{
    s.push(c)
}

/// Spells out the operation symbols in `s`, so that it can serve as a name in
/// a diagram.
pub fn sanitize(s: &str) -> (r: String)
    ensures
        r@ == sanitized(s@),
{
    let n = s.unicode_len();
    let mut r = String::new();
    let mut i: usize = 0;
    while i < n
        invariant
            n == s@.len(),
            i <= n,
            r@ == sanitized(s@.take(i as int)),
        decreases n - i,
    {
        let c = s.get_char(i);
        proof {
            assert(s@.take(i + 1).drop_last() =~= s@.take(i as int));
            assert(s@.take(i + 1).last() == c);
            reveal_strlit("_star_");
            reveal_strlit("_plus_");
            reveal_strlit("_minus_");
            reveal_strlit("_tanh_");
        }
        if c == '*' {
            r.append("_star_");
            assert("_star_"@ =~= replacement(c));
        } else if c == '+' {
            r.append("_plus_");
            assert("_plus_"@ =~= replacement(c));
        } else if c == '-' {
            r.append("_minus_");
            assert("_minus_"@ =~= replacement(c));
        } else if c == 'T' {
            r.append("_tanh_");
            assert("_tanh_"@ =~= replacement(c));
        } else {
            push_char(&mut r, c);
            assert(r@ =~= sanitized(s@.take(i as int)) + replacement(c));
        }
        i += 1;
    }
    assert(s@.take(n as int) =~= s@);
    r
}

/// The character that marks the diagram node of an operation.  A leaf has no
/// such node; its character is the blank.
pub open spec fn symbol_of(operation: Operation) -> char {
    match operation {
        Operation::Leaf => ' ',
        Operation::Add => '+',
        Operation::Subtract => '-',
        Operation::Multiply => '*',
        Operation::Tanh => 'T',
    }
}

/// The character that marks the diagram node of `operation`.
pub fn symbol(operation: Operation) -> (c: char)
    ensures
        c == symbol_of(operation),
{
    match operation {
        Operation::Leaf => ' ',
        Operation::Add => '+',
        Operation::Subtract => '-',
        Operation::Multiply => '*',
        Operation::Tanh => 'T',
    }
}

/// A statement of a diagram, of the two forms that this library writes.
pub enum Statement {
    /// A node with a plain name, without port or attributes.
    Node { name: Seq<char> },
    /// An edge between two nodes with plain names, without attributes.
    Edge { from: Seq<char>, to: Seq<char> },
}

/// The diagram type of the crate `graphviz_rust`, taken as it is.
#[verifier::external_type_specification]
#[verifier::external_body]
pub struct ExDiagram(graphviz_rust::dot_structures::Graph);

/// The statements of a diagram, in the order they were added.
pub uninterp spec fn statements(dot: graphviz_rust::dot_structures::Graph) -> Seq<Statement>;

/// The name that a diagram was made with.
pub uninterp spec fn title(dot: graphviz_rust::dot_structures::Graph) -> Seq<char>;

/// The variant `Graph::Graph` of `graphviz_rust::dot_structures::Graph`, with
/// `name` as a plain name and an empty statement list: an undirected diagram
/// that is not strict and holds no statement yet.
#[verifier::external_body]
fn empty_diagram(name: &str) -> (dot: graphviz_rust::dot_structures::Graph)
    ensures
        title(dot) == name@,
        statements(dot) == Seq::<Statement>::empty(),
{
    graphviz_rust::dot_structures::Graph::Graph {
        id: graphviz_rust::dot_structures::Id::Plain(name.to_string()),
        strict: false,
        stmts: Vec::new(),
    }
}

/// `Graph::add_stmt` of `graphviz_rust::dot_structures`, given a node
/// statement: it pushes the statement onto the diagram's list, behind those
/// that are there, and leaves the diagram's name alone.
#[verifier::external_body]
fn add_node(dot: &mut graphviz_rust::dot_structures::Graph, name: &str)
    ensures
        title(*final(dot)) == title(*old(dot)),
        statements(*final(dot)) == statements(*old(dot)).push(Statement::Node { name: name@ }),
{
    let id = graphviz_rust::dot_structures::Id::Plain(name.to_string());
    let node_id = graphviz_rust::dot_structures::NodeId(id, None);
    let node = graphviz_rust::dot_structures::Node::new(node_id, Vec::new());
    dot.add_stmt(graphviz_rust::dot_structures::Stmt::Node(node))
}

/// `Graph::add_stmt` of `graphviz_rust::dot_structures`, given an edge
/// statement for a pair of nodes: it pushes the statement onto the diagram's
/// list, behind those that are there, and leaves the diagram's name alone.
#[verifier::external_body]
fn add_edge(dot: &mut graphviz_rust::dot_structures::Graph, from: &str, to: &str)
    ensures
        title(*final(dot)) == title(*old(dot)),
        statements(*final(dot)) == statements(*old(dot)).push(
            Statement::Edge { from: from@, to: to@ },
        ),
{
    let from_id = graphviz_rust::dot_structures::Id::Plain(from.to_string());
    let to_id = graphviz_rust::dot_structures::Id::Plain(to.to_string());
    let from_vertex = graphviz_rust::dot_structures::Vertex::N(graphviz_rust::dot_structures::NodeId(from_id, None));
    let to_vertex = graphviz_rust::dot_structures::Vertex::N(graphviz_rust::dot_structures::NodeId(to_id, None));
    let ty = graphviz_rust::dot_structures::EdgeTy::Pair(from_vertex, to_vertex);
    let edge = graphviz_rust::dot_structures::Edge { ty, attributes: Vec::new() };
    dot.add_stmt(graphviz_rust::dot_structures::Stmt::Edge(edge))
}

/// The diagram name of node `a`: its label, sanitized.
pub open spec fn name_of(labels: Seq<Seq<char>>, a: usize) -> Seq<char> {
    sanitized(labels[a as int])
}

/// The diagram name of the operation that produced node `a`: its label with
/// the operation's symbol behind it, sanitized.
pub open spec fn operation_name_of(g: Seq<Node>, labels: Seq<Seq<char>>, a: usize) -> Seq<char> {
    sanitized(labels[a as int].push(symbol_of(g[a as int].operation)))
}

/// The statements that draw node `a`: a diagram node under its name and, if
/// an operation produced it, a second one for the operation with an edge
/// between the two.
pub open spec fn node_statements(g: Seq<Node>, labels: Seq<Seq<char>>, a: usize) -> Seq<Statement> {
    let name = name_of(labels, a);
    if g[a as int].operation == Operation::Leaf {
        seq![Statement::Node { name }]
    } else {
        let operation_name = operation_name_of(g, labels, a);
        seq![
            Statement::Node { name },
            Statement::Node { name: operation_name },
            Statement::Edge { from: name, to: operation_name },
        ]
    }
}

/// The statements that draw the nodes of `nodes`, one node after the other.
pub open spec fn statements_of_nodes(
    g: Seq<Node>,
    labels: Seq<Seq<char>>,
    nodes: Seq<usize>,
) -> Seq<Statement>
    decreases nodes.len(),
{
    if nodes.len() == 0 {
        Seq::empty()
    } else {
        statements_of_nodes(g, labels, nodes.drop_last()) + node_statements(g, labels, nodes.last())
    }
}

/// The statement that draws the edge from an operand to the operation of the
/// node it feeds.
pub open spec fn edge_statement(g: Seq<Node>, labels: Seq<Seq<char>>, edge: (usize, usize)) -> Statement {
    Statement::Edge { from: name_of(labels, edge.0), to: operation_name_of(g, labels, edge.1) }
}

/// The statements of a diagram of `nodes` and `edges`: first the nodes, in
/// order, then the edges, in order.
pub open spec fn diagram_of(
    g: Seq<Node>,
    labels: Seq<Seq<char>>,
    nodes: Seq<usize>,
    edges: Seq<(usize, usize)>,
) -> Seq<Statement> {
    statements_of_nodes(g, labels, nodes) + Seq::new(
        edges.len(),
        |i: int| edge_statement(g, labels, edges[i]),
    )
}

/// The label with the symbol of `operation` behind it.
fn marked(label: &str, operation: Operation) -> (r: String)
    ensures
        r@ == label@.push(symbol_of(operation)),
{
    let mut r = String::from_str(label);
    push_char(&mut r, symbol(operation));
    r
}

impl Computation {
    /// Draws `nodes` and `edges` as a diagram named `id`, each node under the
    /// label that `labels` holds for it.
    pub fn diagram(
        &self,
        labels: &Vec<String>,
        nodes: &Vec<usize>,
        edges: &Vec<(usize, usize)>,
    ) -> (dot: graphviz_rust::dot_structures::Graph)
        requires
            labels@.len() == self@.len(),
            forall|i: int| 0 <= i < nodes@.len() ==> nodes@[i] < self@.len(),
            forall|i: int| 0 <= i < edges@.len() ==> edges@[i].0 < self@.len() && edges@[i].1 < self@.len(),
        ensures
            title(dot) == "id"@,
            statements(dot) == diagram_of(self@, labels.deep_view(), nodes@, edges@),
    {
        let ghost texts = labels.deep_view();
        let mut dot = empty_diagram("id");
        let mut i: usize = 0;
        assert(nodes@.take(0) =~= Seq::<usize>::empty());
        while i < nodes.len()
            invariant
                i <= nodes@.len(),
                labels@.len() == self@.len(),
                texts == labels.deep_view(),
                forall|i: int| 0 <= i < nodes@.len() ==> nodes@[i] < self@.len(),
                title(dot) == "id"@,
                statements(dot) == statements_of_nodes(self@, texts, nodes@.take(i as int)),
            decreases nodes@.len() - i,
        {
            let a = nodes[i];
            let label = labels[a].as_str();
            let operation = self.node(a).operation();
            proof {
                assert(nodes@.take(i + 1).drop_last() =~= nodes@.take(i as int));
                assert(nodes@.take(i + 1).last() == a);
                assert(texts[a as int] == label@);
            }
            let ghost before = statements(dot);
            let name = sanitize(label);
            add_node(&mut dot, name.as_str());
            match operation {
                Operation::Leaf => {
                    assert(statements(dot) =~= before + node_statements(self@, texts, a));
                },
                _ => {
                    let operation_name = sanitize(marked(label, operation).as_str());
                    add_node(&mut dot, operation_name.as_str());
                    add_edge(&mut dot, name.as_str(), operation_name.as_str());
                    assert(statements(dot) =~= before + node_statements(self@, texts, a));
                },
            }
            i += 1;
        }
        assert(nodes@.take(nodes@.len() as int) =~= nodes@);
        let ghost drawn = statements(dot);
        let mut j: usize = 0;
        while j < edges.len()
            invariant
                j <= edges@.len(),
                labels@.len() == self@.len(),
                texts == labels.deep_view(),
                forall|i: int|
                    0 <= i < edges@.len() ==> edges@[i].0 < self@.len() && edges@[i].1 < self@.len(),
                title(dot) == "id"@,
                statements(dot) == drawn + Seq::new(
                    j as nat,
                    |i: int| edge_statement(self@, texts, edges@[i]),
                ),
            decreases edges@.len() - j,
        {
            let (p, c) = edges[j];
            let from = sanitize(labels[p].as_str());
            let to = sanitize(marked(labels[c].as_str(), self.node(c).operation()).as_str());
            let ghost before = statements(dot);
            proof {
                assert(texts[p as int] == labels@[p as int]@);
                assert(texts[c as int] == labels@[c as int]@);
            }
            add_edge(&mut dot, from.as_str(), to.as_str());
            assert(statements(dot) =~= drawn + Seq::new(
                (j + 1) as nat,
                |i: int| edge_statement(self@, texts, edges@[i]),
            ));
            j += 1;
        }
        dot
    }

    /// Traces the graph from `root` and draws what the trace found: the nodes
    /// that `root` depends on and the edges among them.
    pub fn draw_dot(&self, root: usize, labels: &Vec<String>) -> (dot:
        graphviz_rust::dot_structures::Graph)
        requires
            well_formed(self@),
            root < self@.len(),
            labels@.len() == self@.len(),
        ensures
            title(dot) == "id"@,
            exists|nodes: Seq<usize>, edges: Seq<(usize, usize)>|
                is_trace(self@, root, nodes, edges) && statements(dot) == diagram_of(
                    self@,
                    labels.deep_view(),
                    nodes,
                    edges,
                ),
    {
        let (nodes, edges) = self.trace(root);
        proof {
            assert forall|i: int| 0 <= i < nodes@.len() implies nodes@[i] < self@.len() by {
                assert(nodes@.contains(nodes@[i]));
                lemma_reaches_bounds(self@, root, nodes@[i]);
            }
            assert forall|i: int| 0 <= i < edges@.len() implies edges@[i].0 < self@.len() && edges@[i].1
                < self@.len() by {
                let e = edges@[i];
                assert(edges@.contains((e.0, e.1)));
                lemma_reaches_bounds(self@, root, e.1);
                lemma_reaches_extends(self@, root, e.1, e.0);
                lemma_reaches_bounds(self@, root, e.0);
            }
        }
        self.diagram(labels, &nodes, &edges)
    }
}

} // verus!
