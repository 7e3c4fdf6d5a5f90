//! The arena that holds a computation graph, and what it means for one node
//! to depend on another.
use crate::value::{Node, Value};
use vstd::prelude::*;

verus! {

/// Every node is well formed and names only nodes made before it.  Such a
/// graph has no cycle.
pub open spec fn well_formed(g: Seq<Node>) -> bool {
    forall|i: int| 0 <= i < g.len() ==> (#[trigger] g[i]).well_formed() && g[i].operands_below(i)
}

/// Node `p` is an operand of node `c`.
pub open spec fn has_edge(g: Seq<Node>, p: usize, c: usize) -> bool {
    c < g.len() && g[c as int].operands.contains(p)
}

/// Node `to` is `from` itself, or an operand of `from`, or an operand of one
/// of those, and so on: `from` depends on `to`.
pub open spec fn reaches(g: Seq<Node>, from: usize, to: usize) -> bool
    decreases from,
{
    from < g.len() && (from == to || exists|k: int|
        0 <= k < g[from as int].operands.len() && g[from as int].operands[k] < from && reaches(
            g,
            #[trigger] g[from as int].operands[k],
            to,
        ))
}

/// A node depends only on itself and on nodes made before it.
pub proof fn lemma_reaches_bounds(g: Seq<Node>, from: usize, to: usize)
    requires
        reaches(g, from, to),
    ensures
        to <= from < g.len(),
    decreases from,
{
    if from != to {
        let k = choose|k: int|
            0 <= k < g[from as int].operands.len() && g[from as int].operands[k] < from && reaches(
                g,
                #[trigger] g[from as int].operands[k],
                to,
            );
        lemma_reaches_bounds(g, g[from as int].operands[k], to);
    }
}

/// Dependence extends along an edge: what `from` depends on, it depends on
/// the operands of.
pub proof fn lemma_reaches_extends(g: Seq<Node>, from: usize, c: usize, p: usize)
    requires
        well_formed(g),
        reaches(g, from, c),
        has_edge(g, p, c),
    ensures
        reaches(g, from, p),
    decreases from,
{
    if from == c {
        let k = choose|k: int| 0 <= k < g[c as int].operands.len() && g[c as int].operands[k] == p;
        assert(g[c as int].operands_below(c as int));
        assert(reaches(g, g[c as int].operands[k], p));
    } else {
        let k = choose|k: int|
            0 <= k < g[from as int].operands.len() && g[from as int].operands[k] < from && reaches(
                g,
                #[trigger] g[from as int].operands[k],
                c,
            );
        lemma_reaches_extends(g, g[from as int].operands[k], c, p);
    }
}

/// A set of nodes that holds `from` and, with each node, its operands, holds
/// everything that `from` depends on.
pub proof fn lemma_closed_set_holds_reach(g: Seq<Node>, s: Set<usize>, from: usize, to: usize)
    requires
        s.contains(from),
        forall|p: usize, c: usize| s.contains(c) && has_edge(g, p, c) ==> s.contains(p),
        reaches(g, from, to),
    ensures
        s.contains(to),
    decreases from,
{
    if from != to {
        let k = choose|k: int|
            0 <= k < g[from as int].operands.len() && g[from as int].operands[k] < from && reaches(
                g,
                #[trigger] g[from as int].operands[k],
                to,
            );
        let p = g[from as int].operands[k];
        assert(has_edge(g, p, from));
        lemma_closed_set_holds_reach(g, s, p, to);
    }
}

/// A well-formed graph stays well formed when a well-formed node over its
/// handles is added.
pub proof fn lemma_push_keeps_well_formed(g: Seq<Node>, node: Node)
    requires
        well_formed(g),
        node.well_formed(),
        node.operands_below(g.len() as int),
    ensures
        well_formed(g.push(node)),
{
    let h = g.push(node);
    assert forall|i: int| 0 <= i < h.len() implies (#[trigger] h[i]).well_formed() && h[i].operands_below(
        i,
    ) by {
        if i < g.len() {
            assert(h[i] == g[i]);
        }
    }
}

/// A leaf depends on nothing but itself.
pub proof fn lemma_leaf_reaches_itself_only(g: Seq<Node>, leaf: usize, to: usize)
    requires
        leaf < g.len(),
        g[leaf as int].operands.len() == 0,
    ensures
        reaches(g, leaf, to) <==> leaf == to,
{
}

/// A node depends on itself and on what its operands depend on.
pub proof fn lemma_reaches_through_operands(g: Seq<Node>, from: usize, to: usize)
    requires
        well_formed(g),
        from < g.len(),
    ensures
        reaches(g, from, to) <==> from == to || exists|k: int|
            0 <= k < g[from as int].operands.len() && reaches(
                g,
                #[trigger] g[from as int].operands[k],
                to,
            ),
{
    assert(g[from as int].operands_below(from as int));
}

/// A computation graph: nodes in the order they were made, each known by its
/// position, its handle.
pub struct Computation {
    nodes: Vec<Value>,
}

impl View for Computation {
    type V = Seq<Node>;

    closed spec fn view(&self) -> Seq<Node> {
        Seq::new(self.nodes@.len(), |i: int| self.nodes@[i]@)
    }
}

impl Computation {
    /// The empty graph.
    pub fn new() -> (g: Computation)
        ensures
            g@ == Seq::<Node>::empty(),
            well_formed(g@),
    {
        let g = Computation { nodes: Vec::new() };
        assert(g@ =~= Seq::<Node>::empty());
        g
    }

    /// The number of nodes; the handles are the numbers below it.
    pub fn len(&self) -> (n: usize)
        ensures
            n == self@.len(),
    {
        self.nodes.len()
    }

    /// Whether `value` can be added: it is well formed and its operands are
    /// nodes of this computation.
    pub fn accepts(&self, value: &Value) -> (ok: bool)
        ensures
            ok == (value@.well_formed() && value@.operands_below(self@.len() as int)),
    {
        value.fits(self.nodes.len())
    }

    /// Adds `value` as the newest node and returns its handle.  The nodes
    /// already there stay as they are.
    pub fn push(&mut self, value: Value) -> (id: usize)
        requires
            well_formed(old(self)@),
            value@.well_formed(),
            value@.operands_below(old(self)@.len() as int),
        ensures
            final(self)@ == old(self)@.push(value@),
            id == old(self)@.len(),
            well_formed(final(self)@),
    {
        let id = self.nodes.len();
        self.nodes.push(value);
        assert(self@ =~= old(self)@.push(value@));
        id
    }

    /// The node behind handle `id`.
    pub fn node(&self, id: usize) -> (value: &Value)
        requires
            id < self@.len(),
        ensures
            value@ == self@[id as int],
    {
        &self.nodes[id]
    }
}

} // verus!
