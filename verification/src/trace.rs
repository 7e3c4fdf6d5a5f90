//! The walk that finds what an output depends on.
use crate::graph::{
    has_edge, lemma_closed_set_holds_reach, lemma_reaches_bounds, lemma_reaches_extends, reaches, well_formed,
    Computation,
};
use crate::value::Node;
use std::collections::VecDeque;
use vstd::prelude::*;

verus! {

/// `nodes` lists each node that `root` depends on once, `root` among them,
/// and `edges` lists once each pair of an operand and the node it feeds, for
/// the same nodes.
pub open spec fn is_trace(
    g: Seq<Node>,
    root: usize,
    nodes: Seq<usize>,
    edges: Seq<(usize, usize)>,
) -> bool {
    &&& nodes.no_duplicates()
    &&& forall|i: usize| #[trigger] nodes.contains(i) <==> reaches(g, root, i)
    &&& edges.no_duplicates()
    &&& forall|p: usize, c: usize| #[trigger]
        edges.contains((p, c)) <==> reaches(g, root, c) && has_edge(g, p, c)
}

/// Tracing is repeatable: any two traces of one root in one graph hold the
/// same nodes and the same edges, and as many of each.
pub proof fn lemma_trace_is_repeatable(
    g: Seq<Node>,
    root: usize,
    nodes1: Seq<usize>,
    edges1: Seq<(usize, usize)>,
    nodes2: Seq<usize>,
    edges2: Seq<(usize, usize)>,
)
    requires
        is_trace(g, root, nodes1, edges1),
        is_trace(g, root, nodes2, edges2),
    ensures
        nodes1.to_set() == nodes2.to_set(),
        nodes1.len() == nodes2.len(),
        edges1.to_set() == edges2.to_set(),
        edges1.len() == edges2.len(),
{
    assert(nodes1.to_set() =~= nodes2.to_set()) by {
        assert forall|i: usize| nodes1.to_set().contains(i) <==> nodes2.to_set().contains(i) by {
            assert(nodes1.contains(i) <==> reaches(g, root, i));
            assert(nodes2.contains(i) <==> reaches(g, root, i));
        }
    }
    assert(edges1.to_set() =~= edges2.to_set()) by {
        assert forall|e: (usize, usize)| edges1.to_set().contains(e) <==> edges2.to_set().contains(
            e,
        ) by {
            assert(edges1.contains((e.0, e.1)) <==> reaches(g, root, e.1) && has_edge(g, e.0, e.1));
            assert(edges2.contains((e.0, e.1)) <==> reaches(g, root, e.1) && has_edge(g, e.0, e.1));
        }
    }
    nodes1.unique_seq_to_set();
    nodes2.unique_seq_to_set();
    edges1.unique_seq_to_set();
    edges2.unique_seq_to_set();
}

/// The number of `false` entries.
spec fn count_false(s: Seq<bool>) -> nat
    decreases s.len(),
{
    if s.len() == 0 {
        0
    } else {
        count_false(s.drop_last()) + if s.last() {
            0nat
        } else {
            1nat
        }
    }
}

/// Setting one `false` entry to `true` leaves one `false` entry fewer.
proof fn lemma_count_false_update(s: Seq<bool>, i: int)
    requires
        0 <= i < s.len(),
        !s[i],
    ensures
        count_false(s.update(i, true)) + 1 == count_false(s),
    decreases s.len(),
{
    let t = s.update(i, true);
    if i == s.len() - 1 {
        assert(t.drop_last() =~= s.drop_last());
    } else {
        assert(t.drop_last() =~= s.drop_last().update(i, true));
        lemma_count_false_update(s.drop_last(), i);
    }
}

/// `n` entries, all `false`.
pub(crate) fn all_false(n: usize) -> (v: Vec<bool>)
    ensures
        v@.len() == n,
        forall|i: int| 0 <= i < n ==> !v@[i],
{
    let mut v: Vec<bool> = Vec::new();
    while v.len() < n
        invariant
            v@.len() <= n,
            forall|i: int| 0 <= i < v@.len() ==> !v@[i],
        decreases n - v@.len(),
    {
        v.push(false);
    }
    v
}

impl Computation {
    /// Walks the graph breadth first from `root` along the operand edges, and
    /// returns the nodes that `root` depends on and the edges among them, each
    /// once, however many paths lead to it.
    pub fn trace(&self, root: usize) -> (r: (Vec<usize>, Vec<(usize, usize)>))
        requires
            well_formed(self@),
            root < self@.len(),
        ensures
            is_trace(self@, root, r.0@, r.1@),
    {
        let n = self.len();
        let mut visited = all_false(n);
        let mut nodes: Vec<usize> = Vec::new();
        let mut edges: Vec<(usize, usize)> = Vec::new();
        let mut queue: VecDeque<usize> = VecDeque::new();
        queue.push_back(root);
        assert(queue@[0] == root);
        while queue.len() > 0
            invariant
                well_formed(self@),
                n == self@.len(),
                root < n,
                visited@.len() == n,
                nodes@.no_duplicates(),
                forall|i: usize| #[trigger] nodes@.contains(i) <==> i < n && visited@[i as int],
                forall|i: usize| #[trigger] nodes@.contains(i) ==> reaches(self@, root, i),
                forall|j: int| 0 <= j < queue@.len() ==> reaches(self@, root, #[trigger] queue@[j]),
                nodes@.contains(root) || queue@.contains(root),
                forall|p: usize, c: usize|
                    nodes@.contains(c) && #[trigger] has_edge(self@, p, c) ==> nodes@.contains(p)
                        || queue@.contains(p),
                edges@.no_duplicates(),
                forall|p: usize, c: usize| #[trigger]
                    edges@.contains((p, c)) <==> nodes@.contains(c) && has_edge(self@, p, c),
            decreases count_false(visited@), queue@.len(),
        {
            let ghost before = queue@;
            let v = queue.pop_front().unwrap();
            proof {
                assert(reaches(self@, root, before[0]));
                lemma_reaches_bounds(self@, root, v);
                assert forall|x: usize| before.contains(x) implies x == v || queue@.contains(x) by {
                    let j = choose|j: int| 0 <= j < before.len() && before[j] == x;
                    if j > 0 {
                        assert(queue@[j - 1] == x);
                    }
                }
                assert forall|j: int| 0 <= j < queue@.len() implies reaches(
                    self@,
                    root,
                    #[trigger] queue@[j],
                ) by {
                    assert(queue@[j] == before[j + 1]);
                }
            }
            if !visited[v] {
                proof {
                    lemma_count_false_update(visited@, v as int);
                }
                let ghost seen = nodes@;
                visited.set(v, true);
                nodes.push(v);
                proof {
                    assert(!seen.contains(v));
                    assert forall|i: int, j: int|
                        0 <= i < nodes@.len() && 0 <= j < nodes@.len() && i != j implies nodes@[i]
                        != nodes@[j] by {
                        if i < seen.len() {
                            assert(seen.contains(seen[i]));
                        }
                        if j < seen.len() {
                            assert(seen.contains(seen[j]));
                        }
                    }
                    assert forall|i: usize| #[trigger] nodes@.contains(i) <==> i == v || seen.contains(
                        i,
                    ) by {
                        if seen.contains(i) {
                            let j = choose|j: int| 0 <= j < seen.len() && seen[j] == i;
                            assert(nodes@[j] == i);
                        }
                        if i == v {
                            assert(nodes@[seen.len() as int] == v);
                        }
                    }
                }
                let operands = self.node(v).operands();
                let mut k: usize = 0;
                while k < operands.len()
                    invariant
                        well_formed(self@),
                        n == self@.len(),
                        root < n,
                        v < n,
                        k <= operands@.len(),
                        operands@ == self@[v as int].operands,
                        visited@.len() == n,
                        nodes@.no_duplicates(),
                        nodes@.contains(v),
                        !seen.contains(v),
                        forall|i: usize| #[trigger] nodes@.contains(i) <==> i == v || seen.contains(i),
                        forall|i: usize| #[trigger] nodes@.contains(i) <==> i < n && visited@[i as int],
                        forall|i: usize| #[trigger] nodes@.contains(i) ==> reaches(self@, root, i),
                        forall|j: int|
                            0 <= j < queue@.len() ==> reaches(self@, root, #[trigger] queue@[j]),
                        nodes@.contains(root) || queue@.contains(root),
                        forall|p: usize, c: usize|
                            seen.contains(c) && #[trigger] has_edge(self@, p, c) ==> nodes@.contains(p)
                                || queue@.contains(p),
                        forall|j: int| 0 <= j < k ==> queue@.contains(#[trigger] operands@[j]),
                        edges@.no_duplicates(),
                        forall|p: usize, c: usize| #[trigger]
                            edges@.contains((p, c)) <==> (seen.contains(c) && has_edge(self@, p, c)) || (
                            c == v && exists|j: int| 0 <= j < k && operands@[j] == p),
                    decreases operands@.len() - k,
                {
                    let child = operands[k];
                    let ghost queue_before = queue@;
                    let ghost edges_before = edges@;
                    proof {
                        assert(has_edge(self@, child, v));
                        lemma_reaches_extends(self@, root, v, child);
                        // The edge is new: no earlier operand of `v` is `child`.
                        assert(self@[v as int].well_formed());
                        if edges_before.contains((child, v)) {
                            let j = choose|j: int| 0 <= j < k && operands@[j] == child;
                            assert(false);
                        }
                    }
                    edges.push((child, v));
                    queue.push_back(child);
                    proof {
                        assert(queue@[queue_before.len() as int] == child);
                        assert forall|x: usize| queue_before.contains(x) implies queue@.contains(x) by {
                            let j = choose|j: int| 0 <= j < queue_before.len() && queue_before[j] == x;
                            assert(queue@[j] == x);
                        }
                        assert forall|j: int| 0 <= j < k + 1 implies queue@.contains(
                            #[trigger] operands@[j],
                        ) by {
                            if j < k {
                                assert(queue_before.contains(operands@[j]));
                            }
                        }
                        assert forall|p: usize, c: usize| #[trigger]
                            edges@.contains((p, c)) <==> (seen.contains(c) && has_edge(self@, p, c)) || (
                            c == v && exists|j: int| 0 <= j < k + 1 && operands@[j] == p) by {
                            if edges@.contains((p, c)) {
                                let j = choose|j: int| 0 <= j < edges@.len() && edges@[j] == (p, c);
                                if j < edges_before.len() {
                                    assert(edges_before[j] == (p, c));
                                    assert(edges_before.contains((p, c)));
                                } else {
                                    assert(operands@[k as int] == p);
                                }
                            }
                            if edges_before.contains((p, c)) {
                                let j = choose|j: int|
                                    0 <= j < edges_before.len() && edges_before[j] == (p, c);
                                assert(edges@[j] == (p, c));
                            }
                            if c == v && exists|j: int| 0 <= j < k + 1 && operands@[j] == p {
                                let j = choose|j: int| 0 <= j < k + 1 && operands@[j] == p;
                                if j == k {
                                    assert(edges@[edges_before.len() as int] == (p, c));
                                } else {
                                    assert(edges_before.contains((p, c)));
                                }
                            }
                        }
                    }
                    k += 1;
                }
                proof {
                    assert forall|p: usize, c: usize|
                        nodes@.contains(c) && #[trigger] has_edge(self@, p, c) implies nodes@.contains(p)
                        || queue@.contains(p) by {
                        if c == v {
                            let j = choose|j: int| 0 <= j < operands@.len() && operands@[j] == p;
                            assert(queue@.contains(operands@[j]));
                        }
                    }
                    assert forall|p: usize, c: usize| #[trigger]
                        edges@.contains((p, c)) <==> nodes@.contains(c) && has_edge(self@, p, c) by {
                        if c == v && has_edge(self@, p, c) {
                            let j = choose|j: int| 0 <= j < operands@.len() && operands@[j] == p;
                            assert(0 <= j < k && operands@[j] == p);
                        }
                    }
                }
            }
        }
        proof {
            let s = nodes@.to_set();
            assert forall|i: usize| reaches(self@, root, i) implies #[trigger] nodes@.contains(i) by {
                lemma_closed_set_holds_reach(self@, s, root, i);
            }
        }
        (nodes, edges)
    }
}

} // verus!
