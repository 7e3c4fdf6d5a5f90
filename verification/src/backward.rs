//! The backward pass: the order in which gradients flow, and the tape of
//! accumulation steps that carries them.
use crate::graph::{has_edge, lemma_reaches_bounds, reaches, well_formed, Computation};
use crate::trace::all_false;
use crate::value::{Node, Operation};
use vstd::prelude::*;

verus! {

/// What a gradient is multiplied by on its way from a node to one of its
/// operands: the local derivative of the node by that operand.
#[derive(Clone, Copy, PartialEq, Eq, Debug, Structural)]
pub enum Weight {
    /// The factor one.
    One,
    /// The factor minus one.
    MinusOne,
    /// The value of the node with this handle.
    ValueOf(usize),
    /// One minus the square of the hyperbolic tangent of the value of the
    /// node with this handle.
    TanhSlopeAt(usize),
}

/// One instruction of the backward pass.
#[derive(Clone, Copy, PartialEq, Eq, Debug, Structural)]
pub enum Step {
    /// Set the gradient of `node` to one.
    Seed { node: usize },
    /// Add to the gradient of `into` the gradient of `from` times `weight`.
    Accumulate { into: usize, from: usize, weight: Weight },
}

impl Step {
    /// The node whose gradient the step changes.
    pub open spec fn target(self) -> usize {
        match self {
            Step::Seed { node } => node,
            Step::Accumulate { into, .. } => into,
        }
    }

    /// The step reads the gradient of node `n` without changing it: it hands
    /// the gradient of `n` on.
    pub open spec fn hands_on(self, n: usize) -> bool {
        self matches Step::Accumulate { from, .. } && from == n
    }
}

/// The local derivative of node `c` by its operand `p`, as a weight.
pub open spec fn weight_of(g: Seq<Node>, p: usize, c: usize) -> Weight {
    let operands = g[c as int].operands;
    match g[c as int].operation {
        Operation::Leaf | Operation::Add => Weight::One,
        Operation::Subtract => if p == operands[0] {
            Weight::One
        } else {
            Weight::MinusOne
        },
        Operation::Multiply => if p == operands[0] {
            Weight::ValueOf(operands[1])
        } else {
            Weight::ValueOf(operands[0])
        },
        Operation::Tanh => Weight::TanhSlopeAt(p),
    }
}

/// The steps by which node `c` hands its gradient to its operands, left to
/// right.  A leaf hands nothing on.
pub open spec fn local_steps(g: Seq<Node>, c: usize) -> Seq<Step> {
    let operands = g[c as int].operands;
    match g[c as int].operation {
        Operation::Leaf => Seq::empty(),
        Operation::Add => seq![
            Step::Accumulate { into: operands[0], from: c, weight: Weight::One },
            Step::Accumulate { into: operands[1], from: c, weight: Weight::One },
        ],
        Operation::Subtract => seq![
            Step::Accumulate { into: operands[0], from: c, weight: Weight::One },
            Step::Accumulate { into: operands[1], from: c, weight: Weight::MinusOne },
        ],
        Operation::Multiply => seq![
            Step::Accumulate { into: operands[0], from: c, weight: Weight::ValueOf(operands[1]) },
            Step::Accumulate { into: operands[1], from: c, weight: Weight::ValueOf(operands[0]) },
        ],
        Operation::Tanh => seq![
            Step::Accumulate { into: operands[0], from: c, weight: Weight::TanhSlopeAt(operands[0]) },
        ],
    }
}

/// The nodes with a handle of at least `lo` that `root` depends on, newest
/// first.
pub open spec fn reached_down_to(g: Seq<Node>, root: usize, lo: nat) -> Seq<usize>
    decreases root + 1 - lo,
{
    if lo > root {
        Seq::empty()
    } else if reaches(g, root, lo as usize) {
        reached_down_to(g, root, lo + 1).push(lo as usize)
    } else {
        reached_down_to(g, root, lo + 1)
    }
}

/// The nodes that `root` depends on, newest first, so `root` first.  A node
/// is made after its operands, so each node stands before its operands here.
pub open spec fn order_of(g: Seq<Node>, root: usize) -> Seq<usize> {
    reached_down_to(g, root, 0)
}

/// The local steps of the nodes of `order`, one node after the other.
pub open spec fn steps_along(g: Seq<Node>, order: Seq<usize>) -> Seq<Step>
    decreases order.len(),
{
    if order.len() == 0 {
        Seq::empty()
    } else {
        steps_along(g, order.drop_last()) + local_steps(g, order.last())
    }
}

/// The backward pass from `root`: seed its gradient, then let each node that
/// it depends on hand its gradient to its operands, consumers first.
pub open spec fn tape_of(g: Seq<Node>, root: usize) -> Seq<Step> {
    seq![Step::Seed { node: root }] + steps_along(g, order_of(g, root))
}

/// What `reached_down_to` holds: the handles from `lo` up that `root`
/// depends on, each once, in falling order.
pub proof fn lemma_reached_down_to(g: Seq<Node>, root: usize, lo: nat)
    ensures
        forall|x: usize| #[trigger]
            reached_down_to(g, root, lo).contains(x) <==> lo <= x && reaches(g, root, x),
        forall|i: int, j: int|
            0 <= i < j < reached_down_to(g, root, lo).len() ==> reached_down_to(g, root, lo)[i]
                > reached_down_to(g, root, lo)[j],
    decreases root + 1 - lo,
{
    let s = reached_down_to(g, root, lo);
    if lo > root {
        assert forall|x: usize| lo <= x implies !reaches(g, root, x) by {
            if reaches(g, root, x) {
                lemma_reaches_bounds(g, root, x);
            }
        }
    } else {
        let rest = reached_down_to(g, root, lo + 1);
        lemma_reached_down_to(g, root, lo + 1);
        if reaches(g, root, lo as usize) {
            assert(s[rest.len() as int] == lo);
            assert forall|x: usize| #[trigger] s.contains(x) <==> lo <= x && reaches(g, root, x) by {
                if s.contains(x) {
                    let j = choose|j: int| 0 <= j < s.len() && s[j] == x;
                    if j < rest.len() {
                        assert(rest[j] == x);
                        assert(rest.contains(x));
                    }
                }
                if lo < x && reaches(g, root, x) {
                    assert(rest.contains(x));
                    let j = choose|j: int| 0 <= j < rest.len() && rest[j] == x;
                    assert(s[j] == x);
                }
            }
            assert forall|i: int, j: int| 0 <= i < j < s.len() implies s[i] > s[j] by {
                assert(s[i] == rest[i]);
                assert(rest.contains(rest[i]));
            }
        }
    }
}

/// The order of the backward pass holds exactly the nodes that `root` depends
/// on, each once, `root` first, and every node before each of its operands.
pub proof fn lemma_order_is_topological(g: Seq<Node>, root: usize)
    requires
        well_formed(g),
        root < g.len(),
    ensures
        order_of(g, root).no_duplicates(),
        forall|x: usize| #[trigger] order_of(g, root).contains(x) <==> reaches(g, root, x),
        order_of(g, root).len() > 0 && order_of(g, root)[0] == root,
        forall|i: int, j: int|
            0 <= i < order_of(g, root).len() && 0 <= j < order_of(g, root).len() && #[trigger] has_edge(
                g,
                order_of(g, root)[j],
                order_of(g, root)[i],
            ) ==> i < j,
{
    let order = order_of(g, root);
    lemma_reached_down_to(g, root, 0);
    assert forall|x: usize| #[trigger] order.contains(x) <==> reaches(g, root, x) by {
        if reaches(g, root, x) {
            lemma_reaches_bounds(g, root, x);
        }
    }
    assert(reaches(g, root, root));
    assert(order.len() > 0 && order[0] == root) by {
        assert(order.contains(root));
        let j = choose|j: int| 0 <= j < order.len() && order[j] == root;
        assert(order.contains(order[0]));
        lemma_reaches_bounds(g, root, order[0]);
        if j > 0 {
            assert(order[0] > order[j]);
        }
    }
    assert forall|i: int, j: int| 0 <= i < order.len() && 0 <= j < order.len() && i != j implies order[i]
        != order[j] by {
        if i < j {
            assert(order[i] > order[j]);
        } else {
            assert(order[j] > order[i]);
        }
    }
    assert forall|i: int, j: int|
        0 <= i < order.len() && 0 <= j < order.len() && #[trigger] has_edge(
            g,
            order[j],
            order[i],
        ) implies i < j by {
        let c = order[i];
        let p = order[j];
        let k = choose|k: int| 0 <= k < g[c as int].operands.len() && g[c as int].operands[k] == p;
        assert(g[c as int].operands_below(c as int));
        assert(p < c);
        if j < i {
            assert(order[j] > order[i]);
        }
    }
}

/// The local steps of a node are one step for each operand, in order, each
/// weighted by the local derivative.
pub proof fn lemma_local_steps(g: Seq<Node>, c: usize)
    requires
        c < g.len(),
        g[c as int].well_formed(),
    ensures
        local_steps(g, c).len() == g[c as int].operands.len(),
        forall|k: int|
            0 <= k < g[c as int].operands.len() ==> #[trigger] local_steps(g, c)[k]
                == (Step::Accumulate {
                into: g[c as int].operands[k],
                from: c,
                weight: weight_of(g, g[c as int].operands[k], c),
            }),
{
}

/// What the steps along a falling order are: for each node of the order and
/// each of its operands one step, no step twice, the steps of a newer node
/// before those of an older one.
pub proof fn lemma_steps_along(g: Seq<Node>, order: Seq<usize>)
    requires
        well_formed(g),
        forall|i: int| 0 <= i < order.len() ==> order[i] < g.len(),
        forall|i: int, j: int| 0 <= i < j < order.len() ==> order[i] > order[j],
    ensures
        steps_along(g, order).no_duplicates(),
        forall|i: int|
            0 <= i < steps_along(g, order).len() ==> (#[trigger] steps_along(g, order)[i] matches Step::Accumulate {
                into,
                from,
                weight,
            } && order.contains(from) && has_edge(g, into, from) && weight == weight_of(g, into, from)),
        forall|p: usize, c: usize|
            order.contains(c) && #[trigger] has_edge(g, p, c) ==> steps_along(g, order).contains(
                Step::Accumulate { into: p, from: c, weight: weight_of(g, p, c) },
            ),
        forall|i: int, j: int|
            0 <= i < j < steps_along(g, order).len() ==> !(#[trigger] steps_along(g, order)[i]).hands_on(
                (#[trigger] steps_along(g, order)[j]).target(),
            ),
    decreases order.len(),
{
    let steps = steps_along(g, order);
    if order.len() > 0 {
        let front = order.drop_last();
        let c = order.last();
        let early = steps_along(g, front);
        let local = local_steps(g, c);
        lemma_steps_along(g, front);
        lemma_local_steps(g, c);
        assert(g[c as int].well_formed() && g[c as int].operands_below(c as int));
        assert(steps =~= early + local);
        assert forall|x: usize| front.contains(x) implies order.contains(x) && x > c by {
            let j = choose|j: int| 0 <= j < front.len() && front[j] == x;
            assert(order[j] == x);
        }
        assert(order.contains(c)) by {
            assert(order[order.len() - 1] == c);
        }
        assert forall|i: int| 0 <= i < steps.len() implies (#[trigger] steps[i] matches Step::Accumulate {
            into,
            from,
            weight,
        } && order.contains(from) && has_edge(g, into, from) && weight == weight_of(
            g,
            into,
            from,
        )) by {
            if i < early.len() {
                assert(steps[i] == early[i]);
            } else {
                let k = i - early.len();
                assert(steps[i] == local[k]);
                assert(g[c as int].operands.contains(g[c as int].operands[k]));
            }
        }
        assert forall|i: int, j: int| 0 <= i < j < steps.len() implies !(#[trigger] steps[i]).hands_on(
            (#[trigger] steps[j]).target(),
        ) && steps[i] != steps[j] by {
            if j < early.len() {
                assert(steps[i] == early[i] && steps[j] == early[j]);
            } else {
                let k = j - early.len();
                assert(steps[j] == local[k]);
                assert(g[c as int].operands[k] < c);
                if i < early.len() {
                    assert(steps[i] == early[i]);
                } else {
                    assert(steps[i] == local[i - early.len()]);
                }
            }
        }
        assert forall|p: usize, c2: usize|
            order.contains(c2) && #[trigger] has_edge(g, p, c2) implies steps.contains(
            Step::Accumulate { into: p, from: c2, weight: weight_of(g, p, c2) },
        ) by {
            let step = Step::Accumulate { into: p, from: c2, weight: weight_of(g, p, c2) };
            if c2 == c {
                let k = choose|k: int|
                    0 <= k < g[c as int].operands.len() && g[c as int].operands[k] == p;
                assert(steps[early.len() + k] == local[k]);
            } else {
                let j = choose|j: int| 0 <= j < order.len() && order[j] == c2;
                assert(front[j] == c2);
                assert(front.contains(c2));
                assert(early.contains(step));
                let i = choose|i: int| 0 <= i < early.len() && early[i] == step;
                assert(steps[i] == step);
            }
        }
    }
}

/// The tape of a backward pass is the seed and, for each edge among the nodes
/// that `root` depends on, exactly one step: from the consumer into the
/// operand, weighted by the local derivative.  A node reached along several
/// paths receives one contribution for each edge that enters it.
pub proof fn lemma_tape_follows_edges(g: Seq<Node>, root: usize)
    requires
        well_formed(g),
        root < g.len(),
    ensures
        tape_of(g, root).no_duplicates(),
        tape_of(g, root)[0] == (Step::Seed { node: root }),
        forall|i: int| 1 <= i < tape_of(g, root).len() ==> #[trigger] tape_of(g, root)[i] is Accumulate,
        forall|p: usize, c: usize, w: Weight|
            #[trigger] tape_of(g, root).contains(Step::Accumulate { into: p, from: c, weight: w })
                <==> reaches(g, root, c) && has_edge(g, p, c) && w == weight_of(g, p, c),
{
    let order = order_of(g, root);
    let steps = steps_along(g, order);
    let tape = tape_of(g, root);
    lemma_reached_down_to(g, root, 0);
    lemma_order_is_topological(g, root);
    assert forall|i: int| 0 <= i < order.len() implies order[i] < g.len() by {
        assert(order.contains(order[i]));
        lemma_reaches_bounds(g, root, order[i]);
    }
    lemma_steps_along(g, order);
    assert forall|i: int| 1 <= i < tape.len() implies #[trigger] tape[i] is Accumulate by {
        assert(tape[i] == steps[i - 1]);
    }
    assert forall|i: int, j: int| 0 <= i < tape.len() && 0 <= j < tape.len() && i != j implies tape[i]
        != tape[j] by {
        if i > 0 {
            assert(tape[i] == steps[i - 1]);
        }
        if j > 0 {
            assert(tape[j] == steps[j - 1]);
        }
    }
    assert forall|p: usize, c: usize, w: Weight|
        #[trigger] tape.contains(Step::Accumulate { into: p, from: c, weight: w }) <==> reaches(
            g,
            root,
            c,
        ) && has_edge(g, p, c) && w == weight_of(g, p, c) by {
        let step = Step::Accumulate { into: p, from: c, weight: w };
        if tape.contains(step) {
            let i = choose|i: int| 0 <= i < tape.len() && tape[i] == step;
            assert(tape[i] == steps[i - 1]);
            assert(order.contains(c));
        }
        if reaches(g, root, c) && has_edge(g, p, c) && w == weight_of(g, p, c) {
            assert(order.contains(c));
            assert(steps.contains(step));
            let i = choose|i: int| 0 <= i < steps.len() && steps[i] == step;
            assert(tape[i + 1] == step);
        }
    }
}

/// Once a node has handed its gradient on, no later step changes that
/// gradient: every contribution to a node comes before the node's own turn.
pub proof fn lemma_tape_settles_before_handing_on(g: Seq<Node>, root: usize)
    requires
        well_formed(g),
        root < g.len(),
    ensures
        forall|i: int, j: int|
            0 <= i < j < tape_of(g, root).len() ==> !(#[trigger] tape_of(g, root)[i]).hands_on(
                (#[trigger] tape_of(g, root)[j]).target(),
            ),
{
    let order = order_of(g, root);
    let steps = steps_along(g, order);
    let tape = tape_of(g, root);
    lemma_reached_down_to(g, root, 0);
    lemma_order_is_topological(g, root);
    assert forall|i: int| 0 <= i < order.len() implies order[i] < g.len() by {
        assert(order.contains(order[i]));
        lemma_reaches_bounds(g, root, order[i]);
    }
    lemma_steps_along(g, order);
    assert forall|i: int, j: int| 0 <= i < j < tape.len() implies !(#[trigger] tape[i]).hands_on(
        (#[trigger] tape[j]).target(),
    ) by {
        assert(tape[j] == steps[j - 1]);
        if i > 0 {
            assert(tape[i] == steps[i - 1]);
        }
    }
}

impl Computation {
    /// The nodes that `root` depends on, in the order in which the backward
    /// pass visits them: `root` first, and each node before its operands, so
    /// that a node has heard from all its consumers when its turn comes.
    pub fn topological_order(&self, root: usize) -> (order: Vec<usize>)
        requires
            well_formed(self@),
            root < self@.len(),
        ensures
            order@ == order_of(self@, root),
    {
        let n = self.len();
        let (nodes, _) = self.trace(root);
        let mut reached = all_false(n);
        let mut i: usize = 0;
        while i < nodes.len()
            invariant
                n == self@.len(),
                i <= nodes@.len(),
                reached@.len() == n,
                forall|x: usize| #[trigger] nodes@.contains(x) <==> reaches(self@, root, x),
                forall|x: int|
                    0 <= x < n ==> (#[trigger] reached@[x] <==> exists|j: int|
                        0 <= j < i && nodes@[j] == x),
            decreases nodes@.len() - i,
        {
            let x = nodes[i];
            proof {
                assert(nodes@.contains(x));
                lemma_reaches_bounds(self@, root, x);
            }
            reached.set(x, true);
            i += 1;
        }
        let mut order: Vec<usize> = Vec::new();
        let mut lo: usize = root + 1;
        while lo > 0
            invariant
                n == self@.len(),
                lo <= root + 1 <= n,
                reached@.len() == n,
                forall|x: usize| #[trigger] nodes@.contains(x) <==> reaches(self@, root, x),
                forall|x: int|
                    0 <= x < n ==> (#[trigger] reached@[x] <==> exists|j: int|
                        0 <= j < nodes@.len() && nodes@[j] == x),
                order@ == reached_down_to(self@, root, lo as nat),
            decreases lo,
        {
            lo -= 1;
            proof {
                if reached@[lo as int] {
                    let j = choose|j: int| 0 <= j < nodes@.len() && nodes@[j] == lo;
                    assert(nodes@.contains(lo));
                } else if reaches(self@, root, lo) {
                    assert(nodes@.contains(lo));
                    let j = choose|j: int| 0 <= j < nodes@.len() && nodes@[j] == lo;
                    assert(false);
                }
            }
            if reached[lo] {
                order.push(lo);
            }
        }
        order
    }

    /// Appends to `tape` the steps by which node `c` hands its gradient to its
    /// operands.
    fn push_local_steps(&self, c: usize, tape: &mut Vec<Step>)
        requires
            well_formed(self@),
            c < self@.len(),
        ensures
            final(tape)@ == old(tape)@ + local_steps(self@, c),
    {
        let value = self.node(c);
        let operands = value.operands();
        assert(self@[c as int].well_formed());
        match value.operation() {
            Operation::Leaf => {
                assert(tape@ =~= old(tape)@ + local_steps(self@, c));
            },
            Operation::Add => {
                tape.push(Step::Accumulate { into: operands[0], from: c, weight: Weight::One });
                tape.push(Step::Accumulate { into: operands[1], from: c, weight: Weight::One });
                assert(tape@ =~= old(tape)@ + local_steps(self@, c));
            },
            Operation::Subtract => {
                tape.push(Step::Accumulate { into: operands[0], from: c, weight: Weight::One });
                tape.push(Step::Accumulate { into: operands[1], from: c, weight: Weight::MinusOne });
                assert(tape@ =~= old(tape)@ + local_steps(self@, c));
            },
            Operation::Multiply => {
                tape.push(
                    Step::Accumulate {
                        into: operands[0],
                        from: c,
                        weight: Weight::ValueOf(operands[1]),
                    },
                );
                tape.push(
                    Step::Accumulate {
                        into: operands[1],
                        from: c,
                        weight: Weight::ValueOf(operands[0]),
                    },
                );
                assert(tape@ =~= old(tape)@ + local_steps(self@, c));
            },
            Operation::Tanh => {
                tape.push(
                    Step::Accumulate {
                        into: operands[0],
                        from: c,
                        weight: Weight::TanhSlopeAt(operands[0]),
                    },
                );
                assert(tape@ =~= old(tape)@ + local_steps(self@, c));
            },
        }
    }

    /// Lays out the backward pass from `root` as a tape: first the seed, then,
    /// for each node that `root` depends on, consumers first, the steps that
    /// add its gradient, weighted by the local derivative, to the gradient of
    /// each operand.  The tape is to be run in order over the values and the
    /// gradients of the nodes.
    pub fn backward(&self, root: usize) -> (tape: Vec<Step>)
        requires
            well_formed(self@),
            root < self@.len(),
        ensures
            tape@ == tape_of(self@, root),
    {
        let order = self.topological_order(root);
        let mut tape: Vec<Step> = Vec::new();
        tape.push(Step::Seed { node: root });
        let mut i: usize = 0;
        proof {
            lemma_order_is_topological(self@, root);
            assert(order@.take(0) =~= Seq::<usize>::empty());
        }
        while i < order.len()
            invariant
                well_formed(self@),
                i <= order@.len(),
                forall|x: usize| #[trigger] order@.contains(x) ==> reaches(self@, root, x),
                tape@ == seq![Step::Seed { node: root }] + steps_along(self@, order@.take(i as int)),
            decreases order@.len() - i,
        {
            let c = order[i];
            let ghost before = tape@;
            proof {
                assert(order@.contains(c));
                lemma_reaches_bounds(self@, root, c);
                assert(order@.take(i + 1).drop_last() =~= order@.take(i as int));
                assert(order@.take(i + 1).last() == c);
            }
            self.push_local_steps(c, &mut tape);
            assert(tape@ =~= seq![Step::Seed { node: root }] + steps_along(
                self@,
                order@.take(i + 1),
            ));
            i += 1;
        }
        assert(order@.take(order@.len() as int) =~= order@);
        tape
    }
}

} // verus!
