//! The local rules at work: what a backward pass leaves at the operands of a
//! single operation, and at a node that is used twice.
use crate::arithmetic::{all_zero, Arithmetic};
use crate::backward::{
    lemma_order_is_topological, lemma_reached_down_to, local_steps, order_of, steps_along, tape_of, Step,
    Weight,
};
use crate::graph::{
    lemma_leaf_reaches_itself_only, lemma_push_keeps_well_formed, lemma_reaches_through_operands, reaches,
    well_formed,
};
use crate::value::{Node, Operation};
use vstd::prelude::*;

verus! {

/// Leaves at the end of an order add no steps.
pub proof fn lemma_trailing_leaves_add_no_steps(g: Seq<Node>, order: Seq<usize>, k: int)
    requires
        0 <= k <= order.len(),
        forall|j: int| k <= j < order.len() ==> g[(#[trigger] order[j]) as int].operation == Operation::Leaf,
    ensures
        steps_along(g, order) == steps_along(g, order.take(k)),
    decreases order.len(),
{
    if k == order.len() {
        assert(order.take(k) =~= order);
    } else {
        let front = order.drop_last();
        lemma_trailing_leaves_add_no_steps(g, front, k);
        assert(front.take(k) =~= order.take(k));
        assert(g[order[order.len() - 1] as int].operation == Operation::Leaf);
        assert(steps_along(g, front) + local_steps(g, order.last()) =~= steps_along(g, front));
    }
}

/// The tape of a backward pass from a node whose operands are all leaves:
/// the seed, then the node's own steps.
pub proof fn lemma_tape_over_leaves(g: Seq<Node>, root: usize)
    requires
        well_formed(g),
        root < g.len(),
        forall|k: int|
            0 <= k < g[root as int].operands.len() ==> g[(#[trigger] g[root as int].operands[k]) as int].operation
                == Operation::Leaf,
    ensures
        tape_of(g, root) == seq![Step::Seed { node: root }] + local_steps(g, root),
{
    let order = order_of(g, root);
    lemma_order_is_topological(g, root);
    lemma_reached_down_to(g, root, 0);
    assert forall|j: int| 1 <= j < order.len() implies g[(#[trigger] order[j]) as int].operation
        == Operation::Leaf by {
        let t = order[j];
        assert(order.contains(t));
        assert(order[0] > order[j]);
        lemma_reaches_through_operands(g, root, t);
        let k = choose|k: int|
            0 <= k < g[root as int].operands.len() && reaches(g, #[trigger] g[root as int].operands[k], t);
        let p = g[root as int].operands[k];
        assert(g[root as int].operands_below(root as int));
        assert(g[p as int].well_formed());
        lemma_leaf_reaches_itself_only(g, p, t);
    }
    lemma_trailing_leaves_add_no_steps(g, order, 1);
    assert(order.take(1) =~= seq![root]);
    assert(seq![root].drop_last() =~= Seq::<usize>::empty());
    assert(seq![root].last() == root);
    assert(steps_along(g, Seq::<usize>::empty()) =~= Seq::<Step>::empty());
    assert(steps_along(g, seq![root]) =~= local_steps(g, root));
}

/// The sum of two leaves is the sum of their values, and a backward pass from
/// it leaves the gradient one in both leaves, in any arithmetic in which zero
/// plus one is one.
pub proof fn lemma_sum_of_leaves<S>(
    arith: Arithmetic<S>,
    zero: S,
    g: Seq<Node>,
    a: usize,
    b: usize,
    values: Seq<S>,
)
    requires
        well_formed(g),
        g.len() < usize::MAX,
        a < g.len(),
        b < g.len(),
        a != b,
        g[a as int].operation == Operation::Leaf,
        g[b as int].operation == Operation::Leaf,
        (arith.plus)(zero, arith.one) == arith.one,
    ensures
        ({
            let sum = g.len() as usize;
            let h = g.push(Node::binary(Operation::Add, a, b));
            let gradients = arith.run(tape_of(h, sum), values, all_zero(h.len(), zero));
            &&& arith.evaluates(h, values) ==> values[sum as int] == (arith.plus)(
                values[a as int],
                values[b as int],
            )
            &&& gradients[a as int] == arith.one
            &&& gradients[b as int] == arith.one
        }),
{
    let sum = g.len() as usize;
    let node = Node::binary(Operation::Add, a, b);
    let h = g.push(node);
    let start = all_zero(h.len(), zero);
    lemma_push_keeps_well_formed(g, node);
    lemma_tape_over_leaves(h, sum);
    let t0 = seq![Step::Seed { node: sum }];
    let s1 = Step::Accumulate { into: a, from: sum, weight: Weight::One };
    let s2 = Step::Accumulate { into: b, from: sum, weight: Weight::One };
    assert(tape_of(h, sum) =~= t0.push(s1).push(s2));
    arith.lemma_run_push(Seq::empty(), Step::Seed { node: sum }, values, start);
    assert(Seq::<Step>::empty().push(Step::Seed { node: sum }) =~= t0);
    arith.lemma_run_push(t0, s1, values, start);
    arith.lemma_run_push(t0.push(s1), s2, values, start);
    if arith.evaluates(h, values) {
        assert(h[sum as int].operation == Operation::Add);
    }
}

/// A backward pass from the difference of two leaves leaves the gradient one
/// in the first and zero minus one in the second.
pub proof fn lemma_difference_of_leaves<S>(
    arith: Arithmetic<S>,
    zero: S,
    g: Seq<Node>,
    a: usize,
    b: usize,
    values: Seq<S>,
)
    requires
        well_formed(g),
        g.len() < usize::MAX,
        a < g.len(),
        b < g.len(),
        a != b,
        g[a as int].operation == Operation::Leaf,
        g[b as int].operation == Operation::Leaf,
        (arith.plus)(zero, arith.one) == arith.one,
    ensures
        ({
            let difference = g.len() as usize;
            let h = g.push(Node::binary(Operation::Subtract, a, b));
            let gradients = arith.run(tape_of(h, difference), values, all_zero(h.len(), zero));
            &&& arith.evaluates(h, values) ==> values[difference as int] == (arith.minus)(
                values[a as int],
                values[b as int],
            )
            &&& gradients[a as int] == arith.one
            &&& gradients[b as int] == (arith.minus)(zero, arith.one)
        }),
{
    let root = g.len() as usize;
    let node = Node::binary(Operation::Subtract, a, b);
    let h = g.push(node);
    let start = all_zero(h.len(), zero);
    lemma_push_keeps_well_formed(g, node);
    lemma_tape_over_leaves(h, root);
    let t0 = seq![Step::Seed { node: root }];
    let s1 = Step::Accumulate { into: a, from: root, weight: Weight::One };
    let s2 = Step::Accumulate { into: b, from: root, weight: Weight::MinusOne };
    assert(tape_of(h, root) =~= t0.push(s1).push(s2));
    arith.lemma_run_push(Seq::empty(), Step::Seed { node: root }, values, start);
    assert(Seq::<Step>::empty().push(Step::Seed { node: root }) =~= t0);
    arith.lemma_run_push(t0, s1, values, start);
    arith.lemma_run_push(t0.push(s1), s2, values, start);
    if arith.evaluates(h, values) {
        assert(h[root as int].operation == Operation::Subtract);
    }
}

/// The product of two leaves is the product of their values, and a backward
/// pass from it leaves in each leaf the value of the other, in any arithmetic
/// in which these values stay as they are when multiplied by one and added to
/// zero.
pub proof fn lemma_product_of_leaves<S>(
    arith: Arithmetic<S>,
    zero: S,
    g: Seq<Node>,
    a: usize,
    b: usize,
    values: Seq<S>,
)
    requires
        well_formed(g),
        g.len() < usize::MAX,
        a < g.len(),
        b < g.len(),
        a != b,
        g[a as int].operation == Operation::Leaf,
        g[b as int].operation == Operation::Leaf,
        (arith.plus)(zero, (arith.times)(arith.one, values[a as int])) == values[a as int],
        (arith.plus)(zero, (arith.times)(arith.one, values[b as int])) == values[b as int],
    ensures
        ({
            let product = g.len() as usize;
            let h = g.push(Node::binary(Operation::Multiply, a, b));
            let gradients = arith.run(tape_of(h, product), values, all_zero(h.len(), zero));
            &&& arith.evaluates(h, values) ==> values[product as int] == (arith.times)(
                values[a as int],
                values[b as int],
            )
            &&& gradients[a as int] == values[b as int]
            &&& gradients[b as int] == values[a as int]
        }),
{
    let root = g.len() as usize;
    let node = Node::binary(Operation::Multiply, a, b);
    let h = g.push(node);
    let start = all_zero(h.len(), zero);
    lemma_push_keeps_well_formed(g, node);
    lemma_tape_over_leaves(h, root);
    let t0 = seq![Step::Seed { node: root }];
    let s1 = Step::Accumulate { into: a, from: root, weight: Weight::ValueOf(b) };
    let s2 = Step::Accumulate { into: b, from: root, weight: Weight::ValueOf(a) };
    assert(tape_of(h, root) =~= t0.push(s1).push(s2));
    arith.lemma_run_push(Seq::empty(), Step::Seed { node: root }, values, start);
    assert(Seq::<Step>::empty().push(Step::Seed { node: root }) =~= t0);
    arith.lemma_run_push(t0, s1, values, start);
    arith.lemma_run_push(t0.push(s1), s2, values, start);
    if arith.evaluates(h, values) {
        assert(h[root as int].operation == Operation::Multiply);
    }
}

/// A backward pass from the hyperbolic tangent of a leaf leaves in the leaf
/// the slope of the tangent at the leaf's value: one minus the square of the
/// tangent.
pub proof fn lemma_tanh_of_leaf<S>(arith: Arithmetic<S>, zero: S, g: Seq<Node>, a: usize, values: Seq<S>)
    requires
        well_formed(g),
        g.len() < usize::MAX,
        a < g.len(),
        g[a as int].operation == Operation::Leaf,
        (arith.plus)(zero, (arith.times)(arith.one, arith.tanh_slope(values[a as int])))
            == arith.tanh_slope(values[a as int]),
    ensures
        ({
            let t = g.len() as usize;
            let h = g.push(Node::unary(Operation::Tanh, a));
            let gradients = arith.run(tape_of(h, t), values, all_zero(h.len(), zero));
            &&& arith.evaluates(h, values) ==> values[t as int] == (arith.tanh)(values[a as int])
            &&& gradients[a as int] == arith.tanh_slope(values[a as int])
        }),
{
    let root = g.len() as usize;
    let node = Node::unary(Operation::Tanh, a);
    let h = g.push(node);
    let start = all_zero(h.len(), zero);
    lemma_push_keeps_well_formed(g, node);
    lemma_tape_over_leaves(h, root);
    let t0 = seq![Step::Seed { node: root }];
    let s1 = Step::Accumulate { into: a, from: root, weight: Weight::TanhSlopeAt(a) };
    assert(tape_of(h, root) =~= t0.push(s1));
    arith.lemma_run_push(Seq::empty(), Step::Seed { node: root }, values, start);
    assert(Seq::<Step>::empty().push(Step::Seed { node: root }) =~= t0);
    arith.lemma_run_push(t0, s1, values, start);
    if arith.evaluates(h, values) {
        assert(h[root as int].operation == Operation::Tanh);
    }
}

/// A leaf used twice gathers both contributions.  Where `x`, `a` and `b` are
/// leaves, a backward pass from `x * a + x * b` leaves in `x` the sum of the
/// values of `a` and `b`, in any arithmetic in which these values stay as they
/// are when multiplied by one and added to zero, and their sum does not depend
/// on their order.
pub proof fn lemma_shared_leaf_gathers_both_paths<S>(
    arith: Arithmetic<S>,
    zero: S,
    g: Seq<Node>,
    x: usize,
    a: usize,
    b: usize,
    values: Seq<S>,
)
    requires
        well_formed(g),
        g.len() + 2 < usize::MAX,
        x < g.len(),
        a < g.len(),
        b < g.len(),
        x != a,
        x != b,
        a != b,
        g[x as int].operation == Operation::Leaf,
        g[a as int].operation == Operation::Leaf,
        g[b as int].operation == Operation::Leaf,
        (arith.plus)(zero, arith.one) == arith.one,
        (arith.times)(arith.one, values[a as int]) == values[a as int],
        (arith.times)(arith.one, values[b as int]) == values[b as int],
        (arith.plus)(zero, values[b as int]) == values[b as int],
        (arith.plus)(values[b as int], values[a as int]) == (arith.plus)(
            values[a as int],
            values[b as int],
        ),
    ensures
        ({
            let left = g.len() as usize;
            let right = (g.len() + 1) as usize;
            let y = (g.len() + 2) as usize;
            let h = g.push(Node::binary(Operation::Multiply, x, a)).push(
                Node::binary(Operation::Multiply, x, b),
            ).push(Node::binary(Operation::Add, left, right));
            let gradients = arith.run(tape_of(h, y), values, all_zero(h.len(), zero));
            gradients[x as int] == (arith.plus)(values[a as int], values[b as int])
        }),
{
    let left = g.len() as usize;
    let right = (g.len() + 1) as usize;
    let y = (g.len() + 2) as usize;
    let g1 = g.push(Node::binary(Operation::Multiply, x, a));
    let g2 = g1.push(Node::binary(Operation::Multiply, x, b));
    let h = g2.push(Node::binary(Operation::Add, left, right));
    let start = all_zero(h.len(), zero);
    lemma_push_keeps_well_formed(g, Node::binary(Operation::Multiply, x, a));
    lemma_push_keeps_well_formed(g1, Node::binary(Operation::Multiply, x, b));
    lemma_push_keeps_well_formed(g2, Node::binary(Operation::Add, left, right));
    assert(h[x as int] == g[x as int] && h[a as int] == g[a as int] && h[b as int] == g[b as int]);
    assert(h[left as int] == Node::binary(Operation::Multiply, x, a));
    assert(h[right as int] == Node::binary(Operation::Multiply, x, b));

    // What `y` depends on.
    assert forall|t: usize| reaches(h, y, t) implies t == y || t == right || t == left || h[t as int].operation
        == Operation::Leaf by {
        lemma_reaches_through_operands(h, y, t);
        lemma_reaches_through_operands(h, left, t);
        lemma_reaches_through_operands(h, right, t);
        lemma_leaf_reaches_itself_only(h, x, t);
        lemma_leaf_reaches_itself_only(h, a, t);
        lemma_leaf_reaches_itself_only(h, b, t);
    }
    assert(reaches(h, y, right)) by {
        assert(h[y as int].operands[1] == right);
        lemma_reaches_through_operands(h, y, right);
    }
    assert(reaches(h, y, left)) by {
        assert(h[y as int].operands[0] == left);
        lemma_reaches_through_operands(h, y, left);
    }

    // The order: `y`, `right`, `left`, then leaves.
    let order = order_of(h, y);
    lemma_order_is_topological(h, y);
    lemma_reached_down_to(h, y, 0);
    assert(order.contains(right) && order.contains(left));
    let jr = choose|j: int| 0 <= j < order.len() && order[j] == right;
    let jl = choose|j: int| 0 <= j < order.len() && order[j] == left;
    assert(jr == 1) by {
        if jr > 1 {
            assert(order[0] > order[1] > order[jr]);
        }
    }
    assert(jl == 2) by {
        if jl > 2 {
            assert(order[1] > order[2] > order[jl]);
        }
        if jl == 0 {
        }
    }
    assert forall|j: int| 3 <= j < order.len() implies h[(#[trigger] order[j]) as int].operation
        == Operation::Leaf by {
        assert(order.contains(order[j]));
        assert(order[2] > order[j]);
    }
    lemma_trailing_leaves_add_no_steps(h, order, 3);
    let top = seq![y, right, left];
    assert(order.take(3) =~= top);
    assert(top.drop_last() =~= seq![y, right]);
    assert(seq![y, right].drop_last() =~= seq![y]);
    assert(seq![y].drop_last() =~= Seq::<usize>::empty());
    assert(steps_along(h, Seq::<usize>::empty()) =~= Seq::<Step>::empty());
    assert(steps_along(h, seq![y]) =~= local_steps(h, y));
    assert(steps_along(h, seq![y, right]) =~= local_steps(h, y) + local_steps(h, right));
    assert(steps_along(h, top) =~= local_steps(h, y) + local_steps(h, right) + local_steps(h, left));

    let s0 = Step::Seed { node: y };
    let s1 = Step::Accumulate { into: left, from: y, weight: Weight::One };
    let s2 = Step::Accumulate { into: right, from: y, weight: Weight::One };
    let s3 = Step::Accumulate { into: x, from: right, weight: Weight::ValueOf(b) };
    let s4 = Step::Accumulate { into: b, from: right, weight: Weight::ValueOf(x) };
    let s5 = Step::Accumulate { into: x, from: left, weight: Weight::ValueOf(a) };
    let s6 = Step::Accumulate { into: a, from: left, weight: Weight::ValueOf(x) };
    let t0 = Seq::<Step>::empty().push(s0);
    let t1 = t0.push(s1);
    let t2 = t1.push(s2);
    let t3 = t2.push(s3);
    let t4 = t3.push(s4);
    let t5 = t4.push(s5);
    let t6 = t5.push(s6);
    assert(tape_of(h, y) =~= t6);
    arith.lemma_run_push(Seq::empty(), s0, values, start);
    arith.lemma_run_push(t0, s1, values, start);
    arith.lemma_run_push(t1, s2, values, start);
    arith.lemma_run_push(t2, s3, values, start);
    arith.lemma_run_push(t3, s4, values, start);
    arith.lemma_run_push(t4, s5, values, start);
    arith.lemma_run_push(t5, s6, values, start);
    let r2 = arith.run(t2, values, start);
    assert(r2[right as int] == arith.one && r2[left as int] == arith.one && r2[x as int] == zero);
    let r3 = arith.run(t3, values, start);
    assert(r3[x as int] == values[b as int]);
    let r4 = arith.run(t4, values, start);
    assert(r4[x as int] == values[b as int] && r4[left as int] == arith.one);
    let r5 = arith.run(t5, values, start);
    assert(r5[x as int] == (arith.plus)(values[b as int], values[a as int]));
}

} // verus!
