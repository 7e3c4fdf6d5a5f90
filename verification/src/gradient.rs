//! What a backward pass leaves in each node, in any arithmetic: the gradient
//! that the chain rule gives, gathered from the node's consumers newest first.
use crate::arithmetic::{all_zero, Arithmetic};
use crate::backward::{
    lemma_local_steps, local_steps, order_of, reached_down_to, steps_along, tape_of, weight_of, Step,
};
use crate::graph::{has_edge, reaches, well_formed};
use crate::value::Node;
use vstd::prelude::*;

verus! {

/// The gradient of node `n` after a backward pass from `root`: one for `root`
/// itself, `zero` for a node made after `root`, and for a node made before it
/// what its consumers have handed down.
pub open spec fn gradient_of<S>(
    arith: Arithmetic<S>,
    zero: S,
    g: Seq<Node>,
    values: Seq<S>,
    root: usize,
    n: usize,
) -> S
    decreases root - n, root + 2,
{
    if n == root {
        arith.one
    } else if n > root {
        zero
    } else {
        gathered(arith, zero, g, values, root, n, (n + 1) as nat)
    }
}

/// The gradient of node `n` once its consumers with a handle of at least `lo`
/// have handed theirs down.  It starts from `zero`; then each node `c` that
/// `root` depends on and that has `n` as an operand, from the newest to the
/// oldest, adds its own gradient times its local derivative by `n`.
pub open spec fn gathered<S>(
    arith: Arithmetic<S>,
    zero: S,
    g: Seq<Node>,
    values: Seq<S>,
    root: usize,
    n: usize,
    lo: nat,
) -> S
    decreases root - n, root + 1 - lo,
{
    if lo > root || lo <= n {
        zero
    } else {
        let so_far = gathered(arith, zero, g, values, root, n, lo + 1);
        let c = lo as usize;
        if reaches(g, root, c) && has_edge(g, n, c) {
            arith.accumulate(
                so_far,
                gradient_of(arith, zero, g, values, root, c),
                weight_of(g, n, c),
                values,
            )
        } else {
            so_far
        }
    }
}

/// The gradient of node `m` once every node with a handle of at least `lo`
/// has had its turn.
spec fn settled<S>(
    arith: Arithmetic<S>,
    zero: S,
    g: Seq<Node>,
    values: Seq<S>,
    root: usize,
    m: usize,
    lo: nat,
) -> S {
    if m == root {
        arith.one
    } else if m > root {
        zero
    } else if lo > m {
        gathered(arith, zero, g, values, root, m, lo)
    } else {
        gathered(arith, zero, g, values, root, m, (m + 1) as nat)
    }
}

/// The gradients once every node with a handle of at least `lo` has had its
/// turn.
spec fn swept<S>(
    arith: Arithmetic<S>,
    zero: S,
    g: Seq<Node>,
    values: Seq<S>,
    root: usize,
    lo: nat,
) -> Seq<S> {
    arith.run(
        steps_along(g, reached_down_to(g, root, lo)),
        values,
        all_zero(g.len(), zero).update(root as int, arith.one),
    )
}

/// Node by node, newest first, the backward pass settles the gradients.
proof fn lemma_sweep<S>(
    arith: Arithmetic<S>,
    zero: S,
    g: Seq<Node>,
    values: Seq<S>,
    root: usize,
    lo: nat,
)
    requires
        well_formed(g),
        root < g.len(),
        lo <= root + 1,
    ensures
        swept(arith, zero, g, values, root, lo).len() == g.len(),
        forall|m: usize|
            m < g.len() ==> #[trigger] swept(arith, zero, g, values, root, lo)[m as int] == settled(
                arith,
                zero,
                g,
                values,
                root,
                m,
                lo,
            ),
    decreases root + 1 - lo,
{
    let seeded = all_zero(g.len(), zero).update(root as int, arith.one);
    let now = swept(arith, zero, g, values, root, lo);
    if lo > root {
        assert(steps_along(g, reached_down_to(g, root, lo)) =~= Seq::<Step>::empty());
        assert(now == seeded);
    } else {
        let c = lo as usize;
        let before = swept(arith, zero, g, values, root, lo + 1);
        let early = steps_along(g, reached_down_to(g, root, lo + 1));
        lemma_sweep(arith, zero, g, values, root, lo + 1);
        assert(g[c as int].well_formed() && g[c as int].operands_below(c as int));
        assert forall|m: usize| m < g.len() implies before[m as int] == settled(
            arith,
            zero,
            g,
            values,
            root,
            m,
            lo + 1,
        ) by {}
        if !reaches(g, root, c) {
            assert(now == before);
        } else {
            let local = local_steps(g, c);
            lemma_local_steps(g, c);
            assert(reached_down_to(g, root, lo).drop_last() =~= reached_down_to(g, root, lo + 1));
            assert(steps_along(g, reached_down_to(g, root, lo)) == early + local);
            arith.lemma_run_concat(early, local, values, seeded);
            assert(now == arith.run(local, values, before));
            // The gradient of `c` is settled.
            let d = gradient_of(arith, zero, g, values, root, c);
            assert(before[c as int] == d);
            let operands = g[c as int].operands;
            if operands.len() == 0 {
                assert(local =~= Seq::<Step>::empty());
                assert(now == before);
                assert forall|m: usize| m < g.len() implies !has_edge(g, m, c) by {}
            } else if operands.len() == 1 {
                let p = operands[0];
                let s0 = Step::Accumulate { into: p, from: c, weight: weight_of(g, p, c) };
                assert(local =~= Seq::<Step>::empty().push(s0));
                arith.lemma_run_push(Seq::empty(), s0, values, before);
                assert(operands.contains(operands[0]));
                assert forall|m: usize| m < g.len() && m != p implies !has_edge(g, m, c) by {
                    if has_edge(g, m, c) {
                        let k = choose|k: int| 0 <= k < operands.len() && operands[k] == m;
                    }
                }
            } else {
                let p = operands[0];
                let q = operands[1];
                let s0 = Step::Accumulate { into: p, from: c, weight: weight_of(g, p, c) };
                let s1 = Step::Accumulate { into: q, from: c, weight: weight_of(g, q, c) };
                assert(local =~= Seq::<Step>::empty().push(s0).push(s1));
                arith.lemma_run_push(Seq::empty(), s0, values, before);
                arith.lemma_run_push(Seq::empty().push(s0), s1, values, before);
                assert(operands.contains(operands[0]));
                assert(operands.contains(operands[1]));
                assert forall|m: usize| m < g.len() && m != p && m != q implies !has_edge(g, m, c) by {
                    if has_edge(g, m, c) {
                        let k = choose|k: int| 0 <= k < operands.len() && operands[k] == m;
                    }
                }
            }
        }
    }
}

/// What a backward pass leaves.  Run from gradients that are all `zero`, in
/// any arithmetic, the tape of `root` leaves in every node the gradient that
/// the chain rule gives: one in `root`, and in any other node what its
/// consumers hand down, each its own gradient times its local derivative, all
/// of them gathered, however many paths lead to the node.
pub proof fn lemma_backward_leaves_gradients<S>(
    arith: Arithmetic<S>,
    zero: S,
    g: Seq<Node>,
    values: Seq<S>,
    root: usize,
)
    requires
        well_formed(g),
        root < g.len(),
    ensures
        arith.run(tape_of(g, root), values, all_zero(g.len(), zero)).len() == g.len(),
        forall|n: usize|
            n < g.len() ==> #[trigger] arith.run(tape_of(g, root), values, all_zero(g.len(), zero))[n as int]
                == gradient_of(arith, zero, g, values, root, n),
{
    let seed = Seq::<Step>::empty().push(Step::Seed { node: root });
    let start = all_zero(g.len(), zero);
    assert(tape_of(g, root) =~= seed + steps_along(g, order_of(g, root)));
    arith.lemma_run_concat(seed, steps_along(g, order_of(g, root)), values, start);
    arith.lemma_run_push(Seq::empty(), Step::Seed { node: root }, values, start);
    lemma_sweep(arith, zero, g, values, root, 0);
    assert(arith.run(tape_of(g, root), values, start) == swept(arith, zero, g, values, root, 0));
    assert forall|n: usize| n < g.len() implies #[trigger] arith.run(tape_of(g, root), values, start)[n as int]
        == gradient_of(arith, zero, g, values, root, n) by {
        assert(swept(arith, zero, g, values, root, 0)[n as int] == settled(
            arith,
            zero,
            g,
            values,
            root,
            n,
            0,
        ));
    }
}

} // verus!
