//! The backward pass is right: in exact arithmetic the tape leaves in every
//! node the derivative of the root by that node.
use crate::arithmetic::{all_zero, Arithmetic};
use crate::backward::{tape_of, weight_of, Weight};
use crate::gradient::{gathered, gradient_of, lemma_backward_leaves_gradients};
use crate::graph::{has_edge, lemma_reaches_extends, reaches, well_formed};
use crate::value::Node;
use vstd::prelude::*;

verus! {

/// The arithmetic of the integers, exact and without bounds, with `tanh` in
/// the place of the hyperbolic tangent.
pub open spec fn exact(tanh: spec_fn(int) -> int) -> Arithmetic<int> {
    Arithmetic {
        one: 1,
        plus: |a: int, b: int| a + b,
        minus: |a: int, b: int| a - b,
        times: |a: int, b: int| a * b,
        tanh,
    }
}

/// The number that a weight stands for.
pub open spec fn factor(tanh: spec_fn(int) -> int, weight: Weight, values: Seq<int>) -> int {
    match weight {
        Weight::One => 1,
        Weight::MinusOne => -1,
        Weight::ValueOf(b) => values[b as int],
        Weight::TanhSlopeAt(a) => 1 - tanh(values[a as int]) * tanh(values[a as int]),
    }
}

/// The derivative of node `root` by node `n`, by the chain rule: one for
/// `root` itself, and for another node the sum, over the nodes `c` that have
/// `n` as an operand, of the derivative of `root` by `c` times the local
/// derivative of `c` by `n`.
pub open spec fn derivative(
    g: Seq<Node>,
    tanh: spec_fn(int) -> int,
    values: Seq<int>,
    root: usize,
    n: usize,
) -> int
    decreases root - n, root - n + 1,
{
    if n == root {
        1
    } else if n > root {
        0
    } else {
        inflow(g, tanh, values, root, n, root)
    }
}

/// The part of the derivative of `root` by `n` that comes through the
/// consumers of `n` with a handle of at most `top`.
pub open spec fn inflow(
    g: Seq<Node>,
    tanh: spec_fn(int) -> int,
    values: Seq<int>,
    root: usize,
    n: usize,
    top: usize,
) -> int
    decreases root - n, top - n,
{
    if top <= n || top > root {
        0
    } else {
        inflow(g, tanh, values, root, n, (top - 1) as usize) + through(g, tanh, values, root, n, top)
    }
}

/// The part of the derivative of `root` by `n` that comes through node `c`.
pub open spec fn through(
    g: Seq<Node>,
    tanh: spec_fn(int) -> int,
    values: Seq<int>,
    root: usize,
    n: usize,
    c: usize,
) -> int
    decreases root - n, 0int,
{
    if n < c <= root && has_edge(g, n, c) {
        derivative(g, tanh, values, root, c) * factor(tanh, weight_of(g, n, c), values)
    } else {
        0
    }
}

/// In exact arithmetic a step adds the gradient times the weight's number.
proof fn lemma_exact_accumulate(
    tanh: spec_fn(int) -> int,
    acc: int,
    grad: int,
    weight: Weight,
    values: Seq<int>,
)
    ensures
        exact(tanh).accumulate(acc, grad, weight, values) == acc + grad * factor(tanh, weight, values),
{
}

/// Nothing comes through a node by which the root does not vary.
proof fn lemma_nothing_through_zero(
    g: Seq<Node>,
    tanh: spec_fn(int) -> int,
    values: Seq<int>,
    root: usize,
    n: usize,
    c: usize,
)
    requires
        derivative(g, tanh, values, root, c) == 0,
    ensures
        through(g, tanh, values, root, n, c) == 0,
{
    let d = derivative(g, tanh, values, root, c);
    let f = factor(tanh, weight_of(g, n, c), values);
    assert(d * f == 0) by (nonlinear_arith)
        requires
            d == 0,
    ;
}

/// The root does not vary with a node that it does not depend on.
pub proof fn lemma_no_derivative_without_dependence(
    g: Seq<Node>,
    tanh: spec_fn(int) -> int,
    values: Seq<int>,
    root: usize,
    n: usize,
)
    requires
        well_formed(g),
        root < g.len(),
        !reaches(g, root, n),
    ensures
        derivative(g, tanh, values, root, n) == 0,
    decreases root - n, root - n + 1,
{
    if n < root {
        lemma_no_inflow_without_dependence(g, tanh, values, root, n, root);
    } else {
        assert(reaches(g, root, root));
    }
}

/// Nothing flows from the root into a node that it does not depend on.
proof fn lemma_no_inflow_without_dependence(
    g: Seq<Node>,
    tanh: spec_fn(int) -> int,
    values: Seq<int>,
    root: usize,
    n: usize,
    top: usize,
)
    requires
        well_formed(g),
        root < g.len(),
        !reaches(g, root, n),
    ensures
        inflow(g, tanh, values, root, n, top) == 0,
    decreases root - n, top - n,
{
    if !(top <= n || top > root) {
        lemma_no_inflow_without_dependence(g, tanh, values, root, n, (top - 1) as usize);
        assert(inflow(g, tanh, values, root, n, top) == inflow(
            g,
            tanh,
            values,
            root,
            n,
            (top - 1) as usize,
        ) + through(g, tanh, values, root, n, top));
        if has_edge(g, n, top) {
            if reaches(g, root, top) {
                lemma_reaches_extends(g, root, top, n);
            }
            lemma_no_derivative_without_dependence(g, tanh, values, root, top);
            lemma_nothing_through_zero(g, tanh, values, root, n, top);
        }
    }
}

/// In exact arithmetic the order in which a node's consumers hand their
/// gradients down does not matter, nor whether a consumer that adds nothing is
/// passed over: what is gathered is the sum over the consumers.
proof fn lemma_exact_gathered(
    g: Seq<Node>,
    tanh: spec_fn(int) -> int,
    values: Seq<int>,
    root: usize,
    n: usize,
    lo: nat,
)
    requires
        well_formed(g),
        root < g.len(),
        n < lo <= root + 1,
    ensures
        gathered(exact(tanh), 0int, g, values, root, n, lo) == inflow(g, tanh, values, root, n, root)
            - inflow(g, tanh, values, root, n, (lo - 1) as usize),
    decreases root - n, root + 1 - lo,
{
    if lo <= root {
        let c = lo as usize;
        lemma_exact_gathered(g, tanh, values, root, n, lo + 1);
        assert(inflow(g, tanh, values, root, n, c) == inflow(
            g,
            tanh,
            values,
            root,
            n,
            (c - 1) as usize,
        ) + through(g, tanh, values, root, n, c));
        if has_edge(g, n, c) {
            if reaches(g, root, c) {
                lemma_exact_gradient(g, tanh, values, root, c);
                lemma_exact_accumulate(
                    tanh,
                    gathered(exact(tanh), 0int, g, values, root, n, lo + 1),
                    gradient_of(exact(tanh), 0int, g, values, root, c),
                    weight_of(g, n, c),
                    values,
                );
            } else {
                lemma_no_derivative_without_dependence(g, tanh, values, root, c);
                lemma_nothing_through_zero(g, tanh, values, root, n, c);
            }
        }
    }
}

/// In exact arithmetic the gradient that the chain rule gives is the
/// derivative.
proof fn lemma_exact_gradient(
    g: Seq<Node>,
    tanh: spec_fn(int) -> int,
    values: Seq<int>,
    root: usize,
    n: usize,
)
    requires
        well_formed(g),
        root < g.len(),
    ensures
        gradient_of(exact(tanh), 0int, g, values, root, n) == derivative(g, tanh, values, root, n),
    decreases root - n, root + 2,
{
    if n < root {
        lemma_exact_gathered(g, tanh, values, root, n, (n + 1) as nat);
    }
}

/// The backward pass computes derivatives.  Run in exact arithmetic from
/// gradients that are all zero, the tape of `root` leaves in every node the
/// derivative of `root` by that node: one in `root`, zero in a node that `root`
/// does not depend on, and in a node reached along several paths the sum over
/// all of them.
pub proof fn lemma_backward_computes_derivatives(
    g: Seq<Node>,
    tanh: spec_fn(int) -> int,
    values: Seq<int>,
    root: usize,
)
    requires
        well_formed(g),
        root < g.len(),
    ensures
        forall|n: usize|
            n < g.len() ==> #[trigger] exact(tanh).run(tape_of(g, root), values, all_zero(g.len(), 0int))[n as int]
                == derivative(g, tanh, values, root, n),
{
    lemma_backward_leaves_gradients(exact(tanh), 0int, g, values, root);
    assert forall|n: usize| n < g.len() implies #[trigger] exact(tanh).run(
        tape_of(g, root),
        values,
        all_zero(g.len(), 0int),
    )[n as int] == derivative(g, tanh, values, root, n) by {
        lemma_exact_gradient(g, tanh, values, root, n);
    }
}

} // verus!
