//! What a graph and a tape mean once numbers are put in: the arithmetic they
//! are run over, the values of the nodes, and the gradients that a tape
//! leaves.
use crate::backward::{Step, Weight};
use crate::value::{Node, Operation};
use vstd::prelude::*;

verus! {

/// A scalar arithmetic: the one, the three operations and the hyperbolic
/// tangent, on scalars of type `S`.  Nothing is asked of them here; each law
/// names the identities it needs.
#[verifier::reject_recursive_types(S)]
pub struct Arithmetic<S> {
    pub one: S,
    pub plus: spec_fn(S, S) -> S,
    pub minus: spec_fn(S, S) -> S,
    pub times: spec_fn(S, S) -> S,
    pub tanh: spec_fn(S) -> S,
}

impl<S> Arithmetic<S> {
    /// The derivative of the hyperbolic tangent at `x`: one minus its square.
    pub open spec fn tanh_slope(self, x: S) -> S {
        (self.minus)(self.one, (self.times)((self.tanh)(x), (self.tanh)(x)))
    }

    /// The gradient `acc` after a gradient `grad` has been added to it with
    /// `weight`.
    pub open spec fn accumulate(self, acc: S, grad: S, weight: Weight, values: Seq<S>) -> S {
        match weight {
            Weight::One => (self.plus)(acc, grad),
            Weight::MinusOne => (self.minus)(acc, grad),
            Weight::ValueOf(b) => (self.plus)(acc, (self.times)(grad, values[b as int])),
            Weight::TanhSlopeAt(a) => (self.plus)(
                acc,
                (self.times)(grad, self.tanh_slope(values[a as int])),
            ),
        }
    }

    /// The gradients after one step.
    pub open spec fn apply(self, step: Step, values: Seq<S>, gradients: Seq<S>) -> Seq<S> {
        match step {
            Step::Seed { node } => gradients.update(node as int, self.one),
            Step::Accumulate { into, from, weight } => gradients.update(
                into as int,
                self.accumulate(gradients[into as int], gradients[from as int], weight, values),
            ),
        }
    }

    /// The gradients after the steps of `tape`, taken in order.
    pub open spec fn run(self, tape: Seq<Step>, values: Seq<S>, gradients: Seq<S>) -> Seq<S>
        decreases tape.len(),
    {
        if tape.len() == 0 {
            gradients
        } else {
            self.apply(tape.last(), values, self.run(tape.drop_last(), values, gradients))
        }
    }

    /// `values` holds a value for each node of `g`, and the value of each node
    /// that an operation produced is that operation applied to the values of
    /// its operands.
    pub open spec fn evaluates(self, g: Seq<Node>, values: Seq<S>) -> bool {
        &&& values.len() == g.len()
        &&& forall|i: int|
            0 <= i < g.len() ==> {
                let operands = (#[trigger] g[i]).operands;
                match g[i].operation {
                    Operation::Leaf => true,
                    Operation::Add => values[i] == (self.plus)(
                        values[operands[0] as int],
                        values[operands[1] as int],
                    ),
                    Operation::Subtract => values[i] == (self.minus)(
                        values[operands[0] as int],
                        values[operands[1] as int],
                    ),
                    Operation::Multiply => values[i] == (self.times)(
                        values[operands[0] as int],
                        values[operands[1] as int],
                    ),
                    Operation::Tanh => values[i] == (self.tanh)(values[operands[0] as int]),
                }
            }
    }

    /// Running one tape after another is running both in a row.
    pub proof fn lemma_run_concat(self, first: Seq<Step>, second: Seq<Step>, values: Seq<S>, gradients: Seq<S>)
        ensures
            self.run(first + second, values, gradients) == self.run(
                second,
                values,
                self.run(first, values, gradients),
            ),
        decreases second.len(),
    {
        if second.len() == 0 {
            assert(first + second =~= first);
        } else {
            assert((first + second).drop_last() =~= first + second.drop_last());
            assert((first + second).last() == second.last());
            self.lemma_run_concat(first, second.drop_last(), values, gradients);
        }
    }

    /// Running a tape with one more step is running the tape, then the step.
    pub proof fn lemma_run_push(self, tape: Seq<Step>, step: Step, values: Seq<S>, gradients: Seq<S>)
        ensures
            self.run(tape.push(step), values, gradients) == self.apply(
                step,
                values,
                self.run(tape, values, gradients),
            ),
    {
        assert(tape.push(step).drop_last() =~= tape);
    }
}

/// As many gradients as `n`, all `zero`: the gradients before any backward
/// pass.
pub open spec fn all_zero<S>(n: nat, zero: S) -> Seq<S> {
    Seq::new(n, |i: int| zero)
}

} // verus!
