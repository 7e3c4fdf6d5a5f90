//! Reverse-mode automatic differentiation over scalars, as a verified graph
//! core.
//!
//! A computation is recorded in a [`Computation`]: an arena of [`Value`]
//! nodes, each naming the operation that produced it and the handles of its
//! operands.  [`Computation::trace`] discovers what an output depends on,
//! [`Computation::topological_order`] arranges it consumers first, and
//! [`Computation::backward`] lays the gradient propagation out as a tape of
//! accumulation steps.  The core is free of arithmetic on scalars: whoever
//! holds the numbers runs the tape over them.  What running it means is
//! stated in [`arithmetic`]; what it leaves in each node is shown in
//! [`gradient`] for any arithmetic, in [`rules`] for single operations, and in
//! [`derivative`] to be the derivative where the arithmetic is exact.
//! [`diagram`] draws a traced graph for Graphviz.
pub mod arithmetic;
pub mod backward;
pub mod derivative;
pub mod diagram;
pub mod gradient;
pub mod graph;
pub mod rules;
pub mod trace;
pub mod value;

pub use backward::{Step, Weight};
pub use graph::Computation;
pub use value::{Node, Operation, Value};
