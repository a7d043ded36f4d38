//! A scalar reverse-mode automatic-differentiation engine.
//!
//! A [`Graph`] holds scalar nodes in the order of their creation. A leaf is
//! made from a number; every other node is recorded by an operation on
//! older nodes and remembers its operands and the [`Rule`] by which its
//! gradient is handed on to them. [`Value::topo_order`] orders the graph
//! below a node, and [`Value::backward`] starts a [`Pass`] that names, one
//! by one, the gradients to change.
//!
//! Numbers are bit patterns of doubles. The library moves them and compares
//! them with zero; sums, products and powers are the caller's. What a pass
//! computes is stated for every arithmetic that the caller may bring: see
//! [`pass::run`] and the laws in [`laws`], [`gradients`] and [`chain`].

pub mod backward;
pub mod chain;
pub mod double;
pub mod gradients;
pub mod laws;
pub mod math_cal;
pub mod nn;
pub mod pass;
pub mod topo;
pub mod value;

pub use backward::{Factor, Step, Update};
pub use double::{NEG_ONE, ONE, ZERO};
pub use pass::{Pass, Request, Scale};
pub use value::{Graph, Node, Prev, Rule, Value, ValueInner};
