//! A reverse-mode automatic-differentiation engine over exact scalar
//! rationals.
//!
//! Expressions are built as a directed acyclic graph of scalar nodes; each
//! derived node records the operation that produced it and the indices of its
//! operand nodes.  A backward pass propagates derivatives from a chosen root
//! to every ancestor, accumulating contributions additively so that shared
//! subexpressions (diamond dependencies) receive the sum over all paths.

pub mod graph;
pub mod operations;
pub mod rat;
