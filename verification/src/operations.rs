//! The closed catalogue of operations and the lineage record.
//!
//! Unary operations reproduce a node from one operand, binary operations
//! from two; a node's lineage records which operation produced it and the
//! indices of its operand nodes.

use vstd::prelude::*;

verus! {

/// The unary operations.
#[derive(Clone, Copy, PartialEq, Eq, Structural, Debug)]
pub enum ASexualOperation {
    Relu,
    Tanh,
    Neg,
}

/// The binary operations.
#[derive(Clone, Copy, PartialEq, Eq, Structural, Debug)]
pub enum SexualOperation {
    Add,
    Sub,
    Mul,
    Div,
}

/// How a node came to be: from one operand or from two.  `T` is the handle
/// by which operand nodes are referenced.
#[derive(Clone, Copy, Debug)]
pub enum ReproductionMethod<T> {
    Asexual(ASexualOperation, T),
    Sexual(SexualOperation, T, T),
}

} // verus!
