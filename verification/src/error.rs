//! Element types and the errors of the storage operations.
use vstd::prelude::*;

use crate::shape::Shape;

verus! {

/// The element types that a storage can hold.
#[derive(Debug, Clone, Copy, PartialEq, Eq, Structural)]
pub enum DType {
    U32,
    BF16,
    F16,
    F32,
    F64,
}

/// What can go wrong in a storage operation.
#[derive(Debug)]
#[allow(inconsistent_fields)]
pub enum Error {
    /// The operands of `op` have different element types, or a type that `op` does not support.
    DTypeMismatchBinaryOp { lhs: DType, rhs: DType, op: &'static str },
    /// A storage was read as another element type than its own.
    UnexpectedDType { expected: DType, got: DType },
    /// A shape has another rank than expected.
    UnexpectedNumberOfDims { expected: usize, got: usize, shape: Shape },
    /// An index is not below the size of the table that it selects from.
    InvalidIndex { index: usize, vocab_size: usize, op: &'static str },
    /// A batch of matrices is not stored one matrix after the other.
    UnexpectedStriding,
}

} // verus!
