//! Array storage on the CPU: element types, strided layouts and the operations on them.
pub mod error;
pub mod shape;
pub mod layout;
pub mod elementwise;
pub mod numbers;
pub mod reduce;
pub mod normalize;
pub mod embedding;
pub mod matmul;
pub mod convert;
pub mod op;
pub mod storage;
pub mod laws;
