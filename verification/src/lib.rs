//! A strided tensor library: shapes, zero-copy views, elementwise maps,
//! reductions and matrix products.
pub mod shape;
pub mod buffer;
pub mod tensor;
pub mod order;
pub mod elementwise;
pub mod reduce;
pub mod matmul;
pub mod bands;
pub mod rng;
