//! Quantized-activation matrix products over dense codebook weights.
pub mod arith;
pub mod codebook;
pub mod definition;
pub mod dense;
pub mod exact;
pub mod fixed;
pub mod gemv;
pub mod grid;
pub mod laws;
pub mod panel;
pub mod product;
pub mod qa_gemv;
pub mod qa_matmul;
pub mod quantize;
pub mod rht;
pub mod scheme;
pub mod weights;
