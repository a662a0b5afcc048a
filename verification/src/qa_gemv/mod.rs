//! The decode product as a batched matrix-vector routine.
pub mod config;
pub mod matmul;
pub mod routine;
pub mod setup;
