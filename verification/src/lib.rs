//! Chunked zero-knowledge proving of neural-network inference.
//!
//! A model's operations are proved in contiguous chunks. Each chunk's boundary
//! tensors are committed to by the root of a binary hash tree, and that root is
//! a public value of the chunk and of the chunk after it. Underneath lies an
//! arithmetic kernel over the BN254 curve: multi-scalar multiplication and the
//! number-theoretic transform.
//!
//! - [`field`] and [`curve`]: field elements and curve points, and what the
//!   operations on them return.
//! - [`arithmetic`], [`msm`], [`fft`], [`poly`]: the kernels.
//! - [`gpu`]: when a kernel's work goes to a GPU backend.
//! - [`merkle`], [`dag`], [`circuit`]: the commitment, the chunk executor and
//!   the constraints that a synthesis lays down.
//! - [`proving`], [`distributed`], [`ray`]: the orchestration of chunk proofs.
//! - [`bits`], [`sums`], [`fft_laws`]: the lemmas that the kernels rest on.

pub mod arithmetic;
pub mod bits;
pub mod circuit;
pub mod curve;
pub mod dag;
pub mod distributed;
pub mod fft;
pub mod fft_laws;
pub mod field;
pub mod gpu;
pub mod merkle;
pub mod msm;
pub mod poly;
pub mod proving;
pub mod ray;
pub mod sums;
