//! Parallel dense integer matrix multiplication.
//!
//! The engine validates the operands, partitions the rows of the left
//! operand into contiguous chunks, computes each chunk's slice of the
//! product independently, and merges the partial results by absolute
//! row position, so the outcome never depends on the order in which
//! chunks are finished.

pub mod calculation;
pub mod generation;
pub mod text_format;
