//! Sums the decimal digits of a whitespace-delimited text.
//!
//! The text is cut into chunks at whitespace, every chunk is reduced to the
//! sum of its digits, and the partial sums are folded into one total.

pub mod chunker;
pub mod cli;
pub mod error;
pub mod map_reduce;
pub mod pipeline;
pub mod prefix;
pub mod text;
