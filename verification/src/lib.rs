//! Lossless compression pipeline: a block-sorting transform, a move-to-front
//! transform and a context-mixing statistical model driving a range coder.
//!
//! Every function is stated over mathematical models of its data and proved
//! against them; the round-trip laws of each stage and of the whole pipeline
//! are proved as well.

pub mod bitio;
pub mod encodings;
pub mod error;

pub use encodings::{decode_pipeline, encode_pipeline};
pub use error::CodingError;
