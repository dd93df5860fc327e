//! Random expression trees over the inputs `(x, y, t)`, their evaluation, the
//! filter that keeps the interesting ones, and a text encoding for them.

pub mod codec;
pub mod program;
mod rng;
pub mod weighted_sample;

pub use codec::DecodeError;
pub use program::{reference_grammar, GenerateError, Kind, Program};
pub use weighted_sample::{SampleError, WeightedSample};
