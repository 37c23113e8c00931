//! Adaptive parallel map: applies a caller-supplied transform to every
//! element of an owned input vector, either in one sequential pass or by
//! splitting the input into contiguous chunks, one task per chunk,
//! depending on the input length and a threshold. The output always has
//! the input's length and is index-aligned with it, and a failed task
//! surfaces as a structured error, never as a partial output.

pub mod engine;
pub mod partition;
pub mod transform;

use vstd::prelude::*;

verus! {

pub use crate::engine::parallel_map;
pub use crate::engine::EngineError;
pub use crate::engine::Mode;
pub use crate::partition::Strategy;
pub use crate::transform::transform_data;
pub use crate::transform::transform_data_with_cap;

} // verus!
