//! Core of a GPU-resident N-dimensional array engine: the shape/stride/offset
//! descriptor model, slicing and broadcasting over descriptors, a host-side
//! evaluator for the data-movement operations (materialization, transpose,
//! scalar assignment, equality), and the kernel-dispatch protocol (parameter
//! packing, binding layout, thread-group sizing).
//!
//! Element values are carried as opaque 32-bit words: every operation verified
//! here moves, compares or overwrites whole elements and never interprets
//! their numeric contents, so the same logic serves any 4-byte element type.

pub mod broadcast;
pub mod dispatch;
pub mod error;
pub mod host;
pub mod indexing;
pub mod linear;
pub mod shape;
pub mod traits;

pub use broadcast::broadcast_shape_and_stride;
pub use dispatch::{DispatchPlan, PushConstants, ShaderInputs, ThreadGroup};
pub use error::TensorError;
pub use host::CpuTensor;
pub use indexing::SliceRangeInfo;
pub use shape::ShapeStrides;
pub use traits::{MutShapeStrideTrait, ShapeStrideTrait};
