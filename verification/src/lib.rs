//! A small in-process, multi-partition item queue.
//!
//! Items arrive as serialized byte buffers, are buffered per partition in
//! FIFO order, and leave one at a time through a strategy-driven dequeue.
//! The `ffi` module models the ownership-transfer protocol by which a
//! foreign caller drives a pipeline across a binary boundary.

pub mod codec;
pub mod error;
pub mod ffi;
pub mod pipeline;

pub use error::Error;
pub use pipeline::Pipeline;
pub use pipeline::PipelineItem;
