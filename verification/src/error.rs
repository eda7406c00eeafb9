use vstd::prelude::*;

verus! {

/// The recoverable errors of the pipeline.
#[derive(Clone, Copy, Debug, PartialEq, Eq, Structural)]
pub enum Error {
    /// A raw byte buffer did not parse as the expected item array, or an
    /// item did not match the `{order, payload}` schema.
    InvalidJson,
    /// An enqueue targeted a partition key that was not part of the key
    /// set fixed at construction.
    PartitionDoesNotExist,
}

} // verus!
