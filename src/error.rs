use vstd::prelude::*;

verus! {

/// Why a message could not be logged.
#[derive(Clone, Copy, Debug, PartialEq, Eq, Structural)]
pub enum LogError {
    /// The destination address resolved to no endpoint.
    InvalidDestination,
    /// The compressor reported a failure; nothing was sent.
    CompressionFailure,
    /// The chunk size leaves no room for payload after the header.
    ChunkSizeTooSmall,
    /// The message needs more chunks than a receiver accepts.
    TooManyChunks,
    /// The transport accepted fewer (or more) bytes than the chunks hold.
    DeliveryIncomplete,
}

} // verus!
