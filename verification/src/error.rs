//! The errors of the library.

use vstd::prelude::*;

verus! {

/// What can go wrong when data is coded or reconstructed.
#[derive(Clone, Copy, Debug, PartialEq, Eq, Structural)]
#[non_exhaustive]
pub enum Error {
    /// More chunks are asked for than [`crate::MAX_CHUNKS`].
    TooManyTotalChunks,
    /// At least one chunk is needed.
    NotEnoughTotalChunks,
    /// Too few chunks are given to reconstruct the data.
    NotEnoughChunks,
    /// The chunks differ in length.
    NonUniformChunks,
    /// The length of a chunk is no positive multiple of the alignment.
    UnalignedChunk,
    /// The data to be coded is not acceptable.
    BadPayload,
    /// Anything else that the codec or the thread pool refuses.
    Unknown,
}

/// The reasons for which the Reed-Solomon codec refuses a call.
#[derive(Clone, Copy, Debug, PartialEq, Eq, Structural)]
pub enum CodecError {
    /// A shard is longer or shorter than the first one.
    DifferentShardSize,
    /// Two original shards have the same index.
    DuplicateOriginalShardIndex,
    /// Two recovery shards have the same index.
    DuplicateRecoveryShardIndex,
    /// The index of an original shard is out of range.
    InvalidOriginalShardIndex,
    /// The index of a recovery shard is out of range.
    InvalidRecoveryShardIndex,
    /// The shards are empty or no multiple of the alignment long.
    InvalidShardSize,
    /// Fewer shards than there were original ones are given.
    NotEnoughShards,
    /// An encoder has not got all its original shards yet.
    TooFewOriginalShards,
    /// An encoder has got all its original shards already.
    TooManyOriginalShards,
    /// There is no code for these counts of shards.
    UnsupportedShardCount,
}

/// The error that the library reports for a refusal of the codec.
pub open spec fn reported(error: CodecError) -> Error {
    match error {
        CodecError::NotEnoughShards => Error::NotEnoughChunks,
        CodecError::InvalidShardSize => Error::UnalignedChunk,
        CodecError::TooManyOriginalShards => Error::TooManyTotalChunks,
        CodecError::TooFewOriginalShards => Error::NotEnoughTotalChunks,
        CodecError::DifferentShardSize => Error::NonUniformChunks,
        _ => Error::Unknown,
    }
}

impl From<CodecError> for Error {
    fn from(error: CodecError) -> (e: Self) {
        match error {
            CodecError::NotEnoughShards => Error::NotEnoughChunks,
            CodecError::InvalidShardSize => Error::UnalignedChunk,
            CodecError::TooManyOriginalShards => Error::TooManyTotalChunks,
            CodecError::TooFewOriginalShards => Error::NotEnoughTotalChunks,
            CodecError::DifferentShardSize => Error::NonUniformChunks,
            _ => Error::Unknown,
        }
    }
}

impl vstd::std_specs::convert::FromSpecImpl<CodecError> for Error {
    open spec fn obeys_from_spec() -> bool {
        true
    }

    open spec fn from_spec(error: CodecError) -> Self {
        reported(error)
    }
}

/// What the codec refuses is reported as what it means for chunks; what has no meaning
/// there is unknown.
pub proof fn lemma_reported(error: CodecError, e: Error)
    requires
        call_ensures(<Error as From<CodecError>>::from, (error,), e),
    ensures
        e == Error::NotEnoughChunks <==> error == CodecError::NotEnoughShards,
        e == Error::UnalignedChunk <==> error == CodecError::InvalidShardSize,
        e == Error::NonUniformChunks <==> error == CodecError::DifferentShardSize,
        e == Error::TooManyTotalChunks <==> error == CodecError::TooManyOriginalShards,
        e == Error::NotEnoughTotalChunks <==> error == CodecError::TooFewOriginalShards,
        e != Error::BadPayload,
{
}

} // verus!
