use erasure_coding::error::CodecError;
use erasure_coding::Error;

#[test]
fn refusals_of_the_codec_are_reported() {
    let expected = [
        (CodecError::NotEnoughShards, Error::NotEnoughChunks),
        (CodecError::InvalidShardSize, Error::UnalignedChunk),
        (CodecError::TooManyOriginalShards, Error::TooManyTotalChunks),
        (CodecError::TooFewOriginalShards, Error::NotEnoughTotalChunks),
        (CodecError::DifferentShardSize, Error::NonUniformChunks),
        (CodecError::DuplicateOriginalShardIndex, Error::Unknown),
        (CodecError::DuplicateRecoveryShardIndex, Error::Unknown),
        (CodecError::InvalidOriginalShardIndex, Error::Unknown),
        (CodecError::InvalidRecoveryShardIndex, Error::Unknown),
        (CodecError::UnsupportedShardCount, Error::Unknown),
    ];
    for (refusal, reported) in expected {
        assert_eq!(Error::from(refusal), reported);
    }
}
