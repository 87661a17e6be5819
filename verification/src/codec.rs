//! The Reed-Solomon codec: what the library relies on of `reed_solomon_simd`.
//!
//! The codec works on the 16-bit points of the shards (see [`crate::layout`]),
//! on each position by itself: point `p` of a recovery shard depends on the
//! points `p` of the original shards and on nothing else, and likewise for a
//! restored shard. So two functions on points say what it computes, [`parity`]
//! for encoding and [`restored`] for decoding. What they are is left to the
//! codec; that the second undoes the first is stated by [`restores`].

use std::collections::HashMap;

use reed_solomon_simd::Error as ReedSolomonError;
use vstd::prelude::*;

use crate::error::CodecError;
use crate::layout::{
    are_zero_points, column, column_of, is_aligned, point, shard_of, Point,
};

verus! {

/// The points of the recovery shards at one position, given the points of the
/// original shards at that position.
pub uninterp spec fn parity(
    original_count: int,
    recovery_count: int,
    points: Seq<(u8, u8)>,
) -> Seq<(u8, u8)>;

/// The points of the missing original shards at one position, given the points
/// of the shards that are there, each kind by its own index.
pub uninterp spec fn restored(
    original_count: int,
    recovery_count: int,
    original: Map<int, (u8, u8)>,
    recovery: Map<int, (u8, u8)>,
) -> Map<int, (u8, u8)>;

/// The configuration of an encoder: the counts of its original and of its
/// recovery shards, and their length.
pub uninterp spec fn encoder_setup(encoder: reed_solomon_simd::ReedSolomonEncoder) -> (
    int,
    int,
    int,
);

/// The original shards that an encoder has got so far.
pub uninterp spec fn encoder_shards(encoder: reed_solomon_simd::ReedSolomonEncoder) -> Seq<Seq<u8>>;

/// The configuration of a decoder: the counts of the original and of the
/// recovery shards, and their length.
pub uninterp spec fn decoder_setup(decoder: reed_solomon_simd::ReedSolomonDecoder) -> (
    int,
    int,
    int,
);

/// The original shards that a decoder has got so far, by index.
pub uninterp spec fn decoder_original(decoder: reed_solomon_simd::ReedSolomonDecoder) -> Map<
    int,
    Seq<u8>,
>;

/// The recovery shards that a decoder has got so far, by index.
pub uninterp spec fn decoder_recovery(decoder: reed_solomon_simd::ReedSolomonDecoder) -> Map<
    int,
    Seq<u8>,
>;

/// An error of the codec.
#[verifier::external_type_specification]
#[verifier::external_body]
pub struct ExReedSolomonError(ReedSolomonError);

/// An encoder of the codec, with the shards that it has got.
#[verifier::external_type_specification]
#[verifier::external_body]
pub struct ExReedSolomonEncoder(reed_solomon_simd::ReedSolomonEncoder);

/// A decoder of the codec, with the shards that it has got.
#[verifier::external_type_specification]
#[verifier::external_body]
pub struct ExReedSolomonDecoder(reed_solomon_simd::ReedSolomonDecoder);

/// The decoder has a code for these counts, and its working space for shards of
/// `shard_bytes` bytes can be allocated: it takes fewer than four times as many
/// shards as there are of the more numerous kind.
pub open spec fn decoder_fits(original_count: int, recovery_count: int, shard_bytes: int) -> bool {
    &&& 1 <= original_count <= 32768
    &&& 1 <= recovery_count <= 32768
    &&& 4 * original_count * shard_bytes <= isize::MAX
    &&& 4 * recovery_count * shard_bytes <= isize::MAX
}

/// The encoder has a code for these counts, and its working space for shards of
/// `shard_bytes` bytes can be allocated: it takes fewer than twice as many shards as
/// there are of the more numerous kind.
pub open spec fn encoder_fits(original_count: int, recovery_count: int, shard_bytes: int) -> bool {
    &&& 1 <= original_count <= 32768
    &&& 1 <= recovery_count <= 32768
    &&& 2 * original_count * shard_bytes <= isize::MAX
    &&& 2 * recovery_count * shard_bytes <= isize::MAX
}

/// The bytes of each shard.
pub open spec fn bytes_of(shards: Seq<Vec<u8>>) -> Seq<Seq<u8>> {
    Seq::new(shards.len(), |i: int| shards[i]@)
}

/// Shards with the same bytes are as many, and equal one by one.
pub proof fn lemma_same_bytes(a: Seq<Vec<u8>>, b: Seq<Vec<u8>>)
    requires
        bytes_of(a) == bytes_of(b),
    ensures
        a.len() == b.len(),
        forall|i: int| 0 <= i < a.len() ==> (#[trigger] a[i])@ == b[i]@,
{
    assert(bytes_of(a).len() == a.len() && bytes_of(b).len() == b.len());
    assert forall|i: int| 0 <= i < a.len() implies (#[trigger] a[i])@ == b[i]@ by {
        assert(bytes_of(a)[i] == a[i]@ && bytes_of(b)[i] == b[i]@);
    }
}

/// The bytes of each shard, with its index.
pub open spec fn indexed_bytes(shards: Seq<(usize, Vec<u8>)>) -> Seq<(int, Seq<u8>)> {
    Seq::new(shards.len(), |k: int| (shards[k].0 as int, shards[k].1@))
}

/// All shards have this length.
pub open spec fn all_of_length(shards: Seq<Seq<u8>>, len: int) -> bool {
    forall|i: int| 0 <= i < shards.len() ==> (#[trigger] shards[i]).len() == len
}

/// One of the shards has index `i`.
pub open spec fn has_index(shards: Seq<(int, Seq<u8>)>, i: int) -> bool {
    exists|k: int| 0 <= k < shards.len() && (#[trigger] shards[k]).0 == i
}

/// The shards by index.
pub open spec fn by_index(shards: Seq<(int, Seq<u8>)>) -> Map<int, Seq<u8>> {
    Map::new(
        |i: int| has_index(shards, i),
        |i: int| shards[choose|k: int| 0 <= k < shards.len() && (#[trigger] shards[k]).0 == i].1,
    )
}

/// The recovery shards of some original shards.
pub open spec fn parity_shards(recovery_count: int, original: Seq<Seq<u8>>) -> Seq<Seq<u8>> {
    Seq::new(
        recovery_count as nat,
        |j: int|
            shard_of(
                original[0].len(),
                |p: int| parity(original.len() as int, recovery_count, column(original, p))[j],
            ),
    )
}

/// The missing original shard with index `i`.
pub open spec fn restored_shard(
    original_count: int,
    recovery_count: int,
    original: Map<int, Seq<u8>>,
    recovery: Map<int, Seq<u8>>,
    shard_bytes: int,
    i: int,
) -> Seq<u8> {
    shard_of(
        shard_bytes as nat,
        |p: int|
            restored(
                original_count,
                recovery_count,
                column_of(original, p),
                column_of(recovery, p),
            )[i],
    )
}

/// These points belong to the codeword of the original points `word`.
pub open spec fn agrees(
    original_count: int,
    recovery_count: int,
    original: Map<int, Point>,
    recovery: Map<int, Point>,
    word: Seq<Point>,
) -> bool {
    &&& word.len() == original_count
    &&& forall|i: int| #[trigger] original.contains_key(i) ==> original[i] == word[i]
    &&& forall|j: int| #[trigger]
        recovery.contains_key(j) ==> recovery[j] == parity(
            original_count,
            recovery_count,
            word,
        )[j]
}

/// Decoding these points gives back the original points of the codeword that
/// they belong to, if there is one.
pub open spec fn restores(
    original_count: int,
    recovery_count: int,
    original: Map<int, Point>,
    recovery: Map<int, Point>,
) -> bool {
    forall|word: Seq<Point>, i: int|
        #![trigger agrees(original_count, recovery_count, original, recovery, word), word[i]]
        agrees(original_count, recovery_count, original, recovery, word) && 0 <= i < original_count
            && !original.contains_key(i) ==> restored(
            original_count,
            recovery_count,
            original,
            recovery,
        )[i] == word[i]
}

/// Why the codec refuses one of these shards: the first that has an index out of
/// range, the index of an earlier one, or another length than `shard_bytes`.
pub open spec fn shard_fault(
    shards: Seq<(int, Seq<u8>)>,
    count: int,
    shard_bytes: int,
    invalid: CodecError,
    duplicate: CodecError,
) -> Option<CodecError>
    decreases shards.len(),
{
    if shards.len() == 0 {
        None
    } else {
        let earlier = shards.drop_last();
        let fault = shard_fault(earlier, count, shard_bytes, invalid, duplicate);
        if fault is Some {
            fault
        } else if shards.last().0 >= count {
            Some(invalid)
        } else if has_index(earlier, shards.last().0) {
            Some(duplicate)
        } else if shards.last().1.len() != shard_bytes {
            Some(CodecError::DifferentShardSize)
        } else {
            None
        }
    }
}

/// Why the codec refuses to decode these shards.
///
/// Without recovery shards it only counts the original ones. Else the length of
/// the first recovery shard is what the others are held against.
pub open spec fn decode_fault(
    original_count: int,
    recovery_count: int,
    original: Seq<(int, Seq<u8>)>,
    recovery: Seq<(int, Seq<u8>)>,
) -> Option<CodecError> {
    if recovery.len() == 0 {
        if original.len() == original_count {
            None
        } else {
            Some(CodecError::NotEnoughShards)
        }
    } else {
        let shard_bytes = recovery[0].1.len() as int;
        let original_fault = shard_fault(
            original,
            original_count,
            shard_bytes,
            CodecError::InvalidOriginalShardIndex,
            CodecError::DuplicateOriginalShardIndex,
        );
        let recovery_fault = shard_fault(
            recovery,
            recovery_count,
            shard_bytes,
            CodecError::InvalidRecoveryShardIndex,
            CodecError::DuplicateRecoveryShardIndex,
        );
        if !is_aligned(shard_bytes) {
            Some(CodecError::InvalidShardSize)
        } else if original_fault is Some {
            original_fault
        } else if recovery_fault is Some {
            recovery_fault
        } else if original.len() + recovery.len() < original_count {
            Some(CodecError::NotEnoughShards)
        } else {
            None
        }
    }
}

/// Why the codec refuses one of these original shards: the first that is one too
/// many or has another length than `shard_bytes`.
pub open spec fn adding_fault(shards: Seq<Seq<u8>>, count: int, shard_bytes: int) -> Option<
    CodecError,
>
    decreases shards.len(),
{
    if shards.len() == 0 {
        None
    } else {
        let fault = adding_fault(shards.drop_last(), count, shard_bytes);
        if fault is Some {
            fault
        } else if shards.len() > count {
            Some(CodecError::TooManyOriginalShards)
        } else if shards.last().len() != shard_bytes {
            Some(CodecError::DifferentShardSize)
        } else {
            None
        }
    }
}

/// Why the codec refuses to encode these shards.
pub open spec fn encode_fault(
    original_count: int,
    recovery_count: int,
    original: Seq<Seq<u8>>,
) -> Option<CodecError> {
    let fault = adding_fault(original, original_count, original[0].len() as int);
    if original_count == 0 || recovery_count == 0 {
        Some(CodecError::UnsupportedShardCount)
    } else if original.len() == 0 {
        Some(CodecError::TooFewOriginalShards)
    } else if !is_aligned(original[0].len() as int) {
        Some(CodecError::InvalidShardSize)
    } else if fault is Some {
        fault
    } else if original.len() < original_count {
        Some(CodecError::TooFewOriginalShards)
    } else {
        None
    }
}

/// The codec finds no fault with as many original shards as it was told of, all of
/// one length that it takes.
pub proof fn lemma_encode_fault(
    original_count: int,
    recovery_count: int,
    original: Seq<Seq<u8>>,
)
    requires
        original.len() == original_count,
        original_count > 0,
        recovery_count > 0,
        is_aligned(original[0].len() as int),
        all_of_length(original, original[0].len() as int),
    ensures
        encode_fault(original_count, recovery_count, original) is None,
{
    let len = original[0].len() as int;
    lemma_adding_fault(original, original_count, len, original_count);
    assert(original.take(original_count) =~= original);
}

/// Shards that the codec takes have the length that it was told of.
pub proof fn lemma_no_adding_fault(shards: Seq<Seq<u8>>, count: int, shard_bytes: int)
    requires
        adding_fault(shards, count, shard_bytes) is None,
    ensures
        all_of_length(shards, shard_bytes),
    decreases shards.len(),
{
    if shards.len() > 0 {
        let rest = shards.drop_last();
        lemma_no_adding_fault(rest, count, shard_bytes);
        assert forall|i: int| 0 <= i < shards.len() implies (#[trigger] shards[i]).len()
            == shard_bytes by {
            if i < rest.len() {
                assert(rest[i] == shards[i]);
            }
        }
    }
}

/// Each of the first `n` shards is taken.
proof fn lemma_adding_fault(original: Seq<Seq<u8>>, count: int, shard_bytes: int, n: int)
    requires
        original.len() == count,
        all_of_length(original, shard_bytes),
        0 <= n <= count,
    ensures
        adding_fault(original.take(n), count, shard_bytes) is None,
    decreases n,
{
    if n > 0 {
        lemma_adding_fault(original, count, shard_bytes, n - 1);
        assert(original.take(n).drop_last() =~= original.take(n - 1));
        assert(original.take(n).last() == original[n - 1]);
    }
}

/// `reed_solomon_simd::encode` on all original shards at once.
///
/// Claimed: it refuses the shards for the reason that [`encode_fault`] gives, and if
/// there is none returns the recovery shards, each point of which is the [`parity`]
/// of the original points at its position. The code is linear, so that it is zero
/// where these are all zero.
#[verifier::external_body]
pub(crate) fn encode(original_count: usize, recovery_count: usize, original: &Vec<Vec<u8>>) -> (r:
    Result<Vec<Vec<u8>>, CodecError>)
    requires
        original_count <= 32768,
        recovery_count <= 32768,
        original_count > 0 && recovery_count > 0 && original@.len() > 0 ==> encoder_fits(
            original_count as int,
            recovery_count as int,
            original@[0]@.len() as int,
        ),
    ensures
        match encode_fault(original_count as int, recovery_count as int, bytes_of(original@)) {
            Some(fault) => r == Err::<Vec<Vec<u8>>, CodecError>(fault),
            None => r is Ok,
        },
        r matches Ok(recovery) ==> {
            &&& recovery@.len() == recovery_count
            &&& all_of_length(bytes_of(recovery@), original@[0]@.len() as int)
            &&& forall|j: int, p: int|
                0 <= j < recovery_count && 0 <= p < original@[0]@.len() as int / 2
                    ==> #[trigger] point(recovery@[j]@, p) == parity(
                    original_count as int,
                    recovery_count as int,
                    column(bytes_of(original@), p),
                )[j]
            &&& forall|j: int, p: int|
                0 <= j < recovery_count && 0 <= p < original@[0]@.len() as int / 2
                    && are_zero_points(column(bytes_of(original@), p)) ==> #[trigger] point(
                    recovery@[j]@,
                    p,
                ) == (0u8, 0u8)
        },
{
    reed_solomon_simd::encode(original_count, recovery_count, original).map_err(|e| match e {
        ReedSolomonError::DifferentShardSize { .. } => CodecError::DifferentShardSize,
        ReedSolomonError::DuplicateOriginalShardIndex { .. } => CodecError::DuplicateOriginalShardIndex,
        ReedSolomonError::DuplicateRecoveryShardIndex { .. } => CodecError::DuplicateRecoveryShardIndex,
        ReedSolomonError::InvalidOriginalShardIndex { .. } => CodecError::InvalidOriginalShardIndex,
        ReedSolomonError::InvalidRecoveryShardIndex { .. } => CodecError::InvalidRecoveryShardIndex,
        ReedSolomonError::InvalidShardSize { .. } => CodecError::InvalidShardSize,
        ReedSolomonError::NotEnoughShards { .. } => CodecError::NotEnoughShards,
        ReedSolomonError::TooFewOriginalShards { .. } => CodecError::TooFewOriginalShards,
        ReedSolomonError::TooManyOriginalShards { .. } => CodecError::TooManyOriginalShards,
        ReedSolomonError::UnsupportedShardCount { .. } => CodecError::UnsupportedShardCount,
    })
}

/// `reed_solomon_simd::decode` on shards with their indexes.
///
/// Claimed: it refuses the shards for the reason that [`decode_fault`] gives,
/// and if there is none returns the missing original shards. Without recovery
/// shards it returns nothing. Else each point of a returned shard is what
/// [`restored`] makes of the given points at its position, and that is the
/// original point if the given ones belong to a codeword.
#[verifier::external_body]
pub(crate) fn decode(
    original_count: usize,
    recovery_count: usize,
    original: &Vec<(usize, Vec<u8>)>,
    recovery: Vec<(usize, Vec<u8>)>,
) -> (r: Result<HashMap<usize, Vec<u8>>, CodecError>)
    requires
        1 <= original_count <= 32768,
        1 <= recovery_count <= 32768,
        recovery@.len() > 0 ==> decoder_fits(
            original_count as int,
            recovery_count as int,
            recovery@[0].1@.len() as int,
        ),
        forall|k: int| 0 <= k < original@.len() ==> (#[trigger] original@[k]).0 <= u16::MAX,
        forall|k: int| 0 <= k < recovery@.len() ==> (#[trigger] recovery@[k]).0 <= u16::MAX,
    ensures
        match decode_fault(
            original_count as int,
            recovery_count as int,
            indexed_bytes(original@),
            indexed_bytes(recovery@),
        ) {
            Some(fault) => r == Err::<HashMap<usize, Vec<u8>>, CodecError>(fault),
            None => r is Ok,
        },
        r matches Ok(found) ==> recovery@.len() == 0 ==> (found@ == Map::<
            usize,
            Vec<u8>,
        >::empty()),
        r matches Ok(found) ==> recovery@.len() > 0 ==> {
            &&& forall|i: usize| #[trigger]
                found@.contains_key(i) <==> i < original_count && !has_index(
                    indexed_bytes(original@),
                    i as int,
                )
            &&& forall|i: usize| #[trigger]
                found@.contains_key(i) ==> found@[i]@.len() == recovery@[0].1@.len()
            &&& forall|i: usize, p: int|
                found@.contains_key(i) && 0 <= p < recovery@[0].1@.len() as int / 2
                    ==> #[trigger] point(found@[i]@, p) == restored(
                    original_count as int,
                    recovery_count as int,
                    column_of(by_index(indexed_bytes(original@)), p),
                    column_of(by_index(indexed_bytes(recovery@)), p),
                )[i as int]
        },
        r is Ok && recovery@.len() > 0 ==> forall|p: int|
            0 <= p < recovery@[0].1@.len() as int / 2 ==> #[trigger] restores(
                original_count as int,
                recovery_count as int,
                column_of(by_index(indexed_bytes(original@)), p),
                column_of(by_index(indexed_bytes(recovery@)), p),
            ),
{
    let given = original.iter().map(|(i, shard)| (*i, shard));
    reed_solomon_simd::decode(original_count, recovery_count, given, recovery).map_err(|e| match e {
        ReedSolomonError::DifferentShardSize { .. } => CodecError::DifferentShardSize,
        ReedSolomonError::DuplicateOriginalShardIndex { .. } => CodecError::DuplicateOriginalShardIndex,
        ReedSolomonError::DuplicateRecoveryShardIndex { .. } => CodecError::DuplicateRecoveryShardIndex,
        ReedSolomonError::InvalidOriginalShardIndex { .. } => CodecError::InvalidOriginalShardIndex,
        ReedSolomonError::InvalidRecoveryShardIndex { .. } => CodecError::InvalidRecoveryShardIndex,
        ReedSolomonError::InvalidShardSize { .. } => CodecError::InvalidShardSize,
        ReedSolomonError::NotEnoughShards { .. } => CodecError::NotEnoughShards,
        ReedSolomonError::TooFewOriginalShards { .. } => CodecError::TooFewOriginalShards,
        ReedSolomonError::TooManyOriginalShards { .. } => CodecError::TooManyOriginalShards,
        ReedSolomonError::UnsupportedShardCount { .. } => CodecError::UnsupportedShardCount,
    })
}

/// `ReedSolomonEncoder::new`.
///
/// Claimed: it succeeds just when the length is a positive multiple of 64, with
/// an encoder of that configuration that has got no shard.
#[verifier::external_body]
pub(crate) fn new_encoder(original_count: usize, recovery_count: usize, shard_bytes: usize) -> (r:
    Result<reed_solomon_simd::ReedSolomonEncoder, ReedSolomonError>)
    requires
        encoder_fits(original_count as int, recovery_count as int, shard_bytes as int),
    ensures
        r is Ok <==> is_aligned(shard_bytes as int),
        r matches Ok(encoder) ==> {
            &&& encoder_setup(encoder) == (
                original_count as int,
                recovery_count as int,
                shard_bytes as int,
            )
            &&& encoder_shards(encoder) == Seq::<Seq<u8>>::empty()
        },
{
    reed_solomon_simd::ReedSolomonEncoder::new(original_count, recovery_count, shard_bytes)
}

/// `ReedSolomonEncoder::add_original_shard`.
///
/// Claimed: it takes the shard as the next one, unless the encoder has got all
/// its shards already or the length is wrong; then the encoder stays as it was.
#[verifier::external_body]
pub(crate) fn add_original_to_encoder(
    encoder: &mut reed_solomon_simd::ReedSolomonEncoder,
    shard: &[u8],
) -> (r: Result<(), ReedSolomonError>)
    ensures
        encoder_setup(*final(encoder)) == encoder_setup(*old(encoder)),
        r is Ok <==> {
            &&& encoder_shards(*old(encoder)).len() < encoder_setup(*old(encoder)).0
            &&& shard@.len() == encoder_setup(*old(encoder)).2
        },
        encoder_shards(*final(encoder)) == if r is Ok {
            encoder_shards(*old(encoder)).push(shard@)
        } else {
            encoder_shards(*old(encoder))
        },
{
    encoder.add_original_shard(shard)
}

/// `ReedSolomonEncoder::encode`, with the recovery shards of its result copied
/// out and the result dropped.
///
/// Claimed: it succeeds just when the encoder has got all its shards, returns
/// their recovery shards as [`encode`] does, and leaves the encoder without
/// shards. If it fails the encoder stays as it was.
#[verifier::external_body]
pub(crate) fn run_encoder(encoder: &mut reed_solomon_simd::ReedSolomonEncoder) -> (r: Result<
    Vec<Vec<u8>>,
    ReedSolomonError,
>)
    ensures
        encoder_setup(*final(encoder)) == encoder_setup(*old(encoder)),
        r is Ok <==> encoder_shards(*old(encoder)).len() == encoder_setup(*old(encoder)).0,
        r matches Ok(recovery) ==> {
            &&& recovery@.len() == encoder_setup(*old(encoder)).1
            &&& all_of_length(bytes_of(recovery@), encoder_setup(*old(encoder)).2)
            &&& forall|j: int, p: int|
                0 <= j < recovery@.len() && 0 <= p < encoder_setup(*old(encoder)).2 / 2
                    ==> #[trigger] point(recovery@[j]@, p) == parity(
                    encoder_setup(*old(encoder)).0,
                    encoder_setup(*old(encoder)).1,
                    column(encoder_shards(*old(encoder)), p),
                )[j]
            &&& forall|j: int, p: int|
                0 <= j < recovery@.len() && 0 <= p < encoder_setup(*old(encoder)).2 / 2
                    && are_zero_points(column(encoder_shards(*old(encoder)), p))
                    ==> #[trigger] point(recovery@[j]@, p) == (0u8, 0u8)
            &&& encoder_shards(*final(encoder)) == Seq::<Seq<u8>>::empty()
        },
        r is Err ==> encoder_shards(*final(encoder)) == encoder_shards(*old(encoder)),
{
    let result = encoder.encode()?;
    Ok(result.recovery_iter().map(|shard| shard.to_vec()).collect())
}

/// `ReedSolomonDecoder::new`.
///
/// Claimed: it succeeds just when the length is a positive multiple of 64, with
/// a decoder of that configuration that has got no shard.
#[verifier::external_body]
pub(crate) fn new_decoder(original_count: usize, recovery_count: usize, shard_bytes: usize) -> (r:
    Result<reed_solomon_simd::ReedSolomonDecoder, ReedSolomonError>)
    requires
        decoder_fits(original_count as int, recovery_count as int, shard_bytes as int),
    ensures
        r is Ok <==> is_aligned(shard_bytes as int),
        r matches Ok(decoder) ==> {
            &&& decoder_setup(decoder) == (
                original_count as int,
                recovery_count as int,
                shard_bytes as int,
            )
            &&& decoder_original(decoder) == Map::<int, Seq<u8>>::empty()
            &&& decoder_recovery(decoder) == Map::<int, Seq<u8>>::empty()
        },
{
    reed_solomon_simd::ReedSolomonDecoder::new(original_count, recovery_count, shard_bytes)
}

/// `ReedSolomonDecoder::add_original_shard`.
///
/// Claimed: it takes the shard under its index, unless the index is out of range
/// or taken or the length is wrong; then the decoder stays as it was.
#[verifier::external_body]
pub(crate) fn add_original_to_decoder(
    decoder: &mut reed_solomon_simd::ReedSolomonDecoder,
    index: usize,
    shard: &[u8],
) -> (r: Result<(), ReedSolomonError>)
    requires
        index <= u16::MAX,
    ensures
        decoder_setup(*final(decoder)) == decoder_setup(*old(decoder)),
        decoder_recovery(*final(decoder)) == decoder_recovery(*old(decoder)),
        r is Ok <==> {
            &&& index < decoder_setup(*old(decoder)).0
            &&& !decoder_original(*old(decoder)).contains_key(index as int)
            &&& shard@.len() == decoder_setup(*old(decoder)).2
        },
        decoder_original(*final(decoder)) == if r is Ok {
            decoder_original(*old(decoder)).insert(index as int, shard@)
        } else {
            decoder_original(*old(decoder))
        },
{
    decoder.add_original_shard(index, shard)
}

/// `ReedSolomonDecoder::add_recovery_shard`.
///
/// Claimed: the same as of [`add_original_to_decoder`], for recovery shards.
#[verifier::external_body]
pub(crate) fn add_recovery_to_decoder(
    decoder: &mut reed_solomon_simd::ReedSolomonDecoder,
    index: usize,
    shard: &[u8],
) -> (r: Result<(), ReedSolomonError>)
    requires
        index <= u16::MAX,
    ensures
        decoder_setup(*final(decoder)) == decoder_setup(*old(decoder)),
        decoder_original(*final(decoder)) == decoder_original(*old(decoder)),
        r is Ok <==> {
            &&& index < decoder_setup(*old(decoder)).1
            &&& !decoder_recovery(*old(decoder)).contains_key(index as int)
            &&& shard@.len() == decoder_setup(*old(decoder)).2
        },
        decoder_recovery(*final(decoder)) == if r is Ok {
            decoder_recovery(*old(decoder)).insert(index as int, shard@)
        } else {
            decoder_recovery(*old(decoder))
        },
{
    decoder.add_recovery_shard(index, shard)
}

/// `ReedSolomonDecoder::decode`, with the restored shards of its result copied
/// out and the result dropped.
///
/// Claimed: it succeeds just when the decoder has got as many shards as there
/// are original ones, returns the missing original shards with their indexes,
/// each index once, restored as by [`decode`], and leaves the decoder without
/// shards. If it fails the decoder stays as it was.
#[verifier::external_body]
pub(crate) fn run_decoder(decoder: &mut reed_solomon_simd::ReedSolomonDecoder) -> (r: Result<
    Vec<(usize, Vec<u8>)>,
    ReedSolomonError,
>)
    ensures
        decoder_setup(*final(decoder)) == decoder_setup(*old(decoder)),
        r is Ok <==> decoder_original(*old(decoder)).dom().len() + decoder_recovery(
            *old(decoder),
        ).dom().len() >= decoder_setup(*old(decoder)).0,
        r matches Ok(found) ==> {
            &&& forall|i: int| #[trigger]
                has_index(indexed_bytes(found@), i) <==> 0 <= i < decoder_setup(*old(decoder)).0
                    && !decoder_original(*old(decoder)).contains_key(i)
            &&& forall|k: int, l: int|
                0 <= k < l < found@.len() ==> (#[trigger] found@[k]).0 != (#[trigger] found@[l]).0
            &&& forall|k: int|
                0 <= k < found@.len() ==> (#[trigger] found@[k]).1@.len() == decoder_setup(
                    *old(decoder),
                ).2
            &&& forall|k: int, p: int|
                0 <= k < found@.len() && 0 <= p < decoder_setup(*old(decoder)).2 / 2
                    ==> #[trigger] point(found@[k].1@, p) == restored(
                    decoder_setup(*old(decoder)).0,
                    decoder_setup(*old(decoder)).1,
                    column_of(decoder_original(*old(decoder)), p),
                    column_of(decoder_recovery(*old(decoder)), p),
                )[found@[k].0 as int]
            &&& forall|p: int|
                0 <= p < decoder_setup(*old(decoder)).2 / 2 ==> #[trigger] restores(
                    decoder_setup(*old(decoder)).0,
                    decoder_setup(*old(decoder)).1,
                    column_of(decoder_original(*old(decoder)), p),
                    column_of(decoder_recovery(*old(decoder)), p),
                )
            &&& decoder_original(*final(decoder)) == Map::<int, Seq<u8>>::empty()
            &&& decoder_recovery(*final(decoder)) == Map::<int, Seq<u8>>::empty()
        },
        r is Err ==> {
            &&& decoder_original(*final(decoder)) == decoder_original(*old(decoder))
            &&& decoder_recovery(*final(decoder)) == decoder_recovery(*old(decoder))
        },
{
    let result = decoder.decode()?;
    Ok(result.restored_original_iter().map(|(i, shard)| (i, shard.to_vec())).collect())
}

/// `ReedSolomonDecoder::reset`.
///
/// Claimed: with a length that is a positive multiple of 64 it succeeds, and
/// leaves a decoder of that configuration without shards.
#[verifier::external_body]
pub(crate) fn reset_decoder(
    decoder: &mut reed_solomon_simd::ReedSolomonDecoder,
    original_count: usize,
    recovery_count: usize,
    shard_bytes: usize,
) -> (r: Result<(), ReedSolomonError>)
    requires
        decoder_fits(original_count as int, recovery_count as int, shard_bytes as int),
        is_aligned(shard_bytes as int),
    ensures
        r is Ok,
        decoder_setup(*final(decoder)) == (
            original_count as int,
            recovery_count as int,
            shard_bytes as int,
        ),
        decoder_original(*final(decoder)) == (Map::<int, Seq<u8>>::empty()),
        decoder_recovery(*final(decoder)) == (Map::<int, Seq<u8>>::empty()),
{
    decoder.reset(original_count, recovery_count, shard_bytes)
}

} // verus!
