//! Splitting data into shards, coding them into chunks, and putting the data
//! together again.

use vstd::prelude::*;
use vstd::slice::{slice_subrange, slice_to_vec};

use crate::codec;
use crate::codec::{
    bytes_of, encode_fault, encoder_fits, lemma_encode_fault, lemma_no_adding_fault, parity_shards,
};
use crate::error::{reported, CodecError, Error};
use crate::layout::{
    are_zero, are_zero_points, column, is_aligned, is_zero, lemma_shard_is_its_points,
    lemma_low_byte, lemma_zero_shard, point, SHARD_ALIGNMENT,
};

verus! {

/// The largest number of chunks into which data can be coded.
pub const MAX_CHUNKS: u16 = 16384;

/// The index of an erasure chunk.
#[derive(Clone, Copy, Debug, PartialEq, Eq, PartialOrd, Ord, Hash, Structural)]
pub struct ChunkIndex(pub u16);

impl From<u16> for ChunkIndex {
    fn from(n: u16) -> (index: Self) {
        ChunkIndex(n)
    }
}

impl vstd::std_specs::convert::FromSpecImpl<u16> for ChunkIndex {
    open spec fn obeys_from_spec() -> bool {
        true
    }

    open spec fn from_spec(n: u16) -> Self {
        ChunkIndex(n)
    }
}

impl ChunkIndex {
    /// Moves the index on by `rhs`.
    pub fn add_assign(&mut self, rhs: u16)
        requires
            old(self).0 + rhs <= u16::MAX,
        ensures
            final(self).0 == old(self).0 + rhs,
    {
        self.0 = self.0 + rhs;
    }
}

/// A chunk of erasure-encoded block data, with a proof of type `P`.
#[derive(Clone, Debug, PartialEq, Eq)]
pub struct ErasureChunk<P> {
    /// The erasure-encoded chunk of data belonging to the candidate block.
    pub chunk: Vec<u8>,
    /// The index of this erasure-encoded chunk of data.
    pub index: ChunkIndex,
    /// Proof for this chunk against an erasure root.
    pub proof: P,
}

/// How many of `n` chunks are enough to recover the data: a third, rounded up.
pub open spec fn threshold(n: int) -> int {
    (n - 1) / 3 + 1
}

/// `n` chunks can be made and recovered.
pub open spec fn is_chunk_count(n: int) -> bool {
    1 <= n <= MAX_CHUNKS
}

/// The error for a number of chunks that is out of range.
pub open spec fn chunk_count_error(n: int) -> Error {
    if n > MAX_CHUNKS {
        Error::TooManyTotalChunks
    } else {
        Error::NotEnoughTotalChunks
    }
}

/// The smallest multiple of `alignment` that is no less than `n`.
pub open spec fn aligned_up(n: int, alignment: int) -> int {
    ((n + alignment - 1) / alignment) * alignment
}

/// The length of each of `k` shards that hold `data_len` bytes in all.
pub open spec fn shard_len(k: int, data_len: int) -> int {
    aligned_up((data_len + k - 1) / k, SHARD_ALIGNMENT as int)
}

/// The shards of `data_len` bytes, and what the codec works on, can be allocated.
pub open spec fn coding_fits(n: int, data_len: int) -> bool {
    if n == 1 {
        shard_len(1, data_len) <= isize::MAX
    } else {
        2 * (n - threshold(n)) * shard_len(threshold(n), data_len) <= isize::MAX
    }
}

/// Shard `i` of the data, padded with zeroes.
pub open spec fn original_shard(data: Seq<u8>, i: int, len: int) -> Seq<u8> {
    Seq::new(
        len as nat,
        |b: int|
            if i * len + b < data.len() {
                data[i * len + b]
            } else {
                0
            },
    )
}

/// The data as `k` shards.
pub open spec fn original_shards(k: int, data: Seq<u8>) -> Seq<Seq<u8>> {
    Seq::new(k as nat, |i: int| original_shard(data, i, shard_len(k, data.len() as int)))
}

/// The data coded into `n` chunks: first the shards that hold the data itself,
/// then their recovery shards.
pub open spec fn coded_chunks(n: int, data: Seq<u8>) -> Seq<Seq<u8>> {
    if n == 1 {
        seq![data]
    } else {
        let original = original_shards(threshold(n), data);
        original + parity_shards(n - threshold(n), original)
    }
}

/// Facts on the smallest multiple.
pub proof fn lemma_aligned_up(n: int, alignment: int)
    requires
        0 <= n,
        0 < alignment,
    ensures
        n <= aligned_up(n, alignment) < n + alignment,
        aligned_up(n, alignment) % alignment == 0,
{
    let q = (n + alignment - 1) / alignment;
    vstd::arithmetic::div_mod::lemma_fundamental_div_mod(n + alignment - 1, alignment);
    vstd::arithmetic::mul::lemma_mul_is_commutative(alignment, q);
    vstd::arithmetic::div_mod::lemma_mod_multiples_basic(q, alignment);
}

/// The shards are aligned, not empty, and together hold the data.
pub proof fn lemma_shard_len(k: int, data_len: int)
    requires
        0 < k,
        0 < data_len,
    ensures
        is_aligned(shard_len(k, data_len)),
        data_len <= k * shard_len(k, data_len),
        shard_len(k, data_len) < data_len + 64,
        shard_len(k, data_len) <= k * shard_len(k, data_len),
        (data_len + k - 1) / k <= shard_len(k, data_len),
{
    let each = (data_len + k - 1) / k;
    vstd::arithmetic::div_mod::lemma_fundamental_div_mod(data_len + k - 1, k);
    assert(each >= 1) by (nonlinear_arith)
        requires
            data_len + k - 1 == k * each + (data_len + k - 1) % k,
            (data_len + k - 1) % k < k,
            0 < k,
            0 < data_len,
    ;
    assert(each <= data_len) by (nonlinear_arith)
        requires
            data_len + k - 1 == k * each + (data_len + k - 1) % k,
            0 <= (data_len + k - 1) % k,
            0 < k,
            0 < data_len,
    ;
    lemma_aligned_up(each, 64);
    assert(k * each <= k * shard_len(k, data_len)) by (nonlinear_arith)
        requires
            each <= shard_len(k, data_len),
            0 < k,
    ;
    let len = shard_len(k, data_len);
    assert(len <= k * len) by (nonlinear_arith)
        requires
            0 < len,
            0 < k,
    ;
}

/// What `coding_fits` gives.
pub proof fn lemma_coding_fits(n: int, data_len: int)
    requires
        is_chunk_count(n),
        0 < data_len,
        coding_fits(n, data_len),
    ensures
        1 <= threshold(n) <= n,
        n > 1 ==> encoder_fits(
            threshold(n),
            n - threshold(n),
            shard_len(threshold(n), data_len),
        ),
        data_len + threshold(n) <= usize::MAX,
        threshold(n) * shard_len(threshold(n), data_len) + 64 <= usize::MAX,
{
    let k = threshold(n);
    let len = shard_len(k, data_len);
    lemma_shard_len(k, data_len);
    if n > 1 {
        assert(k * len <= (n - k) * len) by (nonlinear_arith)
            requires
                k <= n - k,
                0 < len,
        ;
        assert(2 * (n - k) * len == 2 * ((n - k) * len)) by (nonlinear_arith);
        assert(2 * k * len == 2 * (k * len)) by (nonlinear_arith);
    } else {
        assert(k * len == len) by (nonlinear_arith)
            requires
                k == 1,
        ;
    }
}

/// Obtain a threshold of chunks that should be enough to recover the data.
pub fn recovery_threshold(n_chunks: u16) -> (r: Result<u16, Error>)
    ensures
        match r {
            Ok(k) => is_chunk_count(n_chunks as int) && k == threshold(n_chunks as int),
            Err(e) => !is_chunk_count(n_chunks as int) && e == chunk_count_error(n_chunks as int),
        },
{
    if n_chunks > MAX_CHUNKS {
        return Err(Error::TooManyTotalChunks);
    }
    if n_chunks == 0 {
        return Err(Error::NotEnoughTotalChunks);
    }
    let needed: u16 = (n_chunks - 1) / 3;
    Ok(needed + 1)
}

/// Obtain the threshold of systematic chunks that should be enough to recover the data.
pub fn systematic_recovery_threshold(n_chunks: u16) -> (r: Result<u16, Error>)
    ensures
        match r {
            Ok(k) => is_chunk_count(n_chunks as int) && k == threshold(n_chunks as int),
            Err(e) => !is_chunk_count(n_chunks as int) && e == chunk_count_error(n_chunks as int),
        },
{
    recovery_threshold(n_chunks)
}

/// Rounds `n` up to a multiple of `alignment`.
pub fn next_aligned(n: usize, alignment: usize) -> (r: usize)
    requires
        alignment > 0,
        n + alignment <= usize::MAX,
    ensures
        r == aligned_up(n as int, alignment as int),
{
    proof {
        lemma_aligned_up(n as int, alignment as int);
    }
    ((n + alignment - 1) / alignment) * alignment
}

/// The length of each shard when `data_len` bytes are split into `systematic` shards.
pub fn shard_bytes(systematic: u16, data_len: usize) -> (r: usize)
    requires
        systematic > 0,
        data_len + systematic <= usize::MAX,
        (data_len + systematic - 1) / (systematic as int) + SHARD_ALIGNMENT <= usize::MAX,
    ensures
        r == shard_len(systematic as int, data_len as int),
{
    let shard_bytes: usize = (data_len + systematic as usize - 1) / systematic as usize;
    next_aligned(shard_bytes, SHARD_ALIGNMENT)
}

/// Cuts shard `index` out of the data and pads it with zeroes.
pub fn make_original_shard(data: &[u8], index: usize, shard_bytes: usize) -> (shard: Vec<u8>)
    requires
        (index + 1) * shard_bytes <= usize::MAX,
    ensures
        shard@ == original_shard(data@, index as int, shard_bytes as int),
{
    proof {
        vstd::arithmetic::mul::lemma_mul_is_distributive_add_other_way(
            shard_bytes as int,
            index as int,
            1,
        );
    }
    let start: usize = index * shard_bytes;
    let end: usize = if start + shard_bytes < data.len() {
        start + shard_bytes
    } else {
        data.len()
    };
    let mut shard: Vec<u8> = Vec::with_capacity(shard_bytes);
    if start < data.len() {
        shard.extend_from_slice(slice_subrange(data, start, end));
    }
    let ghost filled = shard@;
    shard.resize(shard_bytes, 0);
    assert forall|b: int| 0 <= b < shard_bytes implies shard@[b] == original_shard(
        data@,
        index as int,
        shard_bytes as int,
    )[b] by {
        if b < filled.len() {
            assert(shard@.subrange(0, filled.len() as int)[b] == filled[b]);
        }
    }
    assert(shard@ =~= original_shard(data@, index as int, shard_bytes as int));
    shard
}

/// Splits the data into shards, as the codec takes it.
pub fn make_original_shards(original_count: u16, data: &[u8]) -> (shards: Vec<Vec<u8>>)
    requires
        original_count > 0,
        data@.len() > 0,
        data@.len() + original_count <= usize::MAX,
        original_count * shard_len(original_count as int, data@.len() as int) + 64 <= usize::MAX,
    ensures
        bytes_of(shards@) == original_shards(original_count as int, data@),
{
    let ghost len = shard_len(original_count as int, data@.len() as int);
    proof {
        lemma_shard_len(original_count as int, data@.len() as int);
    }
    let shard_bytes: usize = shard_bytes(original_count, data.len());
    let count: usize = original_count as usize;
    let mut shards: Vec<Vec<u8>> = Vec::with_capacity(count);
    for i in 0..count
        invariant
            count == original_count,
            shard_bytes == len,
            len == shard_len(original_count as int, data@.len() as int),
            count * len <= usize::MAX,
            len > 0,
            shards@.len() == i,
            forall|j: int|
                0 <= j < i ==> (#[trigger] shards@[j])@ == original_shard(data@, j, len),
    {
        assert((i + 1) * len <= count * len) by (nonlinear_arith)
            requires
                i + 1 <= count,
                0 < len,
        ;
        shards.push(make_original_shard(data, i, shard_bytes));
    }
    assert(bytes_of(shards@) =~= original_shards(original_count as int, data@));
    shards
}

/// Splits the data into shards by way of one buffer that holds all of them.
pub fn make_original_shards_arena(
    original_count: u16,
    data: &[u8],
    shard_size: usize,
) -> (shards: Vec<Vec<u8>>)
    requires
        original_count > 0,
        data@.len() > 0,
        shard_size == shard_len(original_count as int, data@.len() as int),
        original_count * shard_size <= usize::MAX,
    ensures
        bytes_of(shards@) == original_shards(original_count as int, data@),
{
    let ghost len = shard_size as int;
    proof {
        lemma_shard_len(original_count as int, data@.len() as int);
    }
    let count: usize = original_count as usize;
    let total: usize = count * shard_size;
    let mut buffer: Vec<u8> = slice_to_vec(data);
    buffer.resize(total, 0);
    assert forall|b: int| 0 <= b < total implies buffer@[b] == (if b < data@.len() {
        data@[b]
    } else {
        0
    }) by {
        if b < data@.len() {
            assert(buffer@.subrange(0, data@.len() as int)[b] == data@[b]);
        }
    }
    let mut shards: Vec<Vec<u8>> = Vec::with_capacity(count);
    for i in 0..count
        invariant
            count == original_count,
            shard_size == len,
            len > 0,
            total == count * len,
            buffer@.len() == total,
            forall|b: int|
                0 <= b < total ==> #[trigger] buffer@[b] == (if b < data@.len() {
                    data@[b]
                } else {
                    0
                }),
            shards@.len() == i,
            forall|j: int|
                0 <= j < i ==> (#[trigger] shards@[j])@ == original_shard(data@, j, len),
    {
        assert((i + 1) * len <= count * len && (i + 1) * len == i * len + len && 0 <= i * len)
            by (nonlinear_arith)
            requires
                0 <= i,
                i + 1 <= count,
                0 < len,
        ;
        let start: usize = i * shard_size;
        let shard: Vec<u8> = slice_to_vec(
            slice_subrange(buffer.as_slice(), start, start + shard_size),
        );
        assert(shard@ =~= original_shard(data@, i as int, len));
        shards.push(shard);
    }
    assert(bytes_of(shards@) =~= original_shards(original_count as int, data@));
    shards
}

/// Both ways of splitting the data make the same shards.
pub proof fn lemma_splitters_agree(
    original_count: u16,
    data: &[u8],
    shard_size: usize,
    made: Vec<Vec<u8>>,
    by_buffer: Vec<Vec<u8>>,
)
    requires
        call_ensures(make_original_shards, (original_count, data), made),
        call_ensures(make_original_shards_arena, (original_count, data, shard_size), by_buffer),
    ensures
        bytes_of(made@) == bytes_of(by_buffer@),
{
}

/// The chunks that a call returned, or its error.
pub open spec fn chunks_outcome(r: Result<Vec<Vec<u8>>, Error>) -> Result<Seq<Seq<u8>>, Error> {
    match r {
        Ok(chunks) => Ok(bytes_of(chunks@)),
        Err(e) => Err(e),
    }
}

/// What comes of coding data into `n` chunks by way of the codec. The codec has no
/// code without recovery shards, so it refuses to make one chunk.
pub open spec fn coding_outcome(n: int, data: Seq<u8>) -> Result<Seq<Seq<u8>>, Error> {
    if !is_chunk_count(n) {
        Err(chunk_count_error(n))
    } else if n == 1 {
        Err(reported(CodecError::UnsupportedShardCount))
    } else {
        Ok(coded_chunks(n, data))
    }
}

/// What [`construct_chunks`] makes of data. One chunk alone is the data itself.
pub open spec fn construct_outcome(n: int, data: Seq<u8>) -> Result<Seq<Seq<u8>>, Error> {
    if data.len() == 0 {
        Err(Error::BadPayload)
    } else if n == 1 {
        Ok(seq![data])
    } else {
        coding_outcome(n, data)
    }
}

/// Appends their recovery shards to the original shards.
pub(crate) fn append_recovery(recovery_count: usize, original: Vec<Vec<u8>>) -> (r: Result<
    Vec<Vec<u8>>,
    Error,
>)
    requires
        original@.len() <= 32768,
        recovery_count <= 32768,
        original@.len() > 0 && recovery_count > 0 ==> encoder_fits(
            original@.len() as int,
            recovery_count as int,
            original@[0]@.len() as int,
        ),
    ensures
        chunks_outcome(r) == (match encode_fault(
            original@.len() as int,
            recovery_count as int,
            bytes_of(original@),
        ) {
            Some(fault) => Err(reported(fault)),
            None => Ok(
                bytes_of(original@) + parity_shards(recovery_count as int, bytes_of(original@)),
            ),
        }),
        r matches Ok(chunks) ==> are_zero(bytes_of(original@)) ==> are_zero(bytes_of(chunks@)),
{
    let ghost shards = bytes_of(original@);
    let ghost k = shards.len() as int;
    let ghost rc = recovery_count as int;
    let mut chunks = original;
    match codec::encode(chunks.len(), recovery_count, &chunks) {
        Ok(recovery) => {
            let mut recovery = recovery;
            proof {
                let made = bytes_of(recovery@);
                let wanted = parity_shards(rc, shards);
                assert(shards[0] == original@[0]@);
                assert forall|j: int| 0 <= j < rc implies made[j] == wanted[j] by {
                    let points = |p: int| codec::parity(k, rc, column(shards, p))[j];
                    assert(made[j] == recovery@[j]@);
                    lemma_shard_is_its_points(made[j], points);
                }
                assert(made =~= wanted);
                lemma_no_adding_fault(shards, k, shards[0].len() as int);
                if are_zero(shards) {
                    lemma_zero_recovery(shards, made);
                }
            }
            let ghost before = chunks@;
            let ghost tail = recovery@;
            chunks.append(&mut recovery);
            assert(bytes_of(chunks@) =~= bytes_of(before) + bytes_of(tail));
            assert(bytes_of(before) == shards);
            Ok(chunks)
        },
        Err(e) => Err(Error::from(e)),
    }
}

/// The recovery shards of zero shards are zero.
proof fn lemma_zero_recovery(original: Seq<Seq<u8>>, recovery: Seq<Seq<u8>>)
    requires
        original.len() > 0,
        is_aligned(original[0].len() as int),
        are_zero(original),
        forall|i: int|
            0 <= i < original.len() ==> (#[trigger] original[i]).len() == original[0].len(),
        forall|j: int|
            0 <= j < recovery.len() ==> (#[trigger] recovery[j]).len() == original[0].len(),
        forall|j: int, p: int|
            0 <= j < recovery.len() && 0 <= p < original[0].len() as int / 2 && are_zero_points(
                column(original, p),
            ) ==> #[trigger] point(recovery[j], p) == (0u8, 0u8),
    ensures
        are_zero(recovery),
{
    let len = original[0].len() as int;
    assert forall|p: int| 0 <= p < len / 2 implies #[trigger] are_zero_points(
        column(original, p),
    ) by {
        lemma_low_byte(len, p);
        assert forall|i: int| 0 <= i < original.len() implies #[trigger] column(original, p)[i] == (
            0u8,
            0u8,
        ) by {
            assert(is_zero(original[i]));
        }
    }
    assert forall|j: int| 0 <= j < recovery.len() implies is_zero(#[trigger] recovery[j]) by {
        assert forall|p: int| 0 <= p < len / 2 implies #[trigger] point(recovery[j], p) == (
            0u8,
            0u8,
        ) by {
            assert(are_zero_points(column(original, p)));
        }
        lemma_zero_shard(recovery[j]);
    }
}

/// What the codec makes of the original shards.
pub proof fn lemma_original_shards(n: int, data: Seq<u8>, shards: Seq<Vec<u8>>)
    requires
        is_chunk_count(n),
        data.len() > 0,
        coding_fits(n, data.len() as int),
        bytes_of(shards) == original_shards(threshold(n), data),
    ensures
        shards.len() == threshold(n),
        n > 1 ==> encoder_fits(threshold(n), n - threshold(n), shards[0]@.len() as int),
        encode_fault(threshold(n), n - threshold(n), bytes_of(shards)) == (if n == 1 {
            Some(CodecError::UnsupportedShardCount)
        } else {
            None
        }),
        is_zero(data) ==> are_zero(bytes_of(shards)),
{
    let original = original_shards(threshold(n), data);
    lemma_coding_fits(n, data.len() as int);
    lemma_shard_len(threshold(n), data.len() as int);
    assert(bytes_of(shards).len() == shards.len());
    assert(original.len() == threshold(n));
    assert(bytes_of(shards)[0] == original[0]);
    if n > 1 {
        lemma_encode_fault(threshold(n), n - threshold(n), original);
    }
}

/// Construct erasure-coded chunks, splitting the data shard by shard.
pub fn construct_chunks_default(n_chunks: u16, data: &[u8]) -> (r: Result<Vec<Vec<u8>>, Error>)
    requires
        data@.len() > 0,
        is_chunk_count(n_chunks as int) ==> coding_fits(n_chunks as int, data@.len() as int),
    ensures
        chunks_outcome(r) == coding_outcome(n_chunks as int, data@),
        r matches Ok(chunks) ==> is_zero(data@) ==> are_zero(bytes_of(chunks@)),
{
    let systematic: u16 = match systematic_recovery_threshold(n_chunks) {
        Ok(k) => k,
        Err(e) => {
            return Err(e);
        },
    };
    proof {
        lemma_coding_fits(n_chunks as int, data@.len() as int);
    }
    let original = make_original_shards(systematic, data);
    proof {
        lemma_original_shards(n_chunks as int, data@, original@);
    }
    append_recovery((n_chunks - systematic) as usize, original)
}

/// Construct erasure-coded chunks, splitting the data by way of one buffer.
///
/// The chunks and the errors are the same as those of [`construct_chunks_default`].
pub fn construct_chunks_arena(n_chunks: u16, data: &[u8]) -> (r: Result<Vec<Vec<u8>>, Error>)
    requires
        data@.len() > 0,
        is_chunk_count(n_chunks as int) ==> coding_fits(n_chunks as int, data@.len() as int),
    ensures
        chunks_outcome(r) == coding_outcome(n_chunks as int, data@),
        r matches Ok(chunks) ==> is_zero(data@) ==> are_zero(bytes_of(chunks@)),
{
    let systematic: u16 = match systematic_recovery_threshold(n_chunks) {
        Ok(k) => k,
        Err(e) => {
            return Err(e);
        },
    };
    proof {
        lemma_coding_fits(n_chunks as int, data@.len() as int);
        lemma_shard_len(systematic as int, data@.len() as int);
    }
    let shard_size: usize = shard_bytes(systematic, data.len());
    let original = make_original_shards_arena(systematic, data, shard_size);
    proof {
        lemma_original_shards(n_chunks as int, data@, original@);
    }
    append_recovery((n_chunks - systematic) as usize, original)
}

/// Splitting by way of one buffer changes neither the chunks nor the errors.
pub proof fn lemma_arena_agrees(
    n_chunks: u16,
    data: &[u8],
    r: Result<Vec<Vec<u8>>, Error>,
    by_buffer: Result<Vec<Vec<u8>>, Error>,
)
    requires
        call_ensures(construct_chunks_default, (n_chunks, data), r),
        call_ensures(construct_chunks_arena, (n_chunks, data), by_buffer),
    ensures
        chunks_outcome(r) == chunks_outcome(by_buffer),
{
}

/// Construct erasure-coded chunks.
///
/// Works for 1 to [`MAX_CHUNKS`] chunks. The data must be non-empty. One chunk
/// alone is the data itself, neither padded nor coded. Data of zeroes has chunks of
/// zeroes.
///
/// Here the shards are made one after the other, whatever `num_threads` says;
/// [`crate::construct_chunks_parallel`] makes them on a thread pool.
pub fn construct_chunks(n_chunks: u16, data: &[u8], num_threads: Option<usize>) -> (r: Result<
    Vec<Vec<u8>>,
    Error,
>)
    requires
        2 <= n_chunks <= MAX_CHUNKS ==> coding_fits(n_chunks as int, data@.len() as int),
    ensures
        chunks_outcome(r) == construct_outcome(n_chunks as int, data@),
        r matches Ok(chunks) ==> is_zero(data@) ==> are_zero(bytes_of(chunks@)),
{
    let _ = num_threads;
    if data.is_empty() {
        return Err(Error::BadPayload);
    }
    if n_chunks == 1 {
        let chunks = vec![slice_to_vec(data)];
        assert(bytes_of(chunks@) =~= seq![data@]);
        return Ok(chunks);
    }
    construct_chunks_default(n_chunks, data)
}

} // verus!
