//! What holds of every call that splits data or codes it into chunks.

use vstd::prelude::*;

use crate::chunks::{
    coded_chunks, construct_chunks, construct_chunks_arena, construct_chunks_default,
    lemma_aligned_up, lemma_shard_len, make_original_shard, make_original_shards,
    make_original_shards_arena, next_aligned, original_shard, original_shards, recovery_threshold,
    shard_bytes, shard_len, systematic_recovery_threshold, threshold, ChunkIndex,
};
use crate::codec::{bytes_of, lemma_same_bytes, parity, parity_shards};
use crate::error::Error;
use crate::layout::{column, is_zero, lemma_point_of_shard_of};
use crate::round_trip::lemma_coded_chunks;

verus! {

/// A third of the chunks, rounded up, is enough. From 1 to 16384 chunks can be made.
pub proof fn lemma_recovery_threshold(n_chunks: u16, r: Result<u16, Error>)
    requires
        call_ensures(recovery_threshold, (n_chunks,), r),
    ensures
        r is Ok <==> 1 <= n_chunks <= 16384,
        r matches Ok(k) ==> n_chunks <= 3 * k < n_chunks + 3,
        n_chunks == 0 ==> r == Err::<u16, Error>(Error::NotEnoughTotalChunks),
        n_chunks > 16384 ==> r == Err::<u16, Error>(Error::TooManyTotalChunks),
{
}

/// As many of the chunks that hold the data are enough as of any chunks.
pub proof fn lemma_systematic_recovery_threshold(n_chunks: u16, r: Result<u16, Error>)
    requires
        call_ensures(systematic_recovery_threshold, (n_chunks,), r),
    ensures
        r is Ok <==> 1 <= n_chunks <= 16384,
        r matches Ok(k) ==> n_chunks <= 3 * k < n_chunks + 3,
        n_chunks == 0 ==> r == Err::<u16, Error>(Error::NotEnoughTotalChunks),
        n_chunks > 16384 ==> r == Err::<u16, Error>(Error::TooManyTotalChunks),
{
}

/// A number is rounded up to the next multiple, and no further.
pub proof fn lemma_next_aligned(n: usize, alignment: usize, r: usize)
    requires
        alignment > 0,
        call_ensures(next_aligned, (n, alignment), r),
    ensures
        r % alignment == 0,
        n <= r < n + alignment,
{
    lemma_aligned_up(n as int, alignment as int);
}

/// The length of a shard is the smallest multiple of 64 with which the shards hold the
/// data.
pub proof fn lemma_shard_bytes(systematic: u16, data_len: usize, r: usize)
    requires
        systematic > 0,
        call_ensures(shard_bytes, (systematic, data_len), r),
    ensures
        r % 64 == 0,
        data_len <= systematic * r,
        r > 0 ==> systematic * (r - 64) < data_len,
        data_len == 0 ==> r == 0,
{
    lemma_smallest_shard_len(systematic as int, data_len as int);
}

/// No smaller multiple of 64 is enough.
proof fn lemma_smallest_shard_len(k: int, data_len: int)
    requires
        0 < k,
        0 <= data_len,
    ensures
        shard_len(k, data_len) % 64 == 0,
        0 <= shard_len(k, data_len),
        data_len <= k * shard_len(k, data_len),
        shard_len(k, data_len) > 0 ==> k * (shard_len(k, data_len) - 64) < data_len,
        data_len == 0 ==> shard_len(k, data_len) == 0,
{
    let each = (data_len + k - 1) / k;
    let rest = (data_len + k - 1) % k;
    let len = shard_len(k, data_len);
    vstd::arithmetic::div_mod::lemma_fundamental_div_mod(data_len + k - 1, k);
    vstd::arithmetic::div_mod::lemma_mod_bound(data_len + k - 1, k);
    assert(each >= 0 && (data_len == 0 ==> each == 0)) by (nonlinear_arith)
        requires
            data_len + k - 1 == k * each + rest,
            0 <= rest < k,
            0 < k,
            0 <= data_len,
    ;
    lemma_aligned_up(each, 64);
    assert(data_len <= k * len) by (nonlinear_arith)
        requires
            data_len + k - 1 == k * each + rest,
            0 <= rest < k,
            0 < k,
            each <= len,
    ;
    assert(k * (len - 64) < data_len) by (nonlinear_arith)
        requires
            data_len + k - 1 == k * each + rest,
            0 <= rest < k,
            0 < k,
            len - 64 <= each - 1,
    ;
}

/// A shard holds the data from its place on, and zeroes where the data has ended.
pub proof fn lemma_make_original_shard(
    data: &[u8],
    index: usize,
    shard_bytes: usize,
    shard: Vec<u8>,
)
    requires
        call_ensures(make_original_shard, (data, index, shard_bytes), shard),
    ensures
        shard@.len() == shard_bytes,
        forall|b: int|
            0 <= b < shard_bytes && index * shard_bytes + b < data@.len() ==> #[trigger] shard@[b]
                == data@[index * shard_bytes + b],
        forall|b: int|
            0 <= b < shard_bytes && index * shard_bytes + b >= data@.len() ==> #[trigger] shard@[b]
                == 0,
{
}

/// There are as many shards as asked for, of the smallest length that holds the data,
/// with the data in them byte by byte and zeroes after it.
pub proof fn lemma_make_original_shards(
    original_count: u16,
    data: &[u8],
    shards: Vec<Vec<u8>>,
)
    requires
        original_count > 0,
        data@.len() > 0,
        call_ensures(make_original_shards, (original_count, data), shards),
    ensures
        shards@.len() == original_count,
        forall|i: int|
            0 <= i < original_count ==> (#[trigger] shards@[i])@.len() == shards@[0]@.len(),
        shards@[0]@.len() > 0,
        shards@[0]@.len() % 64 == 0,
        data@.len() <= original_count * shards@[0]@.len(),
        original_count * (shards@[0]@.len() - 64) < data@.len(),
        forall|b: int|
            0 <= b < data@.len() ==> shards@[b / shards@[0]@.len() as int]@[b
                % shards@[0]@.len() as int] == #[trigger] data@[b],
        forall|i: int, b: int|
            0 <= i < original_count && 0 <= b < shards@[0]@.len() && i * shards@[0]@.len() + b
                >= data@.len() ==> #[trigger] shards@[i]@[b] == 0,
{
    lemma_split_data(
        original_count as int,
        data@,
        shards@,
        shard_len(original_count as int, data@.len() as int),
    );
}

/// Splitting by way of one buffer does the same.
pub proof fn lemma_make_original_shards_arena(
    original_count: u16,
    data: &[u8],
    data_len: usize,
    size: usize,
    shards: Vec<Vec<u8>>,
)
    requires
        original_count > 0,
        data_len > 0,
        data_len == data@.len(),
        call_ensures(shard_bytes, (original_count, data_len), size),
        call_ensures(make_original_shards_arena, (original_count, data, size), shards),
    ensures
        shards@.len() == original_count,
        forall|i: int| 0 <= i < original_count ==> (#[trigger] shards@[i])@.len() == size,
        forall|b: int|
            0 <= b < data@.len() ==> shards@[b / size as int]@[b % size as int]
                == #[trigger] data@[b],
        forall|i: int, b: int|
            0 <= i < original_count && 0 <= b < size && i * size + b >= data@.len()
                ==> #[trigger] shards@[i]@[b] == 0,
{
    lemma_split_data(
        original_count as int,
        data@,
        shards@,
        shard_len(original_count as int, data@.len() as int),
    );
}

/// Where the data stands in the shards into which it is split.
proof fn lemma_split_data(k: int, data: Seq<u8>, shards: Seq<Vec<u8>>, len: int)
    requires
        0 < k,
        data.len() > 0,
        bytes_of(shards) == original_shards(k, data),
        len == shard_len(k, data.len() as int),
    ensures
        shards.len() == k,
        forall|i: int| 0 <= i < k ==> (#[trigger] shards[i])@.len() == len,
        len > 0,
        len % 64 == 0,
        data.len() <= k * len,
        k * (len - 64) < data.len(),
        forall|b: int|
            0 <= b < data.len() ==> shards[b / len]@[b % len] == #[trigger] data[b],
        forall|i: int, b: int|
            0 <= i < k && 0 <= b < len && i * len + b >= data.len() ==> #[trigger] shards[i]@[b]
                == 0,
{
    lemma_shard_len(k, data.len() as int);
    lemma_smallest_shard_len(k, data.len() as int);
    assert(bytes_of(shards).len() == shards.len());
    assert forall|i: int| 0 <= i < k implies (#[trigger] shards[i])@ == original_shard(
        data,
        i,
        len,
    ) by {
        assert(bytes_of(shards)[i] == original_shards(k, data)[i]);
    }
    assert forall|b: int| 0 <= b < data.len() implies shards[b / len]@[b % len]
        == #[trigger] data[b] by {
        lemma_place(b, len, k);
        assert(shards[b / len]@ == original_shard(data, b / len, len));
    }
}

/// The place of a byte in shards of one length.
proof fn lemma_place(b: int, len: int, k: int)
    requires
        0 < len,
        0 <= b < k * len,
    ensures
        0 <= b / len < k,
        0 <= b % len < len,
        (b / len) * len + b % len == b,
{
    vstd::arithmetic::div_mod::lemma_fundamental_div_mod(b, len);
    vstd::arithmetic::div_mod::lemma_mod_bound(b, len);
    vstd::arithmetic::mul::lemma_mul_is_commutative(len, b / len);
    assert(0 <= b / len < k) by (nonlinear_arith)
        requires
            b == len * (b / len) + b % len,
            0 <= b % len < len,
            0 <= b < k * len,
            0 < len,
    ;
}

/// Data is refused only if it is empty, and a number of chunks only if it is not one of
/// 1 to 16384.
pub proof fn lemma_construct_chunks_answers(
    n_chunks: u16,
    data: &[u8],
    num_threads: Option<usize>,
    r: Result<Vec<Vec<u8>>, Error>,
)
    requires
        call_ensures(construct_chunks, (n_chunks, data, num_threads), r),
    ensures
        r is Ok <==> data@.len() > 0 && 1 <= n_chunks <= 16384,
        data@.len() == 0 ==> r == Err::<Vec<Vec<u8>>, Error>(Error::BadPayload),
        data@.len() > 0 && n_chunks == 0 ==> r == Err::<Vec<Vec<u8>>, Error>(
            Error::NotEnoughTotalChunks,
        ),
        data@.len() > 0 && n_chunks > 16384 ==> r == Err::<Vec<Vec<u8>>, Error>(
            Error::TooManyTotalChunks,
        ),
{
}

/// One chunk alone is the data.
pub proof fn lemma_one_chunk(
    data: &[u8],
    num_threads: Option<usize>,
    r: Result<Vec<Vec<u8>>, Error>,
)
    requires
        call_ensures(construct_chunks, (1u16, data, num_threads), r),
    ensures
        r matches Ok(chunks) ==> chunks@.len() == 1 && chunks@[0]@ == data@,
{
    if r is Ok {
        let chunks = r->Ok_0;
        assert(bytes_of(chunks@).len() == chunks@.len());
        assert(bytes_of(chunks@)[0] == chunks@[0]@);
    }
}

/// The chunks are as many as asked for and of one length, the smallest multiple of 64
/// with which a third of them, rounded up, holds the data. Byte by byte the data stands
/// in the first chunks, with zeroes after it up to that third. Each point of the other
/// chunks is the parity that the codec makes of the points of the first ones.
pub proof fn lemma_chunks_hold_data(
    n_chunks: u16,
    data: &[u8],
    num_threads: Option<usize>,
    chunks: Vec<Vec<u8>>,
    k: int,
    len: int,
)
    requires
        n_chunks >= 2,
        call_ensures(construct_chunks, (n_chunks, data, num_threads), Ok(chunks)),
        n_chunks <= 3 * k < n_chunks + 3,
        len == chunks@[0]@.len(),
    ensures
        chunks@.len() == n_chunks,
        forall|i: int| 0 <= i < n_chunks ==> (#[trigger] chunks@[i])@.len() == len,
        len > 0,
        len % 64 == 0,
        data@.len() <= k * len,
        k * (len - 64) < data@.len(),
        forall|b: int|
            0 <= b < data@.len() ==> chunks@[b / len]@[b % len] == #[trigger] data@[b],
        forall|i: int, b: int|
            0 <= i < k && 0 <= b < len && i * len + b >= data@.len() ==> #[trigger] chunks@[i]@[b]
                == 0,
{
    let n = n_chunks as int;
    assert(k == threshold(n));
    lemma_coded(n, data@, chunks@);
    lemma_split_data(k, data@, chunks@.take(k), len);
    assert forall|b: int| 0 <= b < data@.len() implies chunks@[b / len]@[b % len]
        == #[trigger] data@[b] by {
        lemma_place(b, len, k);
        assert(chunks@.take(k)[b / len] == chunks@[b / len]);
    }
    assert forall|i: int, b: int|
        0 <= i < k && 0 <= b < len && i * len + b >= data@.len() implies #[trigger] chunks@[i]@[b]
        == 0 by {
        assert(chunks@.take(k)[i]@[b] == 0);
    }
}

/// Point `p` of chunk `k + j`, where the first `k` chunks hold the data, is number `j` of
/// the parities that the codec makes of the points `p` of these chunks.
pub proof fn lemma_chunks_hold_parity(
    n_chunks: u16,
    data: &[u8],
    num_threads: Option<usize>,
    chunks: Vec<Vec<u8>>,
    k: int,
    j: int,
    p: int,
)
    requires
        n_chunks >= 2,
        call_ensures(construct_chunks, (n_chunks, data, num_threads), Ok(chunks)),
        n_chunks <= 3 * k < n_chunks + 3,
        0 <= j < n_chunks - k,
        0 <= p < chunks@[0]@.len() as int / 2,
    ensures
        ({
            let at = (p / 32) * 64 + p % 32;
            let points = Seq::new(k as nat, |i: int| (chunks@[i]@[at], chunks@[i]@[at + 32]));
            parity(k, n_chunks - k, points)[j] == (chunks@[k + j]@[at], chunks@[k + j]@[at + 32])
        }),
{
    let n = n_chunks as int;
    let rc = n - k;
    assert(k == threshold(n));
    lemma_coded(n, data@, chunks@);
    let original = original_shards(k, data@);
    let parities = |q: int| parity(k, rc, column(original, q))[j];
    let len = chunks@[0]@.len();
    assert(chunks@[k + j]@ == coded_chunks(n, data@)[k + j]);
    lemma_coded_chunks(n, data@);
    assert(coded_chunks(n, data@)[k + j] == parity_shards(rc, original)[j]);
    lemma_point_of_shard_of(len, parities, p);
    let at = (p / 32) * 64 + p % 32;
    let points = Seq::new(k as nat, |i: int| (chunks@[i]@[at], chunks@[i]@[at + 32]));
    assert(points =~= column(original, p)) by {
        assert forall|i: int| 0 <= i < k implies points[i] == column(original, p)[i] by {
            assert(chunks@[i]@ == coded_chunks(n, data@)[i]);
        }
    }
}

/// Facts on coded chunks.
proof fn lemma_coded(n: int, data: Seq<u8>, chunks: Seq<Vec<u8>>)
    requires
        2 <= n <= 16384,
        data.len() > 0,
        bytes_of(chunks) == coded_chunks(n, data),
    ensures
        chunks.len() == n,
        chunks[0]@.len() == shard_len(threshold(n), data.len() as int),
        forall|i: int| 0 <= i < n ==> (#[trigger] chunks[i])@.len() == chunks[0]@.len(),
        forall|i: int| 0 <= i < n ==> (#[trigger] chunks[i])@ == coded_chunks(n, data)[i],
        bytes_of(chunks.take(threshold(n))) == original_shards(threshold(n), data),
{
    lemma_coded_chunks(n, data);
    assert(bytes_of(chunks).len() == chunks.len());
    assert forall|i: int| 0 <= i < n implies (#[trigger] chunks[i])@ == coded_chunks(
        n,
        data,
    )[i] by {
        assert(bytes_of(chunks)[i] == chunks[i]@);
    }
    assert(bytes_of(chunks.take(threshold(n))) =~= original_shards(threshold(n), data)) by {
        let first = bytes_of(chunks.take(threshold(n)));
        assert forall|i: int| 0 <= i < threshold(n) implies first[i] == original_shards(
            threshold(n),
            data,
        )[i] by {
            assert(coded_chunks(n, data)[i] == original_shards(threshold(n), data)[i]);
        }
    }
}

/// Chunks do not depend on the number of threads, nor on how the data is split. Only
/// where one chunk is asked for, which the codec does not make, does it matter.
pub proof fn lemma_ways_agree(
    n_chunks: u16,
    data: &[u8],
    num_threads: Option<usize>,
    other_threads: Option<usize>,
    r: Result<Vec<Vec<u8>>, Error>,
    other: Result<Vec<Vec<u8>>, Error>,
    split: Result<Vec<Vec<u8>>, Error>,
    by_buffer: Result<Vec<Vec<u8>>, Error>,
)
    requires
        call_ensures(construct_chunks, (n_chunks, data, num_threads), r),
        call_ensures(construct_chunks, (n_chunks, data, other_threads), other),
        call_ensures(construct_chunks_default, (n_chunks, data), split),
        call_ensures(construct_chunks_arena, (n_chunks, data), by_buffer),
        data@.len() > 0,
    ensures
        r is Err ==> other == r,
        r matches Ok(chunks) ==> {
            &&& other is Ok
            &&& chunks@.len() == other->Ok_0@.len()
            &&& forall|i: int|
                0 <= i < chunks@.len() ==> (#[trigger] chunks@[i])@ == other->Ok_0@[i]@
        },
        n_chunks == 1 ==> split == Err::<Vec<Vec<u8>>, Error>(Error::Unknown) && by_buffer == Err::<
            Vec<Vec<u8>>,
            Error,
        >(Error::Unknown),
        n_chunks != 1 && r is Err ==> split == r && by_buffer == r,
        r matches Ok(chunks) ==> n_chunks != 1 ==> {
            &&& split is Ok
            &&& by_buffer is Ok
            &&& chunks@.len() == split->Ok_0@.len()
            &&& chunks@.len() == by_buffer->Ok_0@.len()
            &&& forall|i: int|
                0 <= i < chunks@.len() ==> (#[trigger] chunks@[i])@ == split->Ok_0@[i]@
                    && chunks@[i]@ == by_buffer->Ok_0@[i]@
        },
{
    if r is Ok {
        lemma_same_bytes(r->Ok_0@, other->Ok_0@);
        if n_chunks != 1 {
            lemma_same_bytes(r->Ok_0@, split->Ok_0@);
            lemma_same_bytes(r->Ok_0@, by_buffer->Ok_0@);
        }
    }
}

/// Chunks of zeroes are made of zeroes.
pub proof fn lemma_zero_data(
    n_chunks: u16,
    data: &[u8],
    num_threads: Option<usize>,
    chunks: Vec<Vec<u8>>,
)
    requires
        call_ensures(construct_chunks, (n_chunks, data, num_threads), Ok(chunks)),
        forall|b: int| 0 <= b < data@.len() ==> #[trigger] data@[b] == 0,
    ensures
        forall|i: int, b: int|
            0 <= i < chunks@.len() && 0 <= b < chunks@[i]@.len() ==> #[trigger] chunks@[i]@[b] == 0,
{
    assert(is_zero(data@));
    assert forall|i: int, b: int|
        0 <= i < chunks@.len() && 0 <= b < chunks@[i]@.len() implies #[trigger] chunks@[i]@[b]
        == 0 by {
        assert(bytes_of(chunks@)[i] == chunks@[i]@);
        assert(is_zero(bytes_of(chunks@)[i]));
    }
}

/// Chunks can be made of any data whose chunks fit into memory. Nothing is asked where
/// none have to be coded.
pub proof fn lemma_construct_chunks_takes(
    n_chunks: u16,
    data: &[u8],
    num_threads: Option<usize>,
)
    requires
        n_chunks <= 1 || n_chunks > 16384 || data@.len() == 0 || 4 * (data@.len() + 64 * n_chunks)
            <= isize::MAX,
    ensures
        call_requires(construct_chunks, (n_chunks, data, num_threads)),
{
    if 2 <= n_chunks <= 16384 {
        let n = n_chunks as int;
        let k = threshold(n);
        let len = shard_len(k, data@.len() as int);
        lemma_smallest_shard_len(k, data@.len() as int);
        assert(2 * (n - k) * len <= isize::MAX) by {
            assert(2 * (n - k) * len <= 4 * (k * len)) by (nonlinear_arith)
                requires
                    n - k <= 2 * k,
                    0 <= len,
            ;
            assert(k * len <= data@.len() + 64 * k) by (nonlinear_arith)
                requires
                    len > 0 ==> k * (len - 64) < data@.len(),
                    0 <= len,
                    0 < k,
            ;
        }
    }
}

/// An index is the number that it is made of.
pub proof fn lemma_chunk_index_from(n: u16, index: ChunkIndex)
    requires
        call_ensures(<ChunkIndex as From<u16>>::from, (n,), index),
    ensures
        index.0 == n,
{
}

} // verus!
