//! What holds of every call that puts data together from chunks.

use vstd::prelude::*;
use vstd::std_specs::iter::IteratorSpec;

use crate::chunks::{coded_chunks, construct_chunks, shard_len, threshold, ChunkIndex};
use crate::codec::{bytes_of, by_index, decode_fault, has_index, restored, shard_fault};
use crate::error::{reported, CodecError, Error};
use crate::layout::{column_of, lemma_low_byte, lemma_point_of_shard_of, shard_of};
use crate::reconstruct::{
    all_original, are_enough, are_some, at_most, chunk_bytes, concat, distinct, is_each,
    lemma_original_part_ascends, lemma_parts, lemma_shard_fault, natural, original_part, outcome,
    padded, reconstruct, reconstructed, recovery_part,
};
use crate::round_trip::{
    lemma_coded_chunks, lemma_concat_original_shards, lemma_distinct_parts, lemma_padded,
    lemma_repeated_index, lemma_strictly_ascending, lemma_too_few,
    lemma_too_few_coded,
};

verus! {

/// The chunks that were made of some data, and some of them with their indexes.
proof fn lemma_are_some(
    n_chunks: u16,
    data: &[u8],
    num_threads: Option<usize>,
    chunks: Vec<Vec<u8>>,
    items: Seq<(ChunkIndex, Vec<u8>)>,
)
    requires
        call_ensures(construct_chunks, (n_chunks, data, num_threads), Ok(chunks)),
        forall|t: int, u: int|
            0 <= t < u < items.len() ==> (#[trigger] items[t]).0.0 != (#[trigger] items[u]).0.0,
        forall|t: int|
            0 <= t < items.len() ==> (#[trigger] items[t]).0.0 < n_chunks && items[t].1@
                == chunks@[items[t].0.0 as int]@,
    ensures
        are_some(n_chunks as int, chunk_bytes(items), data@),
        bytes_of(chunks@) == coded_chunks(n_chunks as int, data@),
{
    let n = n_chunks as int;
    let all = chunk_bytes(items);
    let coded = coded_chunks(n, data@);
    if n > 1 {
        lemma_coded_chunks(n, data@);
    }
    assert(bytes_of(chunks@) == coded);
    assert forall|t: int| 0 <= t < all.len() implies 0 <= (#[trigger] all[t]).0 < coded.len()
        && all[t].1 == coded[all[t].0] by {
        assert(items[t].0.0 < n_chunks);
        assert(bytes_of(chunks@)[all[t].0] == chunks@[all[t].0]@);
    }
    assert forall|t: int, u: int| 0 <= t < u < all.len() implies (#[trigger] all[t]).0 != (
    #[trigger] all[u]).0 by {
        assert(items[t].0.0 != items[u].0.0);
    }
}

/// Any third of the chunks, rounded up, gives back the data, whatever their order. Asked
/// for less the data is cut off; asked for more it is followed by zeroes, as far as `k`
/// chunks reach, `k` being that third.
pub proof fn lemma_any_chunks_give_back_data<I: Iterator<Item = (ChunkIndex, Vec<u8>)>>(
    n_chunks: u16,
    data: &[u8],
    num_threads: Option<usize>,
    chunks: Vec<Vec<u8>>,
    given: I,
    items: Seq<(ChunkIndex, Vec<u8>)>,
    data_len: usize,
    r: Result<Vec<u8>, Error>,
    k: int,
)
    requires
        call_ensures(construct_chunks, (n_chunks, data, num_threads), Ok(chunks)),
        call_ensures(reconstruct::<I>, (n_chunks, given, data_len), r),
        items == given.remaining(),
        n_chunks <= 3 * k < n_chunks + 3,
        items.len() >= k,
        forall|t: int, u: int|
            0 <= t < u < items.len() ==> (#[trigger] items[t]).0.0 != (#[trigger] items[u]).0.0,
        forall|t: int|
            0 <= t < items.len() ==> (#[trigger] items[t]).0.0 < n_chunks && items[t].1@
                == chunks@[items[t].0.0 as int]@,
    ensures
        r is Ok,
        data_len == data@.len() ==> r->Ok_0@ == data@,
        data_len <= data@.len() ==> r->Ok_0@ == data@.take(data_len as int),
        data_len > data@.len() ==> {
            &&& data@.len() <= r->Ok_0@.len() <= data_len
            &&& forall|b: int| 0 <= b < data@.len() ==> #[trigger] r->Ok_0@[b] == data@[b]
            &&& forall|b: int| data@.len() <= b < r->Ok_0@.len() ==> #[trigger] r->Ok_0@[b] == 0
        },
        n_chunks == 1 && data_len > data@.len() ==> r->Ok_0@ == data@,
        n_chunks > 1 && data_len > data@.len() ==> r->Ok_0@.len() == (if data_len < k
            * chunks@[0]@.len() {
            data_len as int
        } else {
            k * chunks@[0]@.len()
        }),
{
    let n = n_chunks as int;
    lemma_are_some(n_chunks, data, num_threads, chunks, items);
    assert(are_enough(n, chunk_bytes(items), data@));
    assert(outcome(r) == Ok::<Seq<u8>, Error>(at_most(padded(n, data@), data_len as int)));
    lemma_given_back(n, data@, data_len as int);
    if n > 1 {
        assert(k == threshold(n));
        lemma_coded_chunks(n, data@);
        assert(bytes_of(chunks@)[0] == chunks@[0]@);
    }
}

/// The padded data, cut off.
proof fn lemma_given_back(n: int, data: Seq<u8>, data_len: int)
    requires
        1 <= n <= 16384,
        data.len() > 0,
        0 <= data_len,
    ensures
        data_len <= data.len() ==> at_most(padded(n, data), data_len) == data.take(data_len),
        data_len == data.len() ==> at_most(padded(n, data), data_len) == data,
        data.len() <= padded(n, data).len(),
        forall|b: int| 0 <= b < data.len() ==> #[trigger] padded(n, data)[b] == data[b],
        forall|b: int|
            data.len() <= b < padded(n, data).len() ==> #[trigger] padded(n, data)[b] == 0,
        n > 1 ==> padded(n, data).len() == threshold(n) * shard_len(
            threshold(n),
            data.len() as int,
        ),
{
    let whole = padded(n, data);
    lemma_padded(n, data, data_len);
    if n > 1 {
        lemma_concat_original_shards(threshold(n), data);
    }
    assert forall|b: int| 0 <= b < data.len() implies #[trigger] whole[b] == data[b] by {
        assert(at_most(whole, data.len() as int)[b] == data[b]);
    }
    if data_len <= data.len() {
        assert(at_most(whole, data_len) =~= data.take(data_len));
    }
}

/// Fewer chunks than a third give nothing back.
pub proof fn lemma_too_few_chunks_give_nothing<I: Iterator<Item = (ChunkIndex, Vec<u8>)>>(
    n_chunks: u16,
    data: &[u8],
    num_threads: Option<usize>,
    chunks: Vec<Vec<u8>>,
    given: I,
    items: Seq<(ChunkIndex, Vec<u8>)>,
    data_len: usize,
    r: Result<Vec<u8>, Error>,
)
    requires
        call_ensures(construct_chunks, (n_chunks, data, num_threads), Ok(chunks)),
        call_ensures(reconstruct::<I>, (n_chunks, given, data_len), r),
        items == given.remaining(),
        3 * items.len() < n_chunks,
        forall|t: int, u: int|
            0 <= t < u < items.len() ==> (#[trigger] items[t]).0.0 != (#[trigger] items[u]).0.0,
        forall|t: int|
            0 <= t < items.len() ==> (#[trigger] items[t]).0.0 < n_chunks && items[t].1@
                == chunks@[items[t].0.0 as int]@,
    ensures
        r == Err::<Vec<u8>, Error>(Error::NotEnoughChunks),
{
    lemma_are_some(n_chunks, data, num_threads, chunks, items);
    lemma_too_few_coded(n_chunks as int, chunk_bytes(items), data@, data_len as int);
}

/// A number of chunks that is not one of 1 to 16384 is refused.
pub proof fn lemma_reconstruct_chunk_count<I: Iterator<Item = (ChunkIndex, Vec<u8>)>>(
    n_chunks: u16,
    given: I,
    data_len: usize,
    r: Result<Vec<u8>, Error>,
)
    requires
        call_ensures(reconstruct::<I>, (n_chunks, given, data_len), r),
    ensures
        n_chunks == 0 ==> r == Err::<Vec<u8>, Error>(Error::NotEnoughTotalChunks),
        n_chunks > 16384 ==> r == Err::<Vec<u8>, Error>(Error::TooManyTotalChunks),
{
}

/// One chunk alone is the data, cut off where asked for.
pub proof fn lemma_reconstruct_one_chunk<I: Iterator<Item = (ChunkIndex, Vec<u8>)>>(
    given: I,
    items: Seq<(ChunkIndex, Vec<u8>)>,
    data_len: usize,
    r: Result<Vec<u8>, Error>,
)
    requires
        call_ensures(reconstruct::<I>, (1u16, given, data_len), r),
        items == given.remaining(),
    ensures
        items.len() == 0 ==> r == Err::<Vec<u8>, Error>(Error::NotEnoughChunks),
        items.len() > 0 ==> r is Ok,
        items.len() > 0 && data_len >= items[0].1@.len() ==> r->Ok_0@ == items[0].1@,
        items.len() > 0 && data_len < items[0].1@.len() ==> r->Ok_0@ == items[0].1@.take(
            data_len as int,
        ),
{
    if items.len() > 0 {
        assert(chunk_bytes(items)[0].1 == items[0].1@);
    }
}

/// The first recovery chunk comes first in the recovery part.
proof fn lemma_first_recovery(chunks: Seq<(int, Seq<u8>)>, k: int, f: int)
    requires
        0 <= f < chunks.len(),
        chunks[f].0 >= k,
        forall|t: int| 0 <= t < f ==> (#[trigger] chunks[t]).0 < k,
    ensures
        recovery_part(chunks, k).len() > 0,
        recovery_part(chunks, k)[0] == (chunks[f].0 - k, chunks[f].1),
    decreases chunks.len(),
{
    let rest = chunks.drop_last();
    if f < rest.len() {
        assert(rest[f] == chunks[f]);
        assert forall|t: int| 0 <= t < f implies (#[trigger] rest[t]).0 < k by {
            assert(rest[t] == chunks[t]);
        }
        lemma_first_recovery(rest, k, f);
    } else {
        assert forall|t: int| 0 <= t < rest.len() implies (#[trigger] rest[t]).0 < k by {
            assert(rest[t] == chunks[t]);
        }
        lemma_no_recovery(rest, k);
    }
}

/// Without recovery chunks the recovery part is empty.
proof fn lemma_no_recovery(chunks: Seq<(int, Seq<u8>)>, k: int)
    requires
        forall|t: int| 0 <= t < chunks.len() ==> (#[trigger] chunks[t]).0 < k,
    ensures
        recovery_part(chunks, k).len() == 0,
    decreases chunks.len(),
{
    if chunks.len() > 0 {
        let rest = chunks.drop_last();
        assert forall|t: int| 0 <= t < rest.len() implies (#[trigger] rest[t]).0 < k by {
            assert(rest[t] == chunks[t]);
        }
        assert(chunks[chunks.len() - 1].0 < k);
        lemma_no_recovery(rest, k);
    }
}

/// What kind of fault the codec finds.
proof fn lemma_fault_kind(
    shards: Seq<(int, Seq<u8>)>,
    count: int,
    shard_bytes: int,
    invalid: CodecError,
    duplicate: CodecError,
)
    ensures
        (forall|t: int| 0 <= t < shards.len() ==> (#[trigger] shards[t]).1.len() == shard_bytes)
            ==> (shard_fault(shards, count, shard_bytes, invalid, duplicate) matches Some(e) ==> e
            == invalid || e == duplicate),
        distinct(shards) && (forall|t: int|
            0 <= t < shards.len() ==> (#[trigger] shards[t]).0 < count) ==> (shard_fault(
            shards,
            count,
            shard_bytes,
            invalid,
            duplicate,
        ) matches Some(e) ==> e == CodecError::DifferentShardSize),
    decreases shards.len(),
{
    if shards.len() > 0 {
        let rest = shards.drop_last();
        lemma_fault_kind(rest, count, shard_bytes, invalid, duplicate);
        assert(forall|t: int| 0 <= t < rest.len() ==> #[trigger] rest[t] == shards[t]);
        let n = shards.len() - 1;
        assert(shards[n] == shards.last());
        if distinct(shards) && has_index(rest, shards.last().0) {
            let t = choose|t: int| 0 <= t < rest.len() && (#[trigger] rest[t]).0 == shards.last().0;
            assert(shards[t].0 == shards[n].0);
        }
    }
}

/// The parts have the lengths that the chunks have.
proof fn lemma_part_lengths(chunks: Seq<(int, Seq<u8>)>, k: int, n: int, len: int)
    requires
        natural(chunks),
        0 <= k <= n,
    ensures
        (forall|t: int| 0 <= t < chunks.len() ==> (#[trigger] chunks[t]).1.len() == len) <==> {
            &&& forall|t: int|
                0 <= t < original_part(chunks, k).len() ==> (#[trigger] original_part(
                    chunks,
                    k,
                )[t]).1.len() == len
            &&& forall|t: int|
                0 <= t < recovery_part(chunks, k).len() ==> (#[trigger] recovery_part(
                    chunks,
                    k,
                )[t]).1.len() == len
        },
        (forall|t: int| 0 <= t < chunks.len() ==> (#[trigger] chunks[t]).0 < n) <==> forall|t: int|
            0 <= t < recovery_part(chunks, k).len() ==> (#[trigger] recovery_part(chunks, k)[t]).0
                < n - k,
{
    let op = original_part(chunks, k);
    let rp = recovery_part(chunks, k);
    lemma_parts(chunks, k);
    lemma_recovery_items(chunks, k);
    if forall|t: int| 0 <= t < chunks.len() ==> (#[trigger] chunks[t]).1.len() == len {
        assert forall|t: int| 0 <= t < op.len() implies (#[trigger] op[t]).1.len() == len by {
            assert(chunks.contains(op[t]));
        }
        assert forall|t: int| 0 <= t < rp.len() implies (#[trigger] rp[t]).1.len() == len by {
            assert(chunks.contains((rp[t].0 + k, rp[t].1)));
        }
    }
    if (forall|t: int| 0 <= t < op.len() ==> (#[trigger] op[t]).1.len() == len) && (forall|t: int|
        0 <= t < rp.len() ==> (#[trigger] rp[t]).1.len() == len) {
        assert forall|t: int| 0 <= t < chunks.len() implies (#[trigger] chunks[t]).1.len()
            == len by {
            if chunks[t].0 < k {
                assert(op.contains(chunks[t]));
            } else {
                assert(rp.contains((chunks[t].0 - k, chunks[t].1)));
            }
        }
    }
    if forall|t: int| 0 <= t < chunks.len() ==> (#[trigger] chunks[t]).0 < n {
        assert forall|t: int| 0 <= t < rp.len() implies (#[trigger] rp[t]).0 < n - k by {
            assert(chunks.contains((rp[t].0 + k, rp[t].1)));
        }
    }
    if forall|t: int| 0 <= t < rp.len() ==> (#[trigger] rp[t]).0 < n - k {
        assert forall|t: int| 0 <= t < chunks.len() implies (#[trigger] chunks[t]).0 < n by {
            if chunks[t].0 >= k {
                let c = (chunks[t].0 - k, chunks[t].1);
                assert(rp.contains(c));
                let u = choose|u: int| 0 <= u < rp.len() && rp[u] == c;
                assert(rp[u].0 < n - k);
            }
        }
    }
}

/// Each chunk from `k` on stands in the recovery part with its bytes.
proof fn lemma_recovery_items(chunks: Seq<(int, Seq<u8>)>, k: int)
    ensures
        forall|t: int|
            0 <= t < chunks.len() && (#[trigger] chunks[t]).0 >= k ==> recovery_part(
                chunks,
                k,
            ).contains((chunks[t].0 - k, chunks[t].1)),
    decreases chunks.len(),
{
    if chunks.len() > 0 {
        let rest = chunks.drop_last();
        lemma_recovery_items(rest, k);
        let part = recovery_part(chunks, k);
        let earlier = recovery_part(rest, k);
        assert forall|t: int| 0 <= t < chunks.len() && (#[trigger] chunks[t]).0 >= k implies
            part.contains((chunks[t].0 - k, chunks[t].1)) by {
            let c = (chunks[t].0 - k, chunks[t].1);
            if t < rest.len() {
                assert(rest[t] == chunks[t]);
                let i = choose|i: int| 0 <= i < earlier.len() && earlier[i] == c;
                assert(part[i] == c);
            } else {
                assert(part[earlier.len() as int] == c);
            }
        }
    }
}

/// The codec takes chunks without a recovery chunk if each that holds data is there, and
/// else such as have one length that it takes.
proof fn lemma_accepts(n: int, chunks: Seq<(int, Seq<u8>)>, data_len: int)
    requires
        2 <= n <= 16384,
        natural(chunks),
    ensures
        reconstructed(n, chunks, data_len) is Ok <==> {
            &&& chunks.len() >= threshold(n)
            &&& distinct(chunks)
            &&& forall|t: int| 0 <= t < chunks.len() ==> (#[trigger] chunks[t]).0 < n
            &&& (forall|t: int| 0 <= t < chunks.len() ==> (#[trigger] chunks[t]).0 < threshold(n))
                || (chunks[0].1.len() > 0 && chunks[0].1.len() % 64 == 0 && forall|t: int|
                0 <= t < chunks.len() ==> (#[trigger] chunks[t]).1.len() == chunks[0].1.len())
        },
{
    let k = threshold(n);
    let op = original_part(chunks, k);
    let rp = recovery_part(chunks, k);
    lemma_parts(chunks, k);
    lemma_original_part_ascends(chunks, k);
    if chunks.len() >= k {
        if forall|t: int| 0 <= t < chunks.len() ==> (#[trigger] chunks[t]).0 < k {
            lemma_no_recovery(chunks, k);
            if distinct(chunks) {
                assert forall|t: int, u: int| 0 <= t < u < op.len() implies (#[trigger] op[t]).0 < (
                #[trigger] op[u]).0 by {
                    assert(op[t].0 != op[u].0);
                }
                lemma_strictly_ascending(op, k);
            } else {
                lemma_repeated_index(n, chunks, data_len);
            }
        } else {
            let t = choose|t: int| 0 <= t < chunks.len() && !((#[trigger] chunks[t]).0 < k);
            lemma_recovery_items(chunks, k);
            assert(rp.contains((chunks[t].0 - k, chunks[t].1)));
            let len = rp[0].1.len() as int;
            assert(chunks.contains((rp[0].0 + k, rp[0].1)));
            lemma_part_lengths(chunks, k, n, len);
            lemma_shard_fault(
                op,
                k,
                len,
                CodecError::InvalidOriginalShardIndex,
                CodecError::DuplicateOriginalShardIndex,
            );
            lemma_shard_fault(
                rp,
                n - k,
                len,
                CodecError::InvalidRecoveryShardIndex,
                CodecError::DuplicateRecoveryShardIndex,
            );
            if !distinct(chunks) {
                lemma_repeated_index(n, chunks, data_len);
            }
            if forall|u: int|
                0 <= u < chunks.len() ==> (#[trigger] chunks[u]).1.len() == chunks[0].1.len() {
                let u = choose|u: int|
                    0 <= u < chunks.len() && chunks[u] == (rp[0].0 + k, rp[0].1);
                assert(chunks[u].1.len() == chunks[0].1.len());
            }
        }
    } else {
        lemma_too_few(n, chunks, data_len);
    }
}

/// Data is put together just when there are at least `k` chunks, a third of all, no two
/// with one index and none with an index that is too large, and these are either `k` that
/// hold data or all of one length, a positive multiple of 64.
pub proof fn lemma_reconstruct_accepts<I: Iterator<Item = (ChunkIndex, Vec<u8>)>>(
    n_chunks: u16,
    given: I,
    items: Seq<(ChunkIndex, Vec<u8>)>,
    data_len: usize,
    r: Result<Vec<u8>, Error>,
    k: int,
)
    requires
        2 <= n_chunks <= 16384,
        call_ensures(reconstruct::<I>, (n_chunks, given, data_len), r),
        items == given.remaining(),
        n_chunks <= 3 * k < n_chunks + 3,
    ensures
        r is Ok <==> {
            &&& items.len() >= k
            &&& forall|t: int, u: int|
                0 <= t < u < items.len() ==> (#[trigger] items[t]).0.0 != (#[trigger] items[u]).0.0
            &&& forall|t: int| 0 <= t < items.len() ==> (#[trigger] items[t]).0.0 < n_chunks
            &&& (forall|t: int| 0 <= t < items.len() ==> (#[trigger] items[t]).0.0 < k) || (
            items[0].1@.len() > 0 && items[0].1@.len() % 64 == 0 && forall|t: int|
                0 <= t < items.len() ==> (#[trigger] items[t]).1@.len() == items[0].1@.len())
        },
{
    let all = chunk_bytes(items);
    assert(k == threshold(n_chunks as int));
    lemma_accepts(n_chunks as int, all, data_len as int);
    lemma_items(items);
    assert(outcome(r) is Ok == r is Ok);
    if items.len() > 0 {
        assert(all[0].1 == items[0].1@);
    }
}

/// The items and their bytes.
proof fn lemma_items(items: Seq<(ChunkIndex, Vec<u8>)>)
    ensures
        chunk_bytes(items).len() == items.len(),
        forall|t: int|
            0 <= t < items.len() ==> #[trigger] chunk_bytes(items)[t] == (
                items[t].0.0 as int,
                items[t].1@,
            ),
        forall|t: int|
            0 <= t < items.len() ==> chunk_bytes(items)[t] == (
                (#[trigger] items[t]).0.0 as int,
                items[t].1@,
            ),
        natural(chunk_bytes(items)),
{
}

/// Why chunks are refused. Where all hold data, too few are there. Else the length of the
/// first other one decides: it may be one that the codec does not take, or not that of
/// all. If all have it, an index may be repeated or too large, or there are too few.
pub proof fn lemma_reconstruct_refuses<I: Iterator<Item = (ChunkIndex, Vec<u8>)>>(
    n_chunks: u16,
    given: I,
    items: Seq<(ChunkIndex, Vec<u8>)>,
    data_len: usize,
    r: Result<Vec<u8>, Error>,
    k: int,
    first: int,
)
    requires
        2 <= n_chunks <= 16384,
        call_ensures(reconstruct::<I>, (n_chunks, given, data_len), r),
        items == given.remaining(),
        n_chunks <= 3 * k < n_chunks + 3,
        0 <= first <= items.len(),
        forall|t: int| 0 <= t < first ==> (#[trigger] items[t]).0.0 < k,
        first < items.len() ==> items[first].0.0 >= k,
    ensures
        first == items.len() && r is Err ==> r == Err::<Vec<u8>, Error>(Error::NotEnoughChunks),
        first < items.len() ==> ({
            let len = items[first].1@.len();
            let uniform = forall|t: int|
                0 <= t < items.len() ==> (#[trigger] items[t]).1@.len() == len;
            let distinct = forall|t: int, u: int|
                0 <= t < u < items.len() ==> (#[trigger] items[t]).0.0 != (#[trigger] items[u]).0.0;
            let in_range = forall|t: int|
                0 <= t < items.len() ==> (#[trigger] items[t]).0.0 < n_chunks;
            &&& len == 0 || len % 64 != 0 ==> r == Err::<Vec<u8>, Error>(Error::UnalignedChunk)
            &&& len > 0 && len % 64 == 0 && !uniform && distinct && in_range ==> r == Err::<
                Vec<u8>,
                Error,
            >(Error::NonUniformChunks)
            &&& len > 0 && len % 64 == 0 && uniform && !(distinct && in_range) ==> r == Err::<
                Vec<u8>,
                Error,
            >(Error::Unknown)
            &&& len > 0 && len % 64 == 0 && !uniform && !(distinct && in_range) ==> r == Err::<
                Vec<u8>,
                Error,
            >(Error::Unknown) || r == Err::<Vec<u8>, Error>(Error::NonUniformChunks)
            &&& len > 0 && len % 64 == 0 && uniform && distinct && in_range && items.len() < k
                ==> r == Err::<Vec<u8>, Error>(Error::NotEnoughChunks)
        }),
{
    let n = n_chunks as int;
    let all = chunk_bytes(items);
    lemma_items(items);
    assert(k == threshold(n));
    let op = original_part(all, k);
    let rp = recovery_part(all, k);
    if first == items.len() {
        lemma_no_recovery(all, k);
    } else {
        let len = items[first].1@.len() as int;
        lemma_first_recovery(all, k, first);
        lemma_parts(all, k);
        lemma_original_part_ascends(all, k);
        lemma_part_lengths(all, k, n, len);
        lemma_fault_of_parts(n, all, len);
    }
}

/// The fault that the codec finds with chunks of which one is a recovery chunk.
proof fn lemma_fault_of_parts(n: int, chunks: Seq<(int, Seq<u8>)>, len: int)
    requires
        2 <= n <= 16384,
        natural(chunks),
        recovery_part(chunks, threshold(n)).len() > 0,
        len == recovery_part(chunks, threshold(n))[0].1.len(),
    ensures
        ({
            let k = threshold(n);
            let fault = decode_fault(
                k,
                n - k,
                original_part(chunks, k),
                recovery_part(chunks, k),
            );
            let uniform = forall|t: int|
                0 <= t < chunks.len() ==> (#[trigger] chunks[t]).1.len() == len;
            let in_range = forall|t: int| 0 <= t < chunks.len() ==> (#[trigger] chunks[t]).0 < n;
            &&& len == 0 || len % 64 != 0 ==> fault == Some(CodecError::InvalidShardSize)
            &&& len > 0 && len % 64 == 0 && !(uniform && distinct(chunks) && in_range) ==> {
                &&& fault is Some
                &&& reported(fault->0) == Error::Unknown || reported(fault->0)
                    == Error::NonUniformChunks
                &&& uniform ==> reported(fault->0) == Error::Unknown
                &&& distinct(chunks) && in_range ==> reported(fault->0) == Error::NonUniformChunks
            }
            &&& len > 0 && len % 64 == 0 && uniform && distinct(chunks) && in_range
                && chunks.len() < k ==> fault == Some(CodecError::NotEnoughShards)
        }),
{
    let k = threshold(n);
    let op = original_part(chunks, k);
    let rp = recovery_part(chunks, k);
    let io = CodecError::InvalidOriginalShardIndex;
    let doo = CodecError::DuplicateOriginalShardIndex;
    let ir = CodecError::InvalidRecoveryShardIndex;
    let dr = CodecError::DuplicateRecoveryShardIndex;
    lemma_parts(chunks, k);
    lemma_original_part_ascends(chunks, k);
    lemma_part_lengths(chunks, k, n, len);
    lemma_shard_fault(op, k, len, io, doo);
    lemma_shard_fault(rp, n - k, len, ir, dr);
    lemma_fault_kind(op, k, len, io, doo);
    lemma_fault_kind(rp, n - k, len, ir, dr);
    lemma_fault_errors(op, k, len, io, doo);
    lemma_fault_errors(rp, n - k, len, ir, dr);
    if distinct(op) && distinct(rp) {
        lemma_distinct_parts(chunks, k);
    }
}

/// The codec finds no other faults than these.
proof fn lemma_fault_errors(
    shards: Seq<(int, Seq<u8>)>,
    count: int,
    shard_bytes: int,
    invalid: CodecError,
    duplicate: CodecError,
)
    ensures
        shard_fault(shards, count, shard_bytes, invalid, duplicate) matches Some(e) ==> e == invalid
            || e == duplicate || e == CodecError::DifferentShardSize,
    decreases shards.len(),
{
    if shards.len() > 0 {
        lemma_fault_errors(shards.drop_last(), count, shard_bytes, invalid, duplicate);
    }
}

/// Shards of one length one after the other.
proof fn lemma_concat_uniform(shards: Seq<Seq<u8>>, len: int)
    requires
        0 <= len,
        forall|i: int| 0 <= i < shards.len() ==> (#[trigger] shards[i]).len() == len,
    ensures
        concat(shards).len() == shards.len() * len,
        forall|i: int, b: int|
            0 <= i < shards.len() && 0 <= b < len ==> concat(shards)[i * len + b]
                == #[trigger] shards[i][b],
    decreases shards.len(),
{
    if shards.len() == 0 {
        assert(shards.len() * len == 0);
    } else {
        let last = shards.len() - 1;
        let rest = shards.drop_last();
        assert forall|i: int| 0 <= i < rest.len() implies (#[trigger] rest[i]).len() == len by {
            assert(rest[i] == shards[i]);
        }
        lemma_concat_uniform(rest, len);
        assert((last + 1) * len == last * len + len) by (nonlinear_arith);
        assert forall|i: int, b: int| 0 <= i < shards.len() && 0 <= b < len implies concat(
            shards,
        )[i * len + b] == #[trigger] shards[i][b] by {
            assert(0 <= i * len) by (nonlinear_arith)
                requires
                    0 <= i,
                    0 <= len,
            ;
            if i < last {
                assert(i * len + len <= last * len) by (nonlinear_arith)
                    requires
                        i + 1 <= last,
                        0 <= len,
                ;
                assert(rest[i][b] == shards[i][b]);
            }
        }
    }
}

/// The shards one after the other, as `Seq` has it.
pub proof fn lemma_concat_is_flatten(shards: Seq<Seq<u8>>)
    ensures
        concat(shards) == shards.flatten(),
{
    shards.lemma_flatten_and_flatten_alt_are_equivalent();
    lemma_concat_is_flatten_alt(shards);
}

/// The shards one after the other, joined from the end.
proof fn lemma_concat_is_flatten_alt(shards: Seq<Seq<u8>>)
    ensures
        concat(shards) == shards.flatten_alt(),
    decreases shards.len(),
{
    if shards.len() > 0 {
        lemma_concat_is_flatten_alt(shards.drop_last());
    }
}

/// What stands in chunks that hold data is taken over from them as it is, each at the
/// place that its index says.
pub proof fn lemma_given_data_is_kept<I: Iterator<Item = (ChunkIndex, Vec<u8>)>>(
    n_chunks: u16,
    given: I,
    items: Seq<(ChunkIndex, Vec<u8>)>,
    data_len: usize,
    bytes: Vec<u8>,
    k: int,
    len: int,
)
    requires
        2 <= n_chunks <= 16384,
        call_ensures(reconstruct::<I>, (n_chunks, given, data_len), Ok(bytes)),
        items == given.remaining(),
        n_chunks <= 3 * k < n_chunks + 3,
        forall|t: int| 0 <= t < items.len() ==> (#[trigger] items[t]).1@.len() == len,
    ensures
        bytes@.len() == if data_len < k * len {
            data_len as int
        } else {
            k * len
        },
        forall|t: int, b: int|
            0 <= t < items.len() && items[t].0.0 < k && 0 <= b < len && items[t].0.0 * len + b
                < data_len ==> bytes@[items[t].0.0 * len + b] == #[trigger] items[t].1@[b],
{
    let n = n_chunks as int;
    let all = chunk_bytes(items);
    lemma_items(items);
    assert(k == threshold(n));
    lemma_accepts(n, all, data_len as int);
    let op = original_part(all, k);
    let rp = recovery_part(all, k);
    let shards = all_original(k, n - k, op, rp);
    lemma_parts(all, k);
    lemma_original_part_ascends(all, k);
    assert(all[0].1.len() == len);
    lemma_part_lengths(all, k, n, len);
    assert(outcome(Ok::<Vec<u8>, Error>(bytes)) == reconstructed(n, all, data_len as int));
    assert(bytes@ == at_most(concat(shards), data_len as int));
    lemma_kept_shards(n, all, len);
    lemma_concat_uniform(shards, len);
    assert forall|t: int, b: int|
        0 <= t < items.len() && items[t].0.0 < k && 0 <= b < len && items[t].0.0 * len + b
            < data_len implies bytes@[items[t].0.0 * len + b] == #[trigger] items[t].1@[b] by {
        assert(all[t] == (items[t].0.0 as int, items[t].1@));
        let i = items[t].0.0 as int;
        assert(shards[i] == all[t].1);
        assert(shards[i][b] == items[t].1@[b]);
    }
}

/// The original shards, where chunks are taken.
proof fn lemma_kept_shards(n: int, chunks: Seq<(int, Seq<u8>)>, len: int)
    requires
        2 <= n <= 16384,
        natural(chunks),
        chunks.len() >= threshold(n),
        distinct(chunks),
        recovery_part(chunks, threshold(n)).len() == 0 ==> is_each(
            original_part(chunks, threshold(n)),
        ) && original_part(chunks, threshold(n)).len() == threshold(n),
        forall|t: int| 0 <= t < chunks.len() ==> (#[trigger] chunks[t]).1.len() == len,
    ensures
        ({
            let k = threshold(n);
            let shards = all_original(k, n - k, original_part(chunks, k), recovery_part(chunks, k));
            &&& shards.len() == k
            &&& forall|i: int| 0 <= i < k ==> (#[trigger] shards[i]).len() == len
            &&& forall|t: int|
                0 <= t < chunks.len() && (#[trigger] chunks[t]).0 < k ==> shards[chunks[t].0]
                    == chunks[t].1
        }),
{
    let k = threshold(n);
    let op = original_part(chunks, k);
    let rp = recovery_part(chunks, k);
    let shards = all_original(k, n - k, op, rp);
    lemma_parts(chunks, k);
    lemma_original_part_ascends(chunks, k);
    lemma_part_lengths(chunks, k, n, len);
    assert forall|i: int| 0 <= i < k implies (#[trigger] shards[i]).len() == len by {
        if rp.len() == 0 {
            assert(op[i].1.len() == len);
        } else if has_index(op, i) {
            let t = choose|t: int| 0 <= t < op.len() && (#[trigger] op[t]).0 == i;
            assert(op[t].1.len() == len);
            assert(by_index(op)[i] == op[t].1);
        } else {
            assert(rp[0].1.len() == len);
        }
    }
    assert forall|t: int| 0 <= t < chunks.len() && (#[trigger] chunks[t]).0 < k implies shards[
        chunks[t].0] == chunks[t].1 by {
        assert(op.contains(chunks[t]));
        let u = choose|u: int| 0 <= u < op.len() && op[u] == chunks[t];
        assert(op[u].0 == chunks[t].0);
        assert(has_index(op, chunks[t].0));
        if rp.len() > 0 {
            let v = choose|v: int| 0 <= v < op.len() && (#[trigger] op[v]).0 == chunks[t].0;
            assert(v == u);
        }
    }
}

/// Where all chunks hold data, they come out one after the other by their indexes,
/// whatever their lengths are.
pub proof fn lemma_data_alone_is_joined<I: Iterator<Item = (ChunkIndex, Vec<u8>)>>(
    n_chunks: u16,
    given: I,
    items: Seq<(ChunkIndex, Vec<u8>)>,
    data_len: usize,
    bytes: Vec<u8>,
    k: int,
    by_index: Seq<Seq<u8>>,
)
    requires
        2 <= n_chunks <= 16384,
        call_ensures(reconstruct::<I>, (n_chunks, given, data_len), Ok(bytes)),
        items == given.remaining(),
        n_chunks <= 3 * k < n_chunks + 3,
        by_index.len() == k,
        forall|t: int|
            0 <= t < items.len() ==> (#[trigger] items[t]).0.0 < k && items[t].1@
                == by_index[items[t].0.0 as int],
    ensures
        data_len >= by_index.flatten().len() ==> bytes@ == by_index.flatten(),
        data_len < by_index.flatten().len() ==> bytes@ == by_index.flatten().take(data_len as int),
{
    let n = n_chunks as int;
    let all = chunk_bytes(items);
    lemma_items(items);
    assert(k == threshold(n));
    lemma_accepts(n, all, data_len as int);
    let op = original_part(all, k);
    lemma_no_recovery(all, k);
    lemma_parts(all, k);
    let shards = all_original(k, n - k, op, recovery_part(all, k));
    assert forall|i: int| 0 <= i < k implies shards[i] == by_index[i] by {
        assert(all.contains(op[i]));
        let t = choose|t: int| 0 <= t < all.len() && all[t] == op[i];
        assert(items[t].1@ == by_index[items[t].0.0 as int]);
    }
    assert(shards =~= by_index);
    lemma_concat_is_flatten(shards);
}

/// Point `p` of a chunk that holds data and is missing is what the codec restores from
/// the points `p` of the chunks that are there. `place` says where each chunk stands among
/// those given.
pub proof fn lemma_missing_data_is_restored<I: Iterator<Item = (ChunkIndex, Vec<u8>)>>(
    n_chunks: u16,
    given: I,
    items: Seq<(ChunkIndex, Vec<u8>)>,
    data_len: usize,
    bytes: Vec<u8>,
    k: int,
    len: int,
    place: Map<int, int>,
    i: int,
    p: int,
)
    requires
        2 <= n_chunks <= 16384,
        call_ensures(reconstruct::<I>, (n_chunks, given, data_len), Ok(bytes)),
        items == given.remaining(),
        n_chunks <= 3 * k < n_chunks + 3,
        forall|t: int|
            0 <= t < items.len() ==> (#[trigger] items[t]).1@.len() == len && place.contains_key(
                items[t].0.0 as int,
            ) && place[items[t].0.0 as int] == t,
        forall|c: int| #[trigger]
            place.contains_key(c) ==> 0 <= place[c] < items.len() && items[place[c]].0.0 == c,
        0 <= i < k,
        !place.contains_key(i),
        0 <= p < len / 2,
        data_len >= k * len,
    ensures
        ({
            let at = (p / 32) * 64 + p % 32;
            let original = Map::new(
                |c: int| place.contains_key(c) && c < k,
                |c: int| (items[place[c]].1@[at], items[place[c]].1@[at + 32]),
            );
            let recovery = Map::new(
                |j: int| place.contains_key(j + k) && j >= 0,
                |j: int| (items[place[j + k]].1@[at], items[place[j + k]].1@[at + 32]),
            );
            restored(k, n_chunks - k, original, recovery)[i] == (
                bytes@[i * len + at],
                bytes@[i * len + at + 32],
            )
        }),
{
    let n = n_chunks as int;
    let all = chunk_bytes(items);
    let at = (p / 32) * 64 + p % 32;
    lemma_items(items);
    assert(k == threshold(n));
    lemma_accepts(n, all, data_len as int);
    let op = original_part(all, k);
    let rp = recovery_part(all, k);
    let shards = all_original(k, n - k, op, rp);
    lemma_parts(all, k);
    lemma_original_part_ascends(all, k);
    lemma_part_lengths(all, k, n, len);
    lemma_recovery_items(all, k);
    lemma_kept_shards(n, all, len);
    lemma_concat_uniform(shards, len);
    assert(outcome(Ok::<Vec<u8>, Error>(bytes)) == reconstructed(n, all, data_len as int));
    assert(bytes@ == concat(shards));
    assert forall|c: int| #[trigger] has_index(op, c) == (place.contains_key(c) && c < k) by {
        if has_index(op, c) {
            let t = choose|t: int| 0 <= t < op.len() && (#[trigger] op[t]).0 == c;
            assert(all.contains(op[t]));
            let u = choose|u: int| 0 <= u < all.len() && all[u] == op[t];
            assert(items[u].0.0 == c);
        }
        if place.contains_key(c) && c < k {
            let u = place[c];
            assert(items[u].0.0 == c);
            assert(all[u].0 == c);
            assert(op.contains(all[u]));
            let t = choose|t: int| 0 <= t < op.len() && op[t] == all[u];
            assert(op[t].0 == c);
        }
    }
    assert forall|j: int| #[trigger] has_index(rp, j) == (place.contains_key(j + k) && j >= 0) by {
        if has_index(rp, j) {
            let t = choose|t: int| 0 <= t < rp.len() && (#[trigger] rp[t]).0 == j;
            assert(all.contains((rp[t].0 + k, rp[t].1)));
            let u = choose|u: int| 0 <= u < all.len() && all[u] == (rp[t].0 + k, rp[t].1);
            assert(items[u].0.0 == j + k);
        }
        if place.contains_key(j + k) && j >= 0 {
            let u = place[j + k];
            assert(items[u].0.0 == j + k);
            assert(all[u].0 == j + k);
            assert(rp.contains((all[u].0 - k, all[u].1)));
            let t = choose|t: int| 0 <= t < rp.len() && rp[t] == (all[u].0 - k, all[u].1);
            assert(rp[t].0 == j);
        }
    }
    let original = Map::new(
        |c: int| place.contains_key(c) && c < k,
        |c: int| (items[place[c]].1@[at], items[place[c]].1@[at + 32]),
    );
    let recovery = Map::new(
        |j: int| place.contains_key(j + k) && j >= 0,
        |j: int| (items[place[j + k]].1@[at], items[place[j + k]].1@[at + 32]),
    );
    assert(!has_index(op, i));
    assert(rp.len() > 0) by {
        if rp.len() == 0 {
            assert(op[i].0 == i);
            assert(has_index(op, i));
        }
    }
    assert(original =~= column_of(by_index(op), p)) by {
        assert forall|c: int| has_index(op, c) implies by_index(op)[c] == items[place[c]].1@ by {
            let t = choose|t: int| 0 <= t < op.len() && (#[trigger] op[t]).0 == c;
            assert(all.contains(op[t]));
            let u = choose|u: int| 0 <= u < all.len() && all[u] == op[t];
            assert(items[u].0.0 == c);
            assert(place[c] == u);
        }
    }
    assert(recovery =~= column_of(by_index(rp), p)) by {
        assert forall|j: int| has_index(rp, j) implies by_index(rp)[j] == items[place[j
            + k]].1@ by {
            let t = choose|t: int| 0 <= t < rp.len() && (#[trigger] rp[t]).0 == j;
            assert(all.contains((rp[t].0 + k, rp[t].1)));
            let u = choose|u: int| 0 <= u < all.len() && all[u] == (rp[t].0 + k, rp[t].1);
            assert(items[u].0.0 == j + k);
            assert(place[j + k] == u);
        }
    }
    assert(rp[0].1.len() == len);
    let points = |q: int|
        restored(k, n - k, column_of(by_index(op), q), column_of(by_index(rp), q))[i];
    assert(shards[i] == shard_of(len as nat, points));
    lemma_point_of_shard_of(len as nat, points, p);
    lemma_low_byte(len, p);
    assert(shards[i][at] == bytes@[i * len + at]);
    assert(shards[i][at + 32] == bytes@[i * len + (at + 32)]);
}

/// Data can be put together from any chunks with which the codec can work in memory.
pub proof fn lemma_reconstruct_takes<I: Iterator<Item = (ChunkIndex, Vec<u8>)>>(
    n_chunks: u16,
    given: I,
    data_len: usize,
)
    requires
        given.obeys_prophetic_iter_laws(),
        given.decrease() is Some,
        forall|t: int|
            0 <= t < given.remaining().len() ==> 4 * n_chunks * (
            #[trigger] given.remaining()[t]).1@.len() <= isize::MAX,
    ensures
        call_requires(reconstruct::<I>, (n_chunks, given, data_len)),
{
    let n = n_chunks as int;
    let all = chunk_bytes(given.remaining());
    let k = threshold(n);
    if 2 <= n <= 16384 && recovery_part(all, k).len() > 0 {
        let c = recovery_part(all, k)[0];
        let len = c.1.len() as int;
        lemma_items(given.remaining());
        lemma_parts(all, k);
        assert(all.contains((c.0 + k, c.1)));
        let t = choose|t: int| 0 <= t < all.len() && all[t] == (c.0 + k, c.1);
        assert(given.remaining()[t].1@ == c.1);
        assert(4 * k * len <= 4 * n * len && 4 * (n - k) * len <= 4 * n * len) by (nonlinear_arith)
            requires
                0 <= k <= n,
                0 <= len,
        ;
    }
}

/// The length asked for only says where the data is cut off.
pub proof fn lemma_reconstruct_cuts_off<I: Iterator<Item = (ChunkIndex, Vec<u8>)>>(
    n_chunks: u16,
    given: I,
    same: I,
    data_len: usize,
    more: usize,
    r: Result<Vec<u8>, Error>,
    longer: Result<Vec<u8>, Error>,
)
    requires
        call_ensures(reconstruct::<I>, (n_chunks, given, data_len), r),
        call_ensures(reconstruct::<I>, (n_chunks, same, more), longer),
        given.remaining() == same.remaining(),
        data_len <= more,
    ensures
        longer is Err ==> r == longer,
        longer matches Ok(bytes) ==> {
            &&& r is Ok
            &&& bytes@.len() <= more
            &&& bytes@.len() <= data_len ==> r->Ok_0@ == bytes@
            &&& data_len < bytes@.len() ==> r->Ok_0@ == bytes@.take(data_len as int)
        },
{
    if longer is Ok && data_len < longer->Ok_0@.len() {
        assert(r->Ok_0@ =~= longer->Ok_0@.take(data_len as int));
    }
}

} // verus!
