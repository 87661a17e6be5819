//! Reconstructing the data from the chunks that hold it.

use vstd::prelude::*;
use vstd::std_specs::iter::IteratorSpec;

use crate::chunks::{
    chunk_count_error, coded_chunks, is_chunk_count, lemma_shard_len, original_shards, shard_len,
    systematic_recovery_threshold, threshold,
};
use crate::error::Error;
use crate::layout::SHARD_ALIGNMENT;
use crate::reconstruct::{at_most, concat, outcome, resized};
use crate::round_trip::lemma_concat_original_shards;

verus! {

/// The bytes of each slice.
pub open spec fn slice_bytes(slices: Seq<&[u8]>) -> Seq<Seq<u8>> {
    Seq::new(slices.len(), |i: int| slices[i]@)
}

/// The first index from `i` on of a chunk that is not `len` bytes long, or the
/// number of chunks if there is none.
pub open spec fn first_other(chunks: Seq<Seq<u8>>, i: int, len: int) -> int
    decreases chunks.len() - i,
{
    if 0 <= i < chunks.len() && chunks[i].len() == len {
        first_other(chunks, i + 1, len)
    } else {
        i
    }
}

/// The chunks that are looked at: at most the first `k`.
pub open spec fn at_most_chunks(chunks: Seq<Seq<u8>>, k: int) -> Seq<Seq<u8>> {
    if k < chunks.len() {
        chunks.take(k)
    } else {
        chunks
    }
}

/// The first chunk that is not empty has a length that no shard has. The length
/// of a chunk on which none follows is not looked at.
pub open spec fn is_unaligned(k: int, used: Seq<Seq<u8>>) -> bool {
    let first = first_other(used, 0, 0);
    first < used.len() && first + 1 != k && used[first].len() % 64 != 0
}

/// Where a chunk differs in length from the first one that is not empty.
pub open spec fn first_odd(used: Seq<Seq<u8>>) -> int {
    let first = first_other(used, 0, 0);
    if first < used.len() {
        first_other(used, first, used[first].len() as int)
    } else {
        first
    }
}

/// What [`reconstruct_from_systematic`] makes of some chunks.
pub open spec fn systematic_outcome(
    n: int,
    systematic_len: int,
    chunks: Seq<Seq<u8>>,
    data_len: int,
) -> Result<Seq<u8>, Error> {
    let k = threshold(n);
    let used = at_most_chunks(chunks, k);
    if !is_chunk_count(n) {
        Err(chunk_count_error(n))
    } else if systematic_len < k {
        Err(Error::NotEnoughChunks)
    } else if is_unaligned(k, used) {
        Err(Error::UnalignedChunk)
    } else if first_odd(used) < used.len() {
        Err(Error::NonUniformChunks)
    } else if used.len() < k {
        Err(Error::NotEnoughChunks)
    } else {
        Ok(resized(concat(used), data_len))
    }
}

/// How many chunks [`reconstruct_from_systematic`] takes out of the iterator.
pub open spec fn systematic_taken(n: int, systematic_len: int, chunks: Seq<Seq<u8>>) -> int {
    let k = threshold(n);
    let used = at_most_chunks(chunks, k);
    if !is_chunk_count(n) || systematic_len < k {
        0
    } else if is_unaligned(k, used) {
        first_other(used, 0, 0) + 1
    } else if first_odd(used) < used.len() {
        first_odd(used) + 1
    } else {
        used.len() as int
    }
}

/// The first index is where the chunks before it have the length and it has not.
pub proof fn lemma_first_other(chunks: Seq<Seq<u8>>, i: int, len: int, j: int)
    requires
        0 <= i <= j <= chunks.len(),
        forall|t: int| i <= t < j ==> (#[trigger] chunks[t]).len() == len,
        j < chunks.len() ==> chunks[j].len() != len,
    ensures
        first_other(chunks, i, len) == j,
    decreases j - i,
{
    if i < j {
        lemma_first_other(chunks, i + 1, len, j);
    }
}

/// One shard more.
proof fn lemma_concat_take(chunks: Seq<Seq<u8>>, i: int)
    requires
        0 <= i < chunks.len(),
    ensures
        concat(chunks.take(i + 1)) == concat(chunks.take(i)) + chunks[i],
{
    assert(chunks.take(i + 1).drop_last() =~= chunks.take(i));
    assert(chunks.take(i + 1).last() == chunks[i]);
}

/// Reconstruct the original data from the set of systematic chunks.
///
/// Provide an iterator over the first k chunks in order, k being the
/// [`systematic_recovery_threshold`], and their number. If too few chunks are
/// provided, by that number or by the iterator, recovery is not possible.
///
/// Due to the internals of the erasure coding algorithm, the output might be
/// larger than the original data and padded with zeroes; passing `data_len`
/// allows to truncate the output to the original data size.
pub fn reconstruct_from_systematic<'a, I>(
    n_chunks: u16,
    systematic_len: usize,
    systematic_chunks: &mut I,
    data_len: usize,
) -> (r: Result<Vec<u8>, Error>) where I: Iterator<Item = &'a [u8]>
    requires
        (*old(systematic_chunks)).obeys_prophetic_iter_laws(),
        (*old(systematic_chunks)).decrease() is Some,
        threshold(n_chunks as int) == 1 && systematic_len > 0 && (*old(
            systematic_chunks,
        )).remaining().len() > 0 ==> data_len <= (*old(systematic_chunks)).remaining()[0]@.len(),
    ensures
        outcome(r) == systematic_outcome(
            n_chunks as int,
            systematic_len as int,
            slice_bytes((*old(systematic_chunks)).remaining()),
            data_len as int,
        ),
        (*final(systematic_chunks)).remaining() == (*old(systematic_chunks)).remaining().skip(
            systematic_taken(
                n_chunks as int,
                systematic_len as int,
                slice_bytes((*old(systematic_chunks)).remaining()),
            ),
        ),
{
    let ghost all = (*systematic_chunks).remaining();
    let ghost chunks = slice_bytes(all);
    assert(all.skip(0) =~= all);
    let k: usize = match systematic_recovery_threshold(n_chunks) {
        Ok(k) => k as usize,
        Err(e) => {
            return Err(e);
        },
    };
    if systematic_len < k {
        return Err(Error::NotEnoughChunks);
    }
    let ghost used = at_most_chunks(chunks, k as int);
    let mut bytes: Vec<u8> = Vec::new();
    let mut shard_len: usize = 0;
    let mut nb: usize = 0;
    let ghost mut first: int = 0;
    assert(used.take(0) =~= Seq::empty());
    loop
        invariant_except_break
            nb < k,
        invariant
            (*systematic_chunks).obeys_prophetic_iter_laws(),
            (*systematic_chunks).decrease() is Some,
            (*systematic_chunks).remaining() == all.skip(nb as int),
            all == (*old(systematic_chunks)).remaining(),
            chunks == slice_bytes(all),
            used == at_most_chunks(chunks, k as int),
            is_chunk_count(n_chunks as int),
            k == threshold(n_chunks as int),
            k <= systematic_len,
            k == 1 && all.len() > 0 ==> data_len <= all[0]@.len(),
            nb <= used.len(),
            0 <= first <= nb,
            forall|t: int| 0 <= t < first ==> (#[trigger] used[t]).len() == 0,
            forall|t: int| first <= t < nb ==> (#[trigger] used[t]).len() == shard_len,
            shard_len == 0 <==> first == nb,
            first < nb ==> first + 1 == k || shard_len % SHARD_ALIGNMENT == 0,
            bytes@ == concat(used.take(nb as int)),
        ensures
            nb == used.len(),
            nb <= k,
        decreases (*systematic_chunks).decrease()->0,
    {
        match systematic_chunks.next() {
            Some(chunk) => {
                assert(chunk@ == chunks[nb as int]);
                assert(chunk@ == used[nb as int]);
                assert((*systematic_chunks).remaining() =~= all.skip(nb + 1));
                nb = nb + 1;
                if shard_len == 0 {
                    shard_len = chunk.len();
                    proof {
                        if shard_len > 0 {
                            lemma_first_other(used, 0, 0, first);
                        } else {
                            first = nb as int;
                        }
                    }
                    if shard_len % SHARD_ALIGNMENT != 0 && nb != k {
                        return Err(Error::UnalignedChunk);
                    }
                    if k == 1 {
                        let data: &[u8] = vstd::slice::slice_subrange(chunk, 0, data_len);
                        let r = vstd::slice::slice_to_vec(data);
                        proof {
                            assert(used.take(1) =~= used);
                            lemma_concat_take(used, 0);
                            assert(concat(used) =~= chunk@);
                            assert(r@ =~= resized(concat(used), data_len as int));
                            lemma_first_other(used, 0, 0, first);
                            if first == 0 {
                                lemma_first_other(used, 0, shard_len as int, 1);
                            }
                        }
                        return Ok(r);
                    }
                }
                if chunk.len() != shard_len {
                    proof {
                        lemma_first_other(used, 0, 0, first);
                        lemma_first_other(used, first, shard_len as int, nb - 1);
                    }
                    return Err(Error::NonUniformChunks);
                }
                let ghost before = bytes@;
                bytes.extend_from_slice(chunk);
                proof {
                    lemma_concat_take(used, nb - 1);
                    assert(bytes@ =~= before + chunk@);
                }
                if nb == k {
                    break;
                }
            },
            None => {
                break;
            },
        }
    }
    proof {
        lemma_first_other(used, 0, 0, first);
        if first < used.len() {
            lemma_first_other(used, first, shard_len as int, used.len() as int);
        }
        assert(used.take(nb as int) =~= used);
    }
    if nb < k {
        return Err(Error::NotEnoughChunks);
    }
    let ghost before = bytes@;
    bytes.resize(data_len, 0);
    assert(bytes@ =~= resized(before, data_len as int));
    Ok(bytes)
}

/// The first k of the chunks into which data was coded give back the data, cut off or
/// padded with zeroes to the length asked for.
pub proof fn lemma_systematic_round_trip(
    n: int,
    systematic_len: int,
    chunks: Seq<Seq<u8>>,
    data: Seq<u8>,
    data_len: int,
)
    requires
        is_chunk_count(n),
        data.len() > 0,
        0 <= data_len,
        systematic_len >= threshold(n),
        chunks.len() >= threshold(n),
        chunks.take(threshold(n)) == coded_chunks(n, data).take(threshold(n)),
    ensures
        systematic_outcome(n, systematic_len, chunks, data_len) == Ok::<Seq<u8>, Error>(
            resized(data, data_len),
        ),
        data_len == data.len() ==> resized(data, data_len) == data,
{
    let k = threshold(n);
    let used = at_most_chunks(chunks, k);
    assert(used =~= chunks.take(k));
    if n == 1 {
        assert(used =~= seq![data]);
        assert(used.take(1) =~= used);
        lemma_concat_take(used, 0);
        assert(concat(used) =~= data);
        lemma_first_other(used, 0, 0, 0);
        lemma_first_other(used, 0, data.len() as int, 1);
    } else {
        let len = shard_len(k, data.len() as int);
        lemma_shard_len(k, data.len() as int);
        assert(used =~= original_shards(k, data));
        lemma_first_other(used, 0, 0, 0);
        lemma_first_other(used, 0, len, k);
        lemma_concat_original_shards(k, data);
    }
    let whole = concat(used);
    assert forall|b: int| 0 <= b < data.len() implies whole[b] == data[b] by {
        assert(at_most(whole, data.len() as int)[b] == data[b]);
    }
    assert(resized(whole, data_len) =~= resized(data, data_len));
    if data_len == data.len() {
        assert(resized(data, data_len) =~= data);
    }
}

/// Too few chunks never give anything back.
pub proof fn lemma_systematic_too_few(
    n: int,
    systematic_len: int,
    chunks: Seq<Seq<u8>>,
    data_len: int,
)
    requires
        is_chunk_count(n),
        systematic_len < threshold(n) || chunks.len() < threshold(n),
    ensures
        systematic_outcome(n, systematic_len, chunks, data_len) is Err,
{
}

} // verus!
