//! Reconstructing the data from chunks.

use std::collections::HashMap;

use vstd::prelude::*;
use vstd::std_specs::iter::IteratorSpec;

use crate::chunks::{
    chunk_count_error, coded_chunks, is_chunk_count, original_shards, systematic_recovery_threshold,
    threshold,
    ChunkIndex,
};
use crate::codec;
use crate::codec::{
    by_index, decoder_fits, decode_fault, has_index, indexed_bytes, restored_shard, shard_fault,
};
use crate::error::{reported, CodecError, Error};
use crate::layout::{column_of, is_aligned, lemma_shard_is_its_points, point};
use crate::round_trip::{lemma_no_fault, lemma_padded, lemma_round_trip};

verus! {

/// The bytes of each chunk, with its index.
pub open spec fn chunk_bytes(chunks: Seq<(ChunkIndex, Vec<u8>)>) -> Seq<(int, Seq<u8>)> {
    Seq::new(chunks.len(), |t: int| (chunks[t].0.0 as int, chunks[t].1@))
}

/// The bytes that a call returned, or its error.
pub open spec fn outcome(r: Result<Vec<u8>, Error>) -> Result<Seq<u8>, Error> {
    match r {
        Ok(bytes) => Ok(bytes@),
        Err(e) => Err(e),
    }
}

/// The chunks with an index below `k`, by ascending index; those of one index
/// stay in the order in which they came.
pub open spec fn original_part(chunks: Seq<(int, Seq<u8>)>, k: int) -> Seq<(int, Seq<u8>)>
    decreases k,
{
    if k <= 0 {
        Seq::empty()
    } else {
        original_part(chunks, k - 1) + chunks.filter(|c: (int, Seq<u8>)| c.0 == k - 1)
    }
}

/// The chunks with an index from `k` on, counted from there.
pub open spec fn recovery_part(chunks: Seq<(int, Seq<u8>)>, k: int) -> Seq<(int, Seq<u8>)>
    decreases chunks.len(),
{
    if chunks.len() == 0 {
        Seq::empty()
    } else if chunks.last().0 >= k {
        recovery_part(chunks.drop_last(), k).push((chunks.last().0 - k, chunks.last().1))
    } else {
        recovery_part(chunks.drop_last(), k)
    }
}

/// The shards one after the other.
pub open spec fn concat(shards: Seq<Seq<u8>>) -> Seq<u8>
    decreases shards.len(),
{
    if shards.len() == 0 {
        Seq::empty()
    } else {
        concat(shards.drop_last()) + shards.last()
    }
}

/// At most the first `len` bytes.
pub open spec fn at_most(bytes: Seq<u8>, len: int) -> Seq<u8> {
    if len < bytes.len() {
        bytes.take(len)
    } else {
        bytes
    }
}

/// The bytes cut off after `len`, or padded with zeroes up to there.
pub open spec fn resized(bytes: Seq<u8>, len: int) -> Seq<u8> {
    Seq::new(
        len as nat,
        |b: int|
            if b < bytes.len() {
                bytes[b]
            } else {
                0
            },
    )
}

/// How many of the indexes below `i` have no shard in `found`.
pub open spec fn gaps(found: Map<usize, Vec<u8>>, i: int) -> int
    decreases i,
{
    if i <= 0 {
        0
    } else {
        gaps(found, i - 1) + if found.contains_key((i - 1) as usize) {
            0int
        } else {
            1
        }
    }
}

/// The shards `0..count`: those found, with the given ones in the gaps, in order.
pub open spec fn filled(
    count: int,
    given: Seq<(usize, Vec<u8>)>,
    found: Map<usize, Vec<u8>>,
) -> Seq<Seq<u8>> {
    Seq::new(
        count as nat,
        |i: int|
            if found.contains_key(i as usize) {
                found[i as usize]@
            } else {
                given[gaps(found, i)].1@
            },
    )
}

/// The original shards, given some of them (by ascending index) and some
/// recovery shards that together are enough.
pub open spec fn all_original(
    original_count: int,
    recovery_count: int,
    original: Seq<(int, Seq<u8>)>,
    recovery: Seq<(int, Seq<u8>)>,
) -> Seq<Seq<u8>> {
    Seq::new(
        original_count as nat,
        |i: int|
            if recovery.len() == 0 {
                original[i].1
            } else if has_index(original, i) {
                by_index(original)[i]
            } else {
                restored_shard(
                    original_count,
                    recovery_count,
                    by_index(original),
                    by_index(recovery),
                    recovery[0].1.len() as int,
                    i,
                )
            },
    )
}

/// The chunks have the indexes from zero on, each once.
pub open spec fn is_each(chunks: Seq<(int, Seq<u8>)>) -> bool {
    forall|t: int| 0 <= t < chunks.len() ==> (#[trigger] chunks[t]).0 == t
}

/// What [`reconstruct`] makes of some chunks.
///
/// Without recovery chunks the codec only counts the others, so it is looked at
/// besides whether each is there.
pub open spec fn reconstructed(n: int, chunks: Seq<(int, Seq<u8>)>, data_len: int) -> Result<
    Seq<u8>,
    Error,
> {
    if n == 1 {
        if chunks.len() > 0 {
            Ok(at_most(chunks[0].1, data_len))
        } else {
            Err(Error::NotEnoughChunks)
        }
    } else if !is_chunk_count(n) {
        Err(chunk_count_error(n))
    } else {
        let k = threshold(n);
        let original = original_part(chunks, k);
        let recovery = recovery_part(chunks, k);
        match decode_fault(k, n - k, original, recovery) {
            Some(fault) => Err(reported(fault)),
            None => if recovery.len() == 0 && !is_each(original) {
                Err(Error::NotEnoughChunks)
            } else {
                Ok(at_most(concat(all_original(k, n - k, original, recovery)), data_len))
            },
        }
    }
}

/// The codec can work on shards of the length of the first recovery chunk.
pub open spec fn decoding_fits(n: int, chunks: Seq<(int, Seq<u8>)>) -> bool {
    let recovery = recovery_part(chunks, threshold(n));
    2 <= n && is_chunk_count(n) && recovery.len() > 0 ==> decoder_fits(
        threshold(n),
        n - threshold(n),
        recovery[0].1.len() as int,
    )
}

/// No two of the chunks have the same index.
pub open spec fn distinct(chunks: Seq<(int, Seq<u8>)>) -> bool {
    forall|t: int, u: int|
        0 <= t < u < chunks.len() ==> (#[trigger] chunks[t]).0 != (#[trigger] chunks[u]).0
}

/// Each of the chunks is the one of `coded` that has its index.
pub open spec fn are_among(chunks: Seq<(int, Seq<u8>)>, coded: Seq<Seq<u8>>) -> bool {
    forall|t: int|
        0 <= t < chunks.len() ==> {
            &&& 0 <= (#[trigger] chunks[t]).0 < coded.len()
            &&& chunks[t].1 == coded[chunks[t].0]
        }
}

/// No index is negative.
pub open spec fn natural(chunks: Seq<(int, Seq<u8>)>) -> bool {
    forall|t: int| 0 <= t < chunks.len() ==> 0 <= (#[trigger] chunks[t]).0
}

/// The part below `i` is where the indexes below `i` stand in the part below `k`.
pub proof fn lemma_original_part_split(chunks: Seq<(int, Seq<u8>)>, i: int, k: int)
    requires
        0 <= i <= k,
    ensures
        original_part(chunks, i).len() <= original_part(chunks, k).len(),
        forall|t: int|
            0 <= t < original_part(chunks, i).len() ==> {
                &&& (#[trigger] original_part(chunks, k)[t]).0 < i
                &&& original_part(chunks, k)[t] == original_part(chunks, i)[t]
            },
        forall|t: int|
            original_part(chunks, i).len() <= t < original_part(chunks, k).len() ==> i <= (
            #[trigger] original_part(chunks, k)[t]).0 < k,
    decreases k,
{
    if k == 0 {
    } else {
        let pred = |c: (int, Seq<u8>)| c.0 == k - 1;
        let bucket = chunks.filter(pred);
        assert forall|t: int| 0 <= t < bucket.len() implies (#[trigger] bucket[t]).0 == k - 1 by {
            chunks.lemma_filter_pred(pred, t);
        }
        assert(original_part(chunks, k) == original_part(chunks, k - 1) + bucket);
        if i == k {
            lemma_original_part_split(chunks, 0, k - 1);
        } else {
            lemma_original_part_split(chunks, i, k - 1);
        }
    }
}

/// The indexes ascend.
pub proof fn lemma_original_part_ascends(chunks: Seq<(int, Seq<u8>)>, k: int)
    requires
        0 <= k,
    ensures
        forall|t: int, u: int|
            0 <= t <= u < original_part(chunks, k).len() ==> (#[trigger] original_part(
                chunks,
                k,
            )[t]).0 <= (#[trigger] original_part(chunks, k)[u]).0,
        forall|t: int|
            0 <= t < original_part(chunks, k).len() ==> 0 <= (#[trigger] original_part(
                chunks,
                k,
            )[t]).0 < k,
{
    lemma_original_part_split(chunks, 0, k);
    let part = original_part(chunks, k);
    assert forall|t: int, u: int| 0 <= t <= u < part.len() implies (#[trigger] part[t]).0 <= (
    #[trigger] part[u]).0 by {
        lemma_original_part_split(chunks, part[t].0, k);
    }
}

/// One chunk more goes behind those with an index that is no larger.
pub proof fn lemma_original_part_push(chunks: Seq<(int, Seq<u8>)>, c: (int, Seq<u8>), k: int)
    requires
        0 <= c.0,
        0 <= k,
    ensures
        original_part(chunks.push(c), k) == if c.0 < k {
            original_part(chunks, k).insert(original_part(chunks, c.0 + 1).len() as int, c)
        } else {
            original_part(chunks, k)
        },
        c.0 < k ==> original_part(chunks, c.0 + 1).len() <= original_part(chunks, k).len(),
    decreases k,
{
    if k > 0 {
        let pred = |d: (int, Seq<u8>)| d.0 == k - 1;
        lemma_original_part_push(chunks, c, k - 1);
        reveal(Seq::filter);
        assert(chunks.push(c).drop_last() =~= chunks);
        if c.0 < k {
            lemma_original_part_split(chunks, c.0 + 1, k);
        }
        let before = original_part(chunks, k);
        let after = original_part(chunks.push(c), k);
        if c.0 == k - 1 {
            assert(after =~= before.insert(before.len() as int, c));
        } else if c.0 < k - 1 {
            assert(after =~= before.insert(original_part(chunks, c.0 + 1).len() as int, c));
        } else {
            assert(after =~= before);
        }
    }
}

/// The original part holds the chunks with an index below `k`, and the recovery
/// part the others.
pub proof fn lemma_parts(chunks: Seq<(int, Seq<u8>)>, k: int)
    requires
        natural(chunks),
        0 <= k,
    ensures
        forall|t: int|
            0 <= t < chunks.len() && (#[trigger] chunks[t]).0 < k ==> original_part(
                chunks,
                k,
            ).contains(chunks[t]),
        forall|t: int|
            0 <= t < original_part(chunks, k).len() ==> chunks.contains(
                #[trigger] original_part(chunks, k)[t],
            ),
        forall|t: int|
            0 <= t < recovery_part(chunks, k).len() ==> (#[trigger] recovery_part(chunks, k)[t]).0
                >= 0 && chunks.contains(
                (recovery_part(chunks, k)[t].0 + k, recovery_part(chunks, k)[t].1),
            ),
        original_part(chunks, k).len() + recovery_part(chunks, k).len() == chunks.len(),
        distinct(chunks) ==> distinct(original_part(chunks, k)) && distinct(
            recovery_part(chunks, k),
        ),
    decreases chunks.len(),
{
    if chunks.len() == 0 {
        lemma_no_chunks(k);
        assert(chunks =~= Seq::empty());
    } else {
        let rest = chunks.drop_last();
        let c = chunks.last();
        assert(natural(rest)) by {
            assert forall|t: int| 0 <= t < rest.len() implies 0 <= (#[trigger] rest[t]).0 by {
                assert(rest[t] == chunks[t]);
            }
        }
        assert(chunks =~= rest.push(c));
        assert(chunks[chunks.len() - 1] == c);
        lemma_parts(rest, k);
        lemma_original_part_push(rest, c, k);
        let old_part = original_part(rest, k);
        let part = original_part(chunks, k);
        let old_recovery = recovery_part(rest, k);
        let recovery = recovery_part(chunks, k);
        let at = original_part(rest, c.0 + 1).len() as int;
        assert forall|t: int|
            0 <= t < chunks.len() && (#[trigger] chunks[t]).0 < k implies part.contains(
            chunks[t],
        ) by {
            if t < rest.len() {
                assert(rest[t] == chunks[t]);
                assert(old_part.contains(rest[t]));
                let u = choose|u: int| 0 <= u < old_part.len() && old_part[u] == rest[t];
                if c.0 < k {
                    assert(part[if u < at { u } else { u + 1 }] == rest[t]);
                } else {
                    assert(part[u] == rest[t]);
                }
            } else {
                assert(part[at] == c);
            }
        }
        assert forall|t: int| 0 <= t < part.len() implies chunks.contains(#[trigger] part[t]) by {
            if c.0 < k && t == at {
            } else {
                let u = if c.0 < k && t > at { t - 1 } else { t };
                assert(part[t] == old_part[u]);
                assert(rest.contains(old_part[u]));
                let w = choose|w: int| 0 <= w < rest.len() && rest[w] == old_part[u];
                assert(chunks[w] == part[t]);
            }
        }
        assert forall|t: int| 0 <= t < recovery.len() implies (#[trigger] recovery[t]).0 >= 0
            && chunks.contains((recovery[t].0 + k, recovery[t].1)) by {
            if t < old_recovery.len() {
                assert(recovery[t] == old_recovery[t]);
                assert(rest.contains((old_recovery[t].0 + k, old_recovery[t].1)));
                let w = choose|w: int|
                    0 <= w < rest.len() && rest[w] == (old_recovery[t].0 + k, old_recovery[t].1);
                assert(chunks[w] == (recovery[t].0 + k, recovery[t].1));
            } else {
                assert((recovery[t].0 + k, recovery[t].1) == c);
            }
        }
        if distinct(chunks) {
            assert(distinct(rest)) by {
                assert forall|t: int, u: int| 0 <= t < u < rest.len() implies (#[trigger] rest[t]).0
                    != (#[trigger] rest[u]).0 by {
                    assert(rest[t] == chunks[t] && rest[u] == chunks[u]);
                }
            }
            assert forall|t: int| 0 <= t < old_part.len() implies (#[trigger] old_part[t]).0
                != c.0 by {
                assert(rest.contains(old_part[t]));
                let w = choose|w: int| 0 <= w < rest.len() && rest[w] == old_part[t];
                assert(chunks[w] == old_part[t]);
            }
            assert forall|t: int| 0 <= t < old_recovery.len() implies (
            #[trigger] old_recovery[t]).0 + k != c.0 by {
                assert(rest.contains((old_recovery[t].0 + k, old_recovery[t].1)));
                let w = choose|w: int|
                    0 <= w < rest.len() && rest[w] == (old_recovery[t].0 + k, old_recovery[t].1);
                assert(chunks[w].0 == old_recovery[t].0 + k);
            }
            assert(distinct(part)) by {
                assert forall|t: int, u: int| 0 <= t < u < part.len() implies (#[trigger] part[t]).0
                    != (#[trigger] part[u]).0 by {
                    if c.0 < k {
                        if t < at {
                            assert(part[t] == old_part[t]);
                        } else if t > at {
                            assert(part[t] == old_part[t - 1]);
                        }
                        if u < at {
                            assert(part[u] == old_part[u]);
                        } else if u > at {
                            assert(part[u] == old_part[u - 1]);
                        }
                    } else {
                        assert(part[t] == old_part[t] && part[u] == old_part[u]);
                    }
                }
            }
            assert(distinct(recovery)) by {
                assert forall|t: int, u: int|
                    0 <= t < u < recovery.len() implies (#[trigger] recovery[t]).0 != (
                #[trigger] recovery[u]).0 by {
                    assert(recovery[t] == old_recovery[t]);
                    if u < old_recovery.len() {
                        assert(recovery[u] == old_recovery[u]);
                    }
                }
            }
        }
    }
}

/// Without chunks there is no original part.
proof fn lemma_no_chunks(k: int)
    requires
        0 <= k,
    ensures
        original_part(Seq::empty(), k) == Seq::<(int, Seq<u8>)>::empty(),
    decreases k,
{
    if k > 0 {
        lemma_no_chunks(k - 1);
        reveal(Seq::filter);
        assert(original_part(Seq::empty(), k) =~= Seq::<(int, Seq<u8>)>::empty());
    }
}

/// When the codec finds no fault with some shards.
pub proof fn lemma_shard_fault(
    shards: Seq<(int, Seq<u8>)>,
    count: int,
    shard_bytes: int,
    invalid: CodecError,
    duplicate: CodecError,
)
    ensures
        shard_fault(shards, count, shard_bytes, invalid, duplicate) is None <==> {
            &&& distinct(shards)
            &&& forall|t: int|
                0 <= t < shards.len() ==> (#[trigger] shards[t]).0 < count && shards[t].1.len()
                    == shard_bytes
        },
    decreases shards.len(),
{
    if shards.len() > 0 {
        let rest = shards.drop_last();
        lemma_shard_fault(rest, count, shard_bytes, invalid, duplicate);
        assert(forall|t: int| 0 <= t < rest.len() ==> rest[t] == #[trigger] shards[t]);
        assert(forall|t: int| 0 <= t < rest.len() ==> #[trigger] rest[t] == shards[t]);
        let n = shards.len() - 1;
        assert(shards[n] == shards.last());
    }
}

/// Splits the chunks into the original ones, by ascending index, and the recovery
/// ones.
fn split_chunks<I>(chunks: I, original_count: usize) -> (r: (
    Vec<(usize, Vec<u8>)>,
    Vec<(usize, Vec<u8>)>,
)) where I: Iterator<Item = (ChunkIndex, Vec<u8>)>
    requires
        chunks.obeys_prophetic_iter_laws(),
        chunks.decrease() is Some,
    ensures
        indexed_bytes(r.0@) == original_part(
            chunk_bytes(chunks.remaining()),
            original_count as int,
        ),
        indexed_bytes(r.1@) == recovery_part(
            chunk_bytes(chunks.remaining()),
            original_count as int,
        ),
{
    let mut chunks = chunks;
    let ghost all = chunks.remaining();
    let ghost mut seen: Seq<(ChunkIndex, Vec<u8>)> = Seq::empty();
    let mut original: Vec<(usize, Vec<u8>)> = Vec::new();
    let mut recovery: Vec<(usize, Vec<u8>)> = Vec::new();
    proof {
        lemma_no_chunks(original_count as int);
        assert(chunk_bytes(seen) =~= Seq::empty());
        assert(indexed_bytes(original@) =~= Seq::empty());
        assert(indexed_bytes(recovery@) =~= Seq::empty());
    }
    loop
        invariant
            chunks.obeys_prophetic_iter_laws(),
            chunks.decrease() is Some,
            all == seen + chunks.remaining(),
            indexed_bytes(original@) == original_part(chunk_bytes(seen), original_count as int),
            indexed_bytes(recovery@) == recovery_part(chunk_bytes(seen), original_count as int),
        ensures
            all == seen,
            indexed_bytes(original@) == original_part(chunk_bytes(seen), original_count as int),
            indexed_bytes(recovery@) == recovery_part(chunk_bytes(seen), original_count as int),
        decreases chunks.decrease()->0,
    {
        let ghost remaining = chunks.remaining();
        match chunks.next() {
            Some((index, chunk)) => {
                let i: usize = index.0 as usize;
                let ghost before = chunk_bytes(seen);
                let ghost c = (i as int, chunk@);
                proof {
                    seen = seen.push((index, chunk));
                    assert(chunk_bytes(seen) =~= before.push(c));
                    assert(all =~= seen + chunks.remaining());
                    lemma_original_part_push(before, c, original_count as int);
                    assert(before.push(c).drop_last() =~= before);
                }
                if i < original_count {
                    let ghost part = original_part(before, original_count as int);
                    let ghost at = original_part(before, i + 1).len() as int;
                    proof {
                        lemma_original_part_split(before, i + 1, original_count as int);
                        assert forall|t: int| 0 <= t < original@.len() implies (
                        #[trigger] original@[t]).0 == part[t].0 by {
                            assert(indexed_bytes(original@)[t] == part[t]);
                        }
                        assert(indexed_bytes(original@).len() == original@.len());
                    }
                    let mut at_end: usize = original.len();
                    while at_end > 0 && original[at_end - 1].0 > i
                        invariant
                            at <= at_end <= original@.len(),
                            original@.len() == part.len(),
                            forall|t: int|
                                0 <= t < original@.len() ==> (#[trigger] original@[t]).0
                                    == part[t].0,
                            forall|t: int| 0 <= t < at ==> (#[trigger] part[t]).0 < i + 1,
                        decreases at_end,
                    {
                        at_end = at_end - 1;
                    }
                    assert(at_end == at) by {
                        if at_end > at {
                            assert(part[at_end - 1].0 >= i + 1);
                            assert(original@[at_end - 1].0 == part[at_end - 1].0);
                        }
                    }
                    let ghost old_original = original@;
                    original.insert(at_end, (i, chunk));
                    assert(indexed_bytes(original@) =~= indexed_bytes(old_original).insert(at, c));
                } else {
                    let ghost old_recovery = recovery@;
                    recovery.push((i - original_count, chunk));
                    assert(indexed_bytes(recovery@) =~= indexed_bytes(old_recovery).push(
                        (c.0 - original_count, c.1),
                    ));
                }
            },
            None => {
                assert(all =~= seen);
                break;
            },
        }
    }
    (original, recovery)
}

/// Puts the shards together: those found, with the given ones in the gaps, in
/// order. What is longer than `data_len` is cut off.
pub fn fill_gaps(
    count: usize,
    given: Vec<(usize, Vec<u8>)>,
    found: HashMap<usize, Vec<u8>>,
    data_len: usize,
) -> (bytes: Vec<u8>)
    requires
        gaps(found@, count as int) <= given@.len(),
    ensures
        bytes@ == at_most(concat(filled(count as int, given@, found@)), data_len as int),
{
    broadcast use vstd::std_specs::hash::group_hash_axioms;

    let ghost all = found@;
    let mut found = found;
    let mut bytes: Vec<u8> = Vec::new();
    let mut next: usize = 0;
    for i in 0..count
        invariant
            vstd::std_specs::hash::obeys_key_model::<usize>(),
            vstd::std_specs::hash::builds_valid_hashers::<std::hash::RandomState>(),
            gaps(all, count as int) <= given@.len(),
            next == gaps(all, i as int),
            forall|j: usize|
                i <= j ==> (#[trigger] found@.contains_key(j) <==> all.contains_key(j)),
            forall|j: usize| i <= j && #[trigger] found@.contains_key(j) ==> found@[j] == all[j],
            bytes@ == concat(filled(i as int, given@, all)),
    {
        let ghost before = bytes@;
        let ghost shards = filled(i + 1, given@, all);
        proof {
            lemma_gaps_ascend(all, i + 1, count as int);
            assert(shards.drop_last() =~= filled(i as int, given@, all));
        }
        match found.remove(&i) {
            Some(shard) => {
                bytes.extend_from_slice(shard.as_slice());
                assert(bytes@ =~= before + shards.last());
            },
            None => {
                bytes.extend_from_slice(given[next].1.as_slice());
                next = next + 1;
                assert(bytes@ =~= before + shards.last());
            },
        }
    }
    bytes.truncate(data_len);
    bytes
}

/// There are no fewer gaps below a larger index.
proof fn lemma_gaps_ascend(found: Map<usize, Vec<u8>>, i: int, j: int)
    requires
        0 <= i <= j,
    ensures
        0 <= gaps(found, i) <= gaps(found, j) <= j,
    decreases j,
{
    if i < j {
        lemma_gaps_ascend(found, i, j - 1);
    } else if i > 0 {
        lemma_gaps_ascend(found, i - 1, j - 1);
    }
}

/// Where the given shards are just those that are not found, the gaps below an
/// index are the given shards below it.
proof fn lemma_gaps_are_given(
    given: Seq<(usize, Vec<u8>)>,
    found: Map<usize, Vec<u8>>,
    k: int,
    i: int,
)
    requires
        0 <= i <= k <= u16::MAX,
        forall|t: int, u: int|
            0 <= t < u < given.len() ==> (#[trigger] given[t]).0 < (#[trigger] given[u]).0,
        forall|t: int| 0 <= t < given.len() ==> (#[trigger] given[t]).0 < k,
        forall|j: usize| #[trigger]
            found.contains_key(j) <==> j < k && !has_index(indexed_bytes(given), j as int),
    ensures
        0 <= gaps(found, i) <= given.len(),
        forall|t: int| 0 <= t < gaps(found, i) ==> (#[trigger] given[t]).0 < i,
        forall|t: int| gaps(found, i) <= t < given.len() ==> (#[trigger] given[t]).0 >= i,
    decreases i,
{
    if i > 0 {
        lemma_gaps_are_given(given, found, k, i - 1);
        let j = (i - 1) as usize;
        let at = gaps(found, i - 1);
        if has_index(indexed_bytes(given), j as int) {
            let t = choose|t: int|
                0 <= t < indexed_bytes(given).len() && (#[trigger] indexed_bytes(given)[t]).0 == j;
            assert(given[t].0 == j);
            assert(at <= t);
            assert(given[at].0 >= j);
            assert(at == t);
        } else {
            assert forall|t: int| at <= t < given.len() implies (#[trigger] given[t]).0 >= i by {
                assert(indexed_bytes(given)[t].0 == given[t].0);
            }
        }
    }
}

/// What fills the gaps after decoding are the original shards.
proof fn lemma_filled(
    k: int,
    rc: int,
    original: Seq<(usize, Vec<u8>)>,
    recovery: Seq<(usize, Vec<u8>)>,
    found: Map<usize, Vec<u8>>,
)
    requires
        1 <= k <= 32768,
        decode_fault(k, rc, indexed_bytes(original), indexed_bytes(recovery)) is None,
        forall|t: int, u: int|
            0 <= t <= u < original.len() ==> (#[trigger] original[t]).0 <= (
            #[trigger] original[u]).0,
        recovery.len() == 0 ==> found == Map::<usize, Vec<u8>>::empty(),
        recovery.len() > 0 ==> {
            &&& forall|i: usize| #[trigger]
                found.contains_key(i) <==> i < k && !has_index(indexed_bytes(original), i as int)
            &&& forall|i: usize| #[trigger]
                found.contains_key(i) ==> found[i]@ == restored_shard(
                    k,
                    rc,
                    by_index(indexed_bytes(original)),
                    by_index(indexed_bytes(recovery)),
                    recovery[0].1@.len() as int,
                    i as int,
                )
        },
    ensures
        gaps(found, k) <= original.len(),
        filled(k, original, found) == all_original(
            k,
            rc,
            indexed_bytes(original),
            indexed_bytes(recovery),
        ),
{
    let given = indexed_bytes(original);
    let all = all_original(k, rc, given, indexed_bytes(recovery));
    if recovery.len() == 0 {
        assert forall|i: int| 0 <= i <= k implies #[trigger] gaps(found, i) == i by {
            lemma_gaps_of_nothing(found, i);
        }
        assert forall|i: int| 0 <= i < k implies #[trigger] filled(k, original, found)[i]
            == all[i] by {
            assert(gaps(found, i) == i);
            assert(given[i].1 == original[i].1@);
        }
    } else {
        let bytes = recovery[0].1@.len() as int;
        assert(indexed_bytes(recovery)[0].1 == recovery[0].1@);
        lemma_shard_fault(
            given,
            k,
            bytes,
            CodecError::InvalidOriginalShardIndex,
            CodecError::DuplicateOriginalShardIndex,
        );
        assert forall|t: int| 0 <= t < original.len() implies (#[trigger] original[t]).0
            < k by {
            assert(given[t].0 == original[t].0);
        }
        assert forall|t: int, u: int| 0 <= t < u < original.len() implies (#[trigger] original[t]).0
            < (#[trigger] original[u]).0 by {
            assert(given[t].0 == original[t].0 && given[u].0 == original[u].0);
        }
        lemma_gaps_are_given(original, found, k, k);
        assert forall|i: int| 0 <= i < k implies #[trigger] filled(k, original, found)[i]
            == all[i] by {
            lemma_gaps_are_given(original, found, k, i);
            if has_index(given, i) {
                assert(!found.contains_key(i as usize));
                let t = choose|t: int| 0 <= t < given.len() && (#[trigger] given[t]).0 == i;
                let at = gaps(found, i);
                assert(original[t].0 == i);
                assert(at <= t);
                assert(original[at].0 >= i);
                assert(at == t);
                assert(by_index(given)[i] == given[t].1);
            } else {
                assert(found.contains_key(i as usize));
            }
        }
    }
    assert(filled(k, original, found) =~= all);
}

/// Where nothing is found every index is a gap.
proof fn lemma_gaps_of_nothing(found: Map<usize, Vec<u8>>, i: int)
    requires
        0 <= i,
        found == Map::<usize, Vec<u8>>::empty(),
    ensures
        gaps(found, i) == i,
    decreases i,
{
    if i > 0 {
        lemma_gaps_of_nothing(found, i - 1);
    }
}

/// The data as the first chunks hold it: one chunk holds it as it is, several pad it
/// with zeroes.
pub open spec fn padded(n: int, data: Seq<u8>) -> Seq<u8> {
    if n == 1 {
        data
    } else {
        concat(original_shards(threshold(n), data))
    }
}

/// Whether the chunks have the indexes from zero on, each once.
fn are_each(chunks: &Vec<(usize, Vec<u8>)>) -> (r: bool)
    ensures
        r == is_each(indexed_bytes(chunks@)),
{
    for i in 0..chunks.len()
        invariant
            forall|t: int| 0 <= t < i ==> (#[trigger] chunks@[t]).0 == t,
    {
        if chunks[i].0 != i {
            assert(indexed_bytes(chunks@)[i as int].0 != i);
            return false;
        }
    }
    assert forall|t: int| 0 <= t < indexed_bytes(chunks@).len() implies (#[trigger] indexed_bytes(
        chunks@,
    )[t]).0 == t by {
        assert(chunks@[t].0 == t);
    }
    true
}

/// Some of the chunks into which `data` was coded, in any order.
pub open spec fn are_some(n: int, chunks: Seq<(int, Seq<u8>)>, data: Seq<u8>) -> bool {
    &&& is_chunk_count(n)
    &&& data.len() > 0
    &&& distinct(chunks)
    &&& are_among(chunks, coded_chunks(n, data))
}

/// Enough of the chunks into which `data` was coded, in any order.
pub open spec fn are_enough(n: int, chunks: Seq<(int, Seq<u8>)>, data: Seq<u8>) -> bool {
    &&& are_some(n, chunks, data)
    &&& chunks.len() >= threshold(n)
}

/// Reconstruct the original data from a set of chunks.
///
/// Provide an iterator over the chunks with their indexes. If too few chunks are
/// provided, recovery is not possible.
///
/// Works for 1 to [`crate::MAX_CHUNKS`] chunks.
///
/// Due to the internals of the erasure coding algorithm, the output might be
/// larger than the original data and padded with zeroes; passing `data_len`
/// allows to truncate the output to the original data size.
///
/// Any [`crate::recovery_threshold`] many chunks of those that
/// [`crate::construct_chunks`] made of some data give back that data.
pub fn reconstruct<I>(n_chunks: u16, chunks: I, data_len: usize) -> (r: Result<Vec<u8>, Error>)
    where I: Iterator<Item = (ChunkIndex, Vec<u8>)>
    requires
        chunks.obeys_prophetic_iter_laws(),
        chunks.decrease() is Some,
        decoding_fits(n_chunks as int, chunk_bytes(chunks.remaining())),
    ensures
        outcome(r) == reconstructed(
            n_chunks as int,
            chunk_bytes(chunks.remaining()),
            data_len as int,
        ),
        forall|data: Seq<u8>| #[trigger]
            are_enough(n_chunks as int, chunk_bytes(chunks.remaining()), data) ==> outcome(r)
                == Ok::<Seq<u8>, Error>(at_most(padded(n_chunks as int, data), data_len as int)),
        forall|data: Seq<u8>| #[trigger]
            are_enough(n_chunks as int, chunk_bytes(chunks.remaining()), data) && data_len
                <= padded(n_chunks as int, data).len() ==> outcome(r) == Ok::<Seq<u8>, Error>(
                resized(data, data_len as int),
            ),
{
    let ghost all = chunk_bytes(chunks.remaining());
    if n_chunks == 1 {
        let mut chunks = chunks;
        return match chunks.next() {
            Some((_, chunk)) => {
                assert(all[0].1 == chunk@);
                let ghost whole = chunk@;
                let mut bytes = chunk;
                bytes.truncate(data_len);
                proof {
                    assert(bytes@ =~= at_most(whole, data_len as int));
                    assert forall|data: Seq<u8>| #[trigger] are_enough(1, all, data) implies {
                        &&& whole == padded(1, data)
                        &&& data_len <= whole.len() ==> bytes@ == resized(data, data_len as int)
                    } by {
                        assert(all[0].0 == 0);
                        assert(coded_chunks(1, data)[0] == data);
                        lemma_padded(1, data, data_len as int);
                    }
                }
                Ok(bytes)
            },
            None => Err(Error::NotEnoughChunks),
        };
    }
    let original_count: usize = match systematic_recovery_threshold(n_chunks) {
        Ok(k) => k as usize,
        Err(e) => {
            return Err(e);
        },
    };
    let recovery_count: usize = n_chunks as usize - original_count;
    let ghost k = original_count as int;
    let ghost rc = recovery_count as int;
    let (original, recovery) = split_chunks(chunks, original_count);
    let ghost given = original@;
    let ghost extra = recovery@;
    proof {
        lemma_split(n_chunks as int, all, given, extra);
    }
    let has_recovery: bool = recovery.len() > 0;
    match codec::decode(original_count, recovery_count, &original, recovery) {
        Ok(found) => {
            proof {
                if extra.len() > 0 {
                    lemma_found(k, rc, given, extra, found@);
                }
                lemma_filled(k, rc, given, extra, found@);
                assert forall|data: Seq<u8>| #[trigger]
                    are_enough(n_chunks as int, all, data) implies reconstructed(
                    n_chunks as int,
                    all,
                    data_len as int,
                ) == Ok::<Seq<u8>, Error>(
                    at_most(padded(n_chunks as int, data), data_len as int),
                ) by {
                    lemma_round_trip(n_chunks as int, all, data, data_len as int);
                }
                assert forall|data: Seq<u8>| #[trigger]
                    are_enough(n_chunks as int, all, data) && data_len <= padded(
                        n_chunks as int,
                        data,
                    ).len() implies at_most(padded(n_chunks as int, data), data_len as int)
                    == resized(data, data_len as int) by {
                    lemma_padded(n_chunks as int, data, data_len as int);
                }
            }
            if !has_recovery && !are_each(&original) {
                return Err(Error::NotEnoughChunks);
            }
            Ok(fill_gaps(original_count, original, found, data_len))
        },
        Err(e) => {
            proof {
                assert forall|data: Seq<u8>| #[trigger]
                    are_enough(n_chunks as int, all, data) implies false by {
                    lemma_no_fault(n_chunks as int, all, data);
                }
            }
            Err(Error::from(e))
        },
    }
}

/// What the codec finds are the restored shards.
proof fn lemma_found(
    k: int,
    rc: int,
    original: Seq<(usize, Vec<u8>)>,
    recovery: Seq<(usize, Vec<u8>)>,
    found: Map<usize, Vec<u8>>,
)
    requires
        recovery.len() > 0,
        is_aligned(recovery[0].1@.len() as int),
        forall|i: usize| #[trigger]
            found.contains_key(i) ==> found[i]@.len() == recovery[0].1@.len(),
        forall|i: usize, p: int|
            found.contains_key(i) && 0 <= p < recovery[0].1@.len() as int / 2 ==> #[trigger] point(
                found[i]@,
                p,
            ) == codec::restored(
                k,
                rc,
                column_of(by_index(indexed_bytes(original)), p),
                column_of(by_index(indexed_bytes(recovery)), p),
            )[i as int],
    ensures
        forall|i: usize| #[trigger]
            found.contains_key(i) ==> found[i]@ == restored_shard(
                k,
                rc,
                by_index(indexed_bytes(original)),
                by_index(indexed_bytes(recovery)),
                recovery[0].1@.len() as int,
                i as int,
            ),
{
    assert forall|i: usize| #[trigger] found.contains_key(i) implies found[i]@ == restored_shard(
        k,
        rc,
        by_index(indexed_bytes(original)),
        by_index(indexed_bytes(recovery)),
        recovery[0].1@.len() as int,
        i as int,
    ) by {
        lemma_shard_is_its_points(
            found[i]@,
            |p: int|
                codec::restored(
                    k,
                    rc,
                    column_of(by_index(indexed_bytes(original)), p),
                    column_of(by_index(indexed_bytes(recovery)), p),
                )[i as int],
        );
    }
}

/// The parts into which the chunks are split are such that the codec takes them.
proof fn lemma_split(
    n: int,
    chunks: Seq<(int, Seq<u8>)>,
    original: Seq<(usize, Vec<u8>)>,
    recovery: Seq<(usize, Vec<u8>)>,
)
    requires
        2 <= n,
        is_chunk_count(n),
        natural(chunks),
        forall|t: int| 0 <= t < chunks.len() ==> (#[trigger] chunks[t]).0 <= u16::MAX,
        decoding_fits(n, chunks),
        indexed_bytes(original) == original_part(chunks, threshold(n)),
        indexed_bytes(recovery) == recovery_part(chunks, threshold(n)),
    ensures
        forall|t: int, u: int|
            0 <= t <= u < original.len() ==> (#[trigger] original[t]).0 <= (
            #[trigger] original[u]).0,
        forall|t: int| 0 <= t < original.len() ==> (#[trigger] original[t]).0 <= u16::MAX,
        forall|t: int| 0 <= t < recovery.len() ==> (#[trigger] recovery[t]).0 <= u16::MAX,
        recovery.len() > 0 ==> decoder_fits(
            threshold(n),
            n - threshold(n),
            recovery[0].1@.len() as int,
        ),
{
    let k = threshold(n);
    lemma_parts(chunks, k);
    lemma_original_part_ascends(chunks, k);
    assert(indexed_bytes(original).len() == original.len());
    assert(indexed_bytes(recovery).len() == recovery.len());
    assert forall|t: int| 0 <= t < original.len() implies (#[trigger] original[t]).0
        == original_part(chunks, k)[t].0 by {
        assert(indexed_bytes(original)[t].0 == original[t].0);
    }
    assert forall|t: int| 0 <= t < recovery.len() implies (#[trigger] recovery[t]).0
        <= u16::MAX by {
        let c = recovery_part(chunks, k)[t];
        assert(indexed_bytes(recovery)[t] == c);
        assert(chunks.contains((c.0 + k, c.1)));
        let u = choose|u: int| 0 <= u < chunks.len() && chunks[u] == (c.0 + k, c.1);
        assert(chunks[u].0 <= u16::MAX);
    }
    if recovery.len() > 0 {
        assert(indexed_bytes(recovery)[0] == recovery_part(chunks, k)[0]);
    }
}

} // verus!
