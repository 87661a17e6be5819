//! What reconstructing gives back of what was coded.

use vstd::prelude::*;

use crate::chunks::{
    coded_chunks, is_chunk_count, lemma_shard_len, original_shard, original_shards, shard_len,
    threshold,
};
use crate::codec;
use crate::codec::{
    agrees, by_index, decode_fault, has_index, parity_shards, restored_shard, restores,
};
use crate::error::{CodecError, Error};
use crate::layout::{
    column, column_of, is_aligned, lemma_point_of_shard_of, lemma_shard_is_its_points, point,
    shard_of,
};
use crate::reconstruct::{
    all_original, are_enough, are_some, at_most, concat, distinct, lemma_original_part_ascends,
    lemma_original_part_push, lemma_original_part_split, lemma_parts,
    lemma_shard_fault, natural, original_part, padded, reconstructed,
    recovery_part, resized,
};

verus! {

/// Indexes that ascend strictly from zero on leave no room for more of them than
/// there are.
pub proof fn lemma_strictly_ascending(s: Seq<(int, Seq<u8>)>, k: int)
    requires
        forall|t: int, u: int| 0 <= t < u < s.len() ==> (#[trigger] s[t]).0 < (#[trigger] s[u]).0,
        forall|t: int| 0 <= t < s.len() ==> 0 <= (#[trigger] s[t]).0 < k,
        0 <= k,
    ensures
        s.len() <= k,
        s.len() == k ==> forall|t: int| 0 <= t < k ==> (#[trigger] s[t]).0 == t,
    decreases s.len(),
{
    if s.len() > 0 {
        let last = s.len() - 1;
        let rest = s.drop_last();
        assert(forall|t: int| 0 <= t < rest.len() ==> #[trigger] rest[t] == s[t]);
        lemma_strictly_ascending(rest, s[last].0);
        if s.len() == k {
            assert(s[last].0 == last);
            assert forall|t: int| 0 <= t < k implies (#[trigger] s[t]).0 == t by {
                if t < last {
                    assert(rest[t].0 == t);
                }
            }
        }
    }
}

/// Data is coded into as many chunks as asked for, all of one length that the codec
/// takes. The first ones are the shards of the data, the others their recovery
/// shards.
pub proof fn lemma_coded_chunks(n: int, data: Seq<u8>)
    requires
        2 <= n,
        is_chunk_count(n),
        data.len() > 0,
    ensures
        coded_chunks(n, data).len() == n,
        is_aligned(shard_len(threshold(n), data.len() as int)),
        forall|i: int|
            0 <= i < n ==> (#[trigger] coded_chunks(n, data)[i]).len() == shard_len(
                threshold(n),
                data.len() as int,
            ),
        forall|i: int|
            0 <= i < threshold(n) ==> #[trigger] coded_chunks(n, data)[i] == original_shards(
                threshold(n),
                data,
            )[i],
        forall|j: int|
            0 <= j < n - threshold(n) ==> coded_chunks(n, data)[threshold(n) + j]
                == #[trigger] parity_shards(
                n - threshold(n),
                original_shards(threshold(n), data),
            )[j],
{
    let k = threshold(n);
    let original = original_shards(k, data);
    lemma_shard_len(k, data.len() as int);
    assert(original[0].len() == shard_len(k, data.len() as int));
}

/// The chunks of one coding that are there, by the parts into which they fall.
proof fn lemma_coded_parts(n: int, chunks: Seq<(int, Seq<u8>)>, data: Seq<u8>)
    requires
        2 <= n,
        are_some(n, chunks, data),
    ensures
        natural(chunks),
        forall|t: int|
            0 <= t < original_part(chunks, threshold(n)).len() ==> {
                &&& 0 <= (#[trigger] original_part(chunks, threshold(n))[t]).0 < threshold(n)
                &&& original_part(chunks, threshold(n))[t].1 == original_shards(
                    threshold(n),
                    data,
                )[original_part(chunks, threshold(n))[t].0]
            },
        forall|t: int|
            0 <= t < recovery_part(chunks, threshold(n)).len() ==> {
                &&& 0 <= (#[trigger] recovery_part(chunks, threshold(n))[t]).0 < n - threshold(n)
                &&& recovery_part(chunks, threshold(n))[t].1 == parity_shards(
                    n - threshold(n),
                    original_shards(threshold(n), data),
                )[recovery_part(chunks, threshold(n))[t].0]
            },
{
    let k = threshold(n);
    let coded = coded_chunks(n, data);
    let op = original_part(chunks, k);
    let rp = recovery_part(chunks, k);
    lemma_coded_chunks(n, data);
    assert(natural(chunks));
    lemma_parts(chunks, k);
    lemma_original_part_ascends(chunks, k);
    assert forall|t: int| 0 <= t < op.len() implies (#[trigger] op[t]).1 == original_shards(
        k,
        data,
    )[op[t].0] by {
        assert(chunks.contains(op[t]));
        let u = choose|u: int| 0 <= u < chunks.len() && chunks[u] == op[t];
        assert(chunks[u].1 == coded[chunks[u].0]);
    }
    assert forall|t: int| 0 <= t < rp.len() implies 0 <= (#[trigger] rp[t]).0 < n - k && rp[t].1
        == parity_shards(n - k, original_shards(k, data))[rp[t].0] by {
        assert(chunks.contains((rp[t].0 + k, rp[t].1)));
        let u = choose|u: int| 0 <= u < chunks.len() && chunks[u] == (rp[t].0 + k, rp[t].1);
        assert(chunks[u].1 == coded[chunks[u].0]);
        assert(coded[k + rp[t].0] == parity_shards(n - k, original_shards(k, data))[rp[t].0]);
    }
}

/// The codec finds no fault with chunks of one coding, but that they are too few.
pub proof fn lemma_no_fault(n: int, chunks: Seq<(int, Seq<u8>)>, data: Seq<u8>)
    requires
        2 <= n,
        are_some(n, chunks, data),
    ensures
        decode_fault(
            threshold(n),
            n - threshold(n),
            original_part(chunks, threshold(n)),
            recovery_part(chunks, threshold(n)),
        ) == (if chunks.len() >= threshold(n) {
            None
        } else {
            Some(CodecError::NotEnoughShards)
        }),
        recovery_part(chunks, threshold(n)).len() == 0 && chunks.len() >= threshold(n) ==> {
            &&& original_part(chunks, threshold(n)).len() == threshold(n)
            &&& forall|t: int|
                0 <= t < threshold(n) ==> (#[trigger] original_part(chunks, threshold(n))[t]).0 == t
        },
{
    let k = threshold(n);
    let op = original_part(chunks, k);
    let rp = recovery_part(chunks, k);
    let len = shard_len(k, data.len() as int);
    lemma_coded_chunks(n, data);
    lemma_coded_parts(n, chunks, data);
    lemma_parts(chunks, k);
    lemma_original_part_ascends(chunks, k);
    assert forall|t: int, u: int| 0 <= t < u < op.len() implies (#[trigger] op[t]).0 < (
    #[trigger] op[u]).0 by {
        assert(op[t].0 != op[u].0);
    }
    lemma_strictly_ascending(op, k);
    if rp.len() > 0 {
        let coded = coded_chunks(n, data);
        assert forall|t: int| 0 <= t < op.len() implies (#[trigger] op[t]).0 < k && op[t].1.len()
            == len by {
            assert(coded[op[t].0].len() == len);
        }
        assert forall|t: int| 0 <= t < rp.len() implies (#[trigger] rp[t]).0 < n - k
            && rp[t].1.len() == len by {
            assert(coded[k + rp[t].0].len() == len);
        }
        lemma_shard_fault(
            op,
            k,
            len,
            CodecError::InvalidOriginalShardIndex,
            CodecError::DuplicateOriginalShardIndex,
        );
        lemma_shard_fault(
            rp,
            n - k,
            len,
            CodecError::InvalidRecoveryShardIndex,
            CodecError::DuplicateRecoveryShardIndex,
        );
        assert(rp[0].1.len() == len);
    }
}

/// Enough chunks of one coding give back the data.
pub proof fn lemma_round_trip(
    n: int,
    chunks: Seq<(int, Seq<u8>)>,
    data: Seq<u8>,
    data_len: int,
)
    requires
        2 <= n,
        are_enough(n, chunks, data),
        recovery_part(chunks, threshold(n)).len() > 0 ==> forall|p: int|
            0 <= p < recovery_part(chunks, threshold(n))[0].1.len() as int / 2
                ==> #[trigger] restores(
                threshold(n),
                n - threshold(n),
                column_of(by_index(original_part(chunks, threshold(n))), p),
                column_of(by_index(recovery_part(chunks, threshold(n))), p),
            ),
    ensures
        reconstructed(n, chunks, data_len) == Ok::<Seq<u8>, Error>(
            at_most(padded(n, data), data_len),
        ),
{
    let k = threshold(n);
    let rc = n - k;
    let op = original_part(chunks, k);
    let rp = recovery_part(chunks, k);
    let len = shard_len(k, data.len() as int);
    let shards = original_shards(k, data);
    let all = all_original(k, rc, op, rp);
    lemma_coded_chunks(n, data);
    lemma_coded_parts(n, chunks, data);
    lemma_no_fault(n, chunks, data);
    if rp.len() > 0 {
        assert(coded_chunks(n, data)[k + rp[0].0].len() == len);
        assert(rp[0].1.len() == len);
        assert forall|i: int| 0 <= i < k && !has_index(op, i) implies restored_shard(
            k,
            rc,
            by_index(op),
            by_index(rp),
            len,
            i,
        ) == #[trigger] shards[i] by {
            lemma_restored_shard(k, rc, op, rp, shards, len, i);
        }
    }
    assert forall|i: int| 0 <= i < k implies #[trigger] all[i] == shards[i] by {
        if rp.len() == 0 {
            assert(op[i].0 == i);
        } else if has_index(op, i) {
            let t = choose|t: int| 0 <= t < op.len() && (#[trigger] op[t]).0 == i;
            assert(by_index(op)[i] == op[t].1);
        }
    }
    assert(all =~= shards);
}

/// A missing shard is restored from shards of its codeword.
proof fn lemma_restored_shard(
    k: int,
    rc: int,
    op: Seq<(int, Seq<u8>)>,
    rp: Seq<(int, Seq<u8>)>,
    shards: Seq<Seq<u8>>,
    len: int,
    i: int,
)
    requires
        shards.len() == k,
        0 <= i < k,
        !has_index(op, i),
        is_aligned(len),
        forall|a: int| 0 <= a < k ==> (#[trigger] shards[a]).len() == len,
        forall|t: int|
            0 <= t < op.len() ==> 0 <= (#[trigger] op[t]).0 < k && op[t].1 == shards[op[t].0],
        forall|t: int|
            0 <= t < rp.len() ==> 0 <= (#[trigger] rp[t]).0 < rc && rp[t].1 == parity_shards(
                rc,
                shards,
            )[rp[t].0],
        forall|p: int|
            0 <= p < len / 2 ==> #[trigger] restores(
                k,
                rc,
                column_of(by_index(op), p),
                column_of(by_index(rp), p),
            ),
    ensures
        restored_shard(k, rc, by_index(op), by_index(rp), len, i) == shards[i],
{
    let points = |p: int|
        codec::restored(k, rc, column_of(by_index(op), p), column_of(by_index(rp), p))[i];
    assert forall|p: int| 0 <= p < len / 2 implies #[trigger] point(shards[i], p) == points(p) by {
        let word = column(shards, p);
        let given = column_of(by_index(op), p);
        let extra = column_of(by_index(rp), p);
        assert forall|a: int| #[trigger] given.contains_key(a) implies given[a] == word[a] by {
            let t = choose|t: int| 0 <= t < op.len() && (#[trigger] op[t]).0 == a;
            assert(by_index(op)[a] == op[t].1);
        }
        assert forall|j: int| #[trigger] extra.contains_key(j) implies extra[j] == codec::parity(
            k,
            rc,
            word,
        )[j] by {
            let t = choose|t: int| 0 <= t < rp.len() && (#[trigger] rp[t]).0 == j;
            assert(by_index(rp)[j] == rp[t].1);
            let parities = |q: int| codec::parity(k, rc, column(shards, q))[j];
            assert(parity_shards(rc, shards)[j] == shard_of(len as nat, parities));
            lemma_point_of_shard_of(len as nat, parities, p);
        }
        assert(agrees(k, rc, given, extra, word));
        assert(restores(k, rc, given, extra));
        assert(word[i] == point(shards[i], p));
    }
    lemma_shard_is_its_points(shards[i], points);
}

/// The bytes of the first shards are the data up to there, padded with zeroes.
proof fn lemma_concat_prefix(data: Seq<u8>, len: int, shards: Seq<Seq<u8>>)
    requires
        0 <= len,
        forall|i: int|
            0 <= i < shards.len() ==> #[trigger] shards[i] == original_shard(data, i, len),
    ensures
        concat(shards).len() == shards.len() * len,
        forall|b: int|
            0 <= b < shards.len() * len ==> #[trigger] concat(shards)[b] == (if b < data.len() {
                data[b]
            } else {
                0
            }),
    decreases shards.len(),
{
    if shards.len() == 0 {
        assert(shards.len() * len == 0);
    } else {
        let i = shards.len() - 1;
        let rest = shards.drop_last();
        lemma_concat_prefix(data, len, rest);
        assert((i + 1) * len == i * len + len) by (nonlinear_arith);
        assert(concat(shards) == concat(rest) + shards[i]);
        assert forall|b: int| 0 <= b < shards.len() * len implies #[trigger] concat(shards)[b]
            == (if b < data.len() {
            data[b]
        } else {
            0
        }) by {
            if b < i * len {
                assert(concat(shards)[b] == concat(rest)[b]);
            } else {
                assert(concat(shards)[b] == shards[i][b - i * len]);
            }
        }
    }
}

/// The shards of the data one after the other, without the padding, are the data.
pub proof fn lemma_concat_original_shards(k: int, data: Seq<u8>)
    requires
        0 < k,
        data.len() > 0,
    ensures
        at_most(concat(original_shards(k, data)), data.len() as int) == data,
        concat(original_shards(k, data)).len() == k * shard_len(k, data.len() as int),
        data.len() <= concat(original_shards(k, data)).len(),
        forall|b: int|
            data.len() <= b < concat(original_shards(k, data)).len() ==> #[trigger] concat(
                original_shards(k, data),
            )[b] == 0,
{
    let len = shard_len(k, data.len() as int);
    lemma_shard_len(k, data.len() as int);
    let shards = original_shards(k, data);
    lemma_concat_prefix(data, len, shards);
    assert(at_most(concat(shards), data.len() as int) =~= data);
}

/// Too few chunks never give anything back.
pub proof fn lemma_too_few(n: int, chunks: Seq<(int, Seq<u8>)>, data_len: int)
    requires
        is_chunk_count(n),
        natural(chunks),
        chunks.len() < threshold(n),
    ensures
        reconstructed(n, chunks, data_len) is Err,
{
    if n > 1 {
        lemma_parts(chunks, threshold(n));
    }
}

/// Where neither part repeats an index, the chunks do not.
pub proof fn lemma_distinct_parts(chunks: Seq<(int, Seq<u8>)>, k: int)
    requires
        natural(chunks),
        0 <= k,
        distinct(original_part(chunks, k)),
        distinct(recovery_part(chunks, k)),
    ensures
        distinct(chunks),
    decreases chunks.len(),
{
    if chunks.len() > 0 {
        let rest = chunks.drop_last();
        let c = chunks.last();
        let last = chunks.len() - 1;
        assert(chunks =~= rest.push(c));
        assert forall|t: int| 0 <= t < rest.len() implies 0 <= (#[trigger] rest[t]).0 by {
            assert(rest[t] == chunks[t]);
        }
        let op = original_part(chunks, k);
        let op_rest = original_part(rest, k);
        let rp = recovery_part(chunks, k);
        let rp_rest = recovery_part(rest, k);
        let at = original_part(rest, c.0 + 1).len() as int;
        lemma_original_part_push(rest, c, k);
        lemma_parts(rest, k);
        lemma_recovery_has(rest, k);
        if c.0 < k {
            lemma_original_part_split(rest, c.0 + 1, k);
            assert(op == op_rest.insert(at, c));
            assert forall|i: int| 0 <= i < op_rest.len() implies #[trigger] op_rest[i] == (if i
                < at {
                op[i]
            } else {
                op[i + 1]
            }) by {}
            assert(op[at] == c);
        } else {
            assert(rp == rp_rest.push((c.0 - k, c.1)));
            assert(rp[rp_rest.len() as int].0 == c.0 - k);
            assert forall|i: int| 0 <= i < rp_rest.len() implies #[trigger] rp_rest[i]
                == rp[i] by {}
        }
        lemma_distinct_parts(rest, k);
        assert forall|t: int| 0 <= t < last implies (#[trigger] chunks[t]).0 != c.0 by {
            assert(rest[t] == chunks[t]);
            if chunks[t].0 == c.0 {
                if c.0 < k {
                    assert(op_rest.contains(rest[t]));
                    let i = choose|i: int| 0 <= i < op_rest.len() && op_rest[i] == rest[t];
                    assert(op_rest[i].0 == c.0);
                } else {
                    let i = choose|i: int|
                        0 <= i < rp_rest.len() && (#[trigger] rp_rest[i]).0 == rest[t].0 - k;
                    assert(rp_rest[i].0 == c.0 - k);
                }
            }
        }
        assert forall|t: int, u: int| 0 <= t < u < chunks.len() implies (#[trigger] chunks[t]).0
            != (#[trigger] chunks[u]).0 by {
            if u < last {
                assert(rest[t] == chunks[t] && rest[u] == chunks[u]);
            }
        }
    }
}

/// Each chunk from `k` on stands in the recovery part.
proof fn lemma_recovery_has(chunks: Seq<(int, Seq<u8>)>, k: int)
    ensures
        forall|t: int|
            0 <= t < chunks.len() && (#[trigger] chunks[t]).0 >= k ==> has_index(
                recovery_part(chunks, k),
                chunks[t].0 - k,
            ),
    decreases chunks.len(),
{
    if chunks.len() > 0 {
        let rest = chunks.drop_last();
        let c = chunks.last();
        lemma_recovery_has(rest, k);
        let part = recovery_part(chunks, k);
        let earlier = recovery_part(rest, k);
        assert forall|t: int| 0 <= t < chunks.len() && (#[trigger] chunks[t]).0 >= k implies
            has_index(part, chunks[t].0 - k) by {
            if t < rest.len() {
                assert(rest[t] == chunks[t]);
                let i = choose|i: int|
                    0 <= i < earlier.len() && (#[trigger] earlier[i]).0 == chunks[t].0 - k;
                assert(part[i].0 == chunks[t].0 - k);
            } else {
                assert(part[earlier.len() as int].0 == c.0 - k);
            }
        }
    }
}

/// Chunks that repeat an index never give anything back.
pub proof fn lemma_repeated_index(n: int, chunks: Seq<(int, Seq<u8>)>, data_len: int)
    requires
        2 <= n,
        natural(chunks),
        !distinct(chunks),
    ensures
        reconstructed(n, chunks, data_len) is Err,
{
    let k = threshold(n);
    let op = original_part(chunks, k);
    let rp = recovery_part(chunks, k);
    if reconstructed(n, chunks, data_len) is Ok {
        if rp.len() > 0 {
            lemma_shard_fault(
                op,
                k,
                rp[0].1.len() as int,
                CodecError::InvalidOriginalShardIndex,
                CodecError::DuplicateOriginalShardIndex,
            );
            lemma_shard_fault(
                rp,
                n - k,
                rp[0].1.len() as int,
                CodecError::InvalidRecoveryShardIndex,
                CodecError::DuplicateRecoveryShardIndex,
            );
        }
        lemma_distinct_parts(chunks, k);
    }
}

/// Too few of the chunks into which data was coded are answered by
/// [`Error::NotEnoughChunks`].
pub proof fn lemma_too_few_coded(
    n: int,
    chunks: Seq<(int, Seq<u8>)>,
    data: Seq<u8>,
    data_len: int,
)
    requires
        are_some(n, chunks, data),
        chunks.len() < threshold(n),
    ensures
        reconstructed(n, chunks, data_len) == Err::<Seq<u8>, Error>(Error::NotEnoughChunks),
{
    if n > 1 {
        lemma_no_fault(n, chunks, data);
    }
}

/// A third of the chunks, rounded up, is enough, and there always are as many.
pub proof fn lemma_threshold(n: int)
    requires
        is_chunk_count(n),
    ensures
        n <= 3 * threshold(n) < n + 3,
        1 <= threshold(n) <= n,
{
}

/// The padded data cut off anywhere is the data cut off there, or padded with zeroes
/// up to there. Cut off at the end of the data it is the data.
pub proof fn lemma_padded(n: int, data: Seq<u8>, data_len: int)
    requires
        is_chunk_count(n),
        data.len() > 0,
        0 <= data_len,
    ensures
        data.len() <= padded(n, data).len(),
        n > 1 ==> padded(n, data).len() == threshold(n) * shard_len(
            threshold(n),
            data.len() as int,
        ),
        data_len <= padded(n, data).len() ==> at_most(padded(n, data), data_len) == resized(
            data,
            data_len,
        ),
        at_most(padded(n, data), data.len() as int) == data,
{
    let whole = padded(n, data);
    if n > 1 {
        lemma_concat_original_shards(threshold(n), data);
        assert forall|b: int| 0 <= b < data.len() implies whole[b] == data[b] by {
            assert(at_most(whole, data.len() as int)[b] == data[b]);
        }
    }
    if data_len <= whole.len() {
        assert(at_most(whole, data_len) =~= resized(data, data_len));
    }
    assert(at_most(whole, data.len() as int) =~= data);
}

} // verus!
