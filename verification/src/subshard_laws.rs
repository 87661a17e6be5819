//! What holds of every call that codes segments or restores them.

use std::collections::BTreeMap;

use vstd::prelude::*;
use vstd::std_specs::iter::IteratorSpec;

use crate::chunks::ChunkIndex;
use crate::codec::{has_index, parity, restored};
use crate::error::Error;
use crate::segment::{
    batch_points, coded_point, coded_subshard, data_index_to_chunk_index, is_wanted,
    lemma_point_of_subshard_of, ori_chunk_to_data, read_data, segment_row, shard_at,
    subshard_point, Segment, SubShard, TOTAL_SHARDS,
};
use crate::layout::is_zero;
use crate::selection::{
    are_of, are_subshards_of, carried, chunk_lists, given_original, given_recovery,
    lemma_batch_fits, run_of, run_point, run_segment,
};
use crate::selection_laws::{
    has_enough, lemma_aligned_come_out_at_once, lemma_all_come_out, lemma_what_comes_out,
};
use crate::subshard_decoder::{found_bytes, is_restored, SubShardDecoder};
use crate::subshard_encoder::{batch_segment, chunk_at, SubShardEncoder};
use crate::turn_laws::{
    are_turns, indexes_of, is_any_there, is_in_order, is_seated, lemma_aligned, lemma_bytes_at_turn,
    lemma_each_turn_brings_one, lemma_first_item, lemma_in_order, lemma_indexes_of,
    lemma_is_any_there, lemma_last_item, lemma_seats, lemma_turns, numbers, Turn,
};

verus! {

/// Any batch of at most 16 segments that are numbered from zero on is coded, and no other.
pub proof fn lemma_batches_that_are_coded(
    encoder: &mut SubShardEncoder,
    data: &[Segment],
    r: Result<Vec<Box<[SubShard; TOTAL_SHARDS]>>, Error>,
)
    requires
        call_ensures(SubShardEncoder::construct_chunks, (encoder, data), r),
    ensures
        r is Ok <==> data@.len() <= 16 && forall|s: int|
            0 <= s < data@.len() ==> (#[trigger] data@[s]).index == s,
        r matches Err(e) ==> e == Error::BadPayload,
        r matches Ok(chunks) ==> chunks@.len() == 16,
{
}

/// The bytes of a segment are dealt out to 342 subshards two by two, in turn; the rest of
/// these subshards is zero. All subshards of a segment that is missing are zero.
pub proof fn lemma_subshards_hold_segment(
    encoder: &mut SubShardEncoder,
    data: &[Segment],
    chunks: Vec<Box<[SubShard; TOTAL_SHARDS]>>,
    s: int,
    c: int,
    b: int,
)
    requires
        call_ensures(SubShardEncoder::construct_chunks, (encoder, data), Ok(chunks)),
        0 <= s < 16,
        0 <= c < 1026,
        0 <= b < 12,
    ensures
        s >= data@.len() ==> chunks@[s]@[c]@[b] == 0,
        s < data@.len() && c < 342 ==> ({
            let at = (b / 2) * 684 + 2 * c + b % 2;
            chunks@[s]@[c]@[b] == if at < 4096 {
                data@[s].data@[at]
            } else {
                0
            }
        }),
{
    let segment = batch_segment(data@, s);
    assert(chunk_at(chunks@, s, c) == chunks@[s]@[c]@);
    assert(chunk_at(chunks@, s, c) == coded_subshard(segment, c));
    lemma_point_of_subshard_of(|q: int| coded_point(segment, q, c), b / 2);
    assert(subshard_point(chunk_at(chunks@, s, c), b / 2) == coded_point(segment, b / 2, c));
}

/// Point `q` of subshard `342 + j` of a segment is number `j` of the parities that the
/// codec makes of the points `q` of the first 342 subshards.
pub proof fn lemma_subshards_hold_parity(
    encoder: &mut SubShardEncoder,
    data: &[Segment],
    chunks: Vec<Box<[SubShard; TOTAL_SHARDS]>>,
    s: int,
    j: int,
    q: int,
)
    requires
        call_ensures(SubShardEncoder::construct_chunks, (encoder, data), Ok(chunks)),
        0 <= s < 16,
        0 <= j < 684,
        0 <= q < 6,
    ensures
        ({
            let of = chunks@[s]@;
            let points = Seq::new(342, |a: int| (of[a]@[2 * q], of[a]@[2 * q + 1]));
            parity(342, 684, points)[j] == (of[342 + j]@[2 * q], of[342 + j]@[2 * q + 1])
        }),
{
    let segment = batch_segment(data@, s);
    let of = chunks@[s]@;
    let points = Seq::new(342, |a: int| (of[a]@[2 * q], of[a]@[2 * q + 1]));
    assert forall|c: int| 0 <= c < 1026 implies subshard_point((#[trigger] of[c])@, q)
        == coded_point(segment, q, c) by {
        assert(chunk_at(chunks@, s, c) == of[c]@);
        assert(chunk_at(chunks@, s, c) == coded_subshard(segment, c));
        lemma_point_of_subshard_of(|p: int| coded_point(segment, p, c), q);
    }
    assert(points =~= segment_row(segment, q)) by {
        assert forall|a: int| 0 <= a < 342 implies points[a] == segment_row(segment, q)[a] by {
            assert(subshard_point(of[a]@, q) == coded_point(segment, q, a));
        }
    }
    assert(subshard_point(of[342 + j]@, q) == coded_point(segment, q, 342 + j));
}

/// The place of a byte of the data can be told from it, and is one that there is.
pub proof fn lemma_data_index(index: usize, r: (usize, usize, usize))
    requires
        call_ensures(data_index_to_chunk_index, (index,), r),
    ensures
        r.2 < 342,
        r.1 < 32,
        2 * ((r.0 * 32 + r.1) * 342 + r.2) + index % 2 == index,
{
}

/// Data is read two bytes at a time from the shards in turn, from block to block, until
/// there is enough of it, but at most to the end of the third block; what follows is zero.
/// A shard that is missing stops it.
pub proof fn lemma_data_is_read(
    shards: &BTreeMap<usize, Vec<u8>>,
    start_data: usize,
    data_len: Option<usize>,
    r: Option<[u8; 4096]>,
    m: int,
)
    requires
        call_ensures(ori_chunk_to_data, (shards, start_data, data_len), r),
        0 <= m < 2048,
    ensures
        ({
            let t = start_data as int / 2 + m;
            let shard = (t % 342) as usize;
            let at = (t / 342 / 32) * 64 + t / 342 % 32;
            let is_read = m == 0 || ((data_len matches Some(len) ==> 2 * m < len) && (start_data
                >= 65664 || t < 32832));
            &&& is_read && !shards@.contains_key(shard) ==> r is None
            &&& r matches Some(data) ==> is_read ==> data@[2 * m] == shards@[shard]@[at] && data@[2
                * m + 1] == shards@[shard]@[at + 32]
            &&& r matches Some(data) ==> !is_read ==> data@[2 * m] == 0 && data@[2 * m + 1] == 0
        }),
        r is None ==> exists|a: usize| a < 342 && !#[trigger] shards@.contains_key(a),
{
    let first = start_data as int / 2;
    let t = first + m;
    let is_read = m == 0 || ((data_len matches Some(len) ==> 2 * m < len) && (start_data >= 65664
        || t < 32832));
    assert(batch_points() == 32832);
    assert(is_wanted(first, data_len, m) == is_read);
    assert(shard_at(t) == (t % 342) as usize);
    if r is Some {
        let all = read_data(shards@, first, data_len);
        assert((2 * m + 1) / 2 == m && (2 * m) / 2 == m && (2 * m + 1) % 2 == 1);
        assert(r->0@[2 * m] == all[2 * m] && r->0@[2 * m + 1] == all[2 * m + 1]);
    } else {
        let i = choose|i: int| #[trigger]
            is_wanted(first, data_len, i) && !shards@.contains_key(shard_at(first + i));
        assert(!shards@.contains_key(shard_at(first + i)));
    }
}

/// Subshards are always answered with segments, and all of them are looked at. Where a
/// segment would be seated that has no number below 16, [`SubShardDecoder::try_reconstruct`]
/// answers that there is no place for it; it never does if all numbers are below 16, and
/// else gives the same segments.
pub proof fn lemma_decoder_answers<'a, I: Iterator<Item = (u8, ChunkIndex, &'a SubShard)>>(
    decoder: &mut SubShardDecoder,
    given: &mut I,
    other: &mut SubShardDecoder,
    same: &mut I,
    items: Seq<(u8, ChunkIndex, &'a SubShard)>,
    r: Result<(Vec<(u8, Segment)>, usize), Error>,
    tried: Result<Option<(Vec<(u8, Segment)>, usize)>, Error>,
)
    requires
        call_ensures(SubShardDecoder::reconstruct::<I>, (decoder, given), r),
        call_ensures(SubShardDecoder::try_reconstruct::<I>, (other, same), tried),
        items == (*old(given)).remaining(),
        items == (*old(same)).remaining(),
    ensures
        r is Ok,
        tried is Ok,
        (*final(given)).remaining().len() == 0,
        (*final(same)).remaining().len() == 0,
        (forall|t: int| 0 <= t < items.len() ==> (#[trigger] items[t]).0 < 16) ==> tried->Ok_0
            is Some,
        tried->Ok_0 matches Some((found, runs)) ==> {
            &&& runs == r->Ok_0.1
            &&& found@.len() == r->Ok_0.0@.len()
            &&& forall|i: int|
                0 <= i < found@.len() ==> (#[trigger] found@[i]).0 == r->Ok_0.0@[i].0
                    && found@[i].1.data@ == r->Ok_0.0@[i].1.data@ && found@[i].1.index
                    == r->Ok_0.0@[i].1.index
        },
{
    lemma_batch_fits(items);
    if tried->Ok_0 is Some {
        let found = tried->Ok_0->Some_0.0@;
        let also = r->Ok_0.0@;
        assert(found_bytes(found) == found_bytes(also));
        assert(found_bytes(found).len() == found.len() && found_bytes(also).len() == also.len());
        assert forall|i: int| 0 <= i < found.len() implies (#[trigger] found[i]).0 == also[i].0
            && found[i].1.data@ == also[i].1.data@ && found[i].1.index == also[i].1.index by {
            assert(found_bytes(found)[i] == found_bytes(also)[i]);
            assert(also[i].1.index == also[i].0);
        }
    }
}

/// Whatever is restored from subshards of coded segments is a segment that was coded, with
/// its number as index. None comes out twice, and none with subshards of fewer than 342
/// chunks.
pub proof fn lemma_restored_segments_were_coded<
    'a,
    I: Iterator<Item = (u8, ChunkIndex, &'a SubShard)>,
>(
    encoder: &mut SubShardEncoder,
    data: &[Segment],
    chunks: Vec<Box<[SubShard; TOTAL_SHARDS]>>,
    decoder: &mut SubShardDecoder,
    given: &mut I,
    items: Seq<(u8, ChunkIndex, &'a SubShard)>,
    found: Vec<(u8, Segment)>,
    runs: usize,
)
    requires
        call_ensures(SubShardEncoder::construct_chunks, (encoder, data), Ok(chunks)),
        call_ensures(SubShardDecoder::reconstruct::<I>, (decoder, given), Ok((found, runs)))
            || call_ensures(
            SubShardDecoder::try_reconstruct::<I>,
            (decoder, given),
            Ok(Some((found, runs))),
        ),
        items == (*old(given)).remaining(),
        forall|t: int|
            0 <= t < items.len() ==> (#[trigger] items[t]).0 < 16 && items[t].1.0 < 1026
                && items[t].2@ == chunks@[items[t].0 as int]@[items[t].1.0 as int]@,
    ensures
        forall|i: int|
            0 <= i < found@.len() ==> (#[trigger] found@[i]).1.index == found@[i].0 && (
            found@[i].0 < data@.len() ==> found@[i].1.data@ == data@[found@[i].0 as int].data@),
        forall|i: int, b: int|
            0 <= i < found@.len() && found@[i].0 >= data@.len() && 0 <= b < 4096
                ==> #[trigger] found@[i].1.data@[b] == 0,
        forall|i: int, j: int|
            0 <= i < j < found@.len() ==> (#[trigger] found@[i]).0 != (#[trigger] found@[j]).0,
        forall|i: int|
            0 <= i < found@.len() ==> indexes_of(items, (#[trigger] found@[i]).0 as int).len()
                >= 342,
{
    let batch = data@;
    assert forall|t: int| 0 <= t < items.len() implies (#[trigger] items[t]).2@ == coded_subshard(
        batch_segment(batch, items[t].0 as int),
        items[t].1.0 as int,
    ) by {
        assert(chunk_at(chunks@, items[t].0 as int, items[t].1.0 as int) == items[t].2@);
    }
    assert(are_subshards_of(items, batch));
    assert(is_restored(items, found@, runs as int));
    let out = found_bytes(found@);
    assert(are_of(out, batch));
    assert forall|i: int| 0 <= i < found@.len() implies (#[trigger] found@[i]).1.data@
        == batch_segment(batch, found@[i].0 as int) by {
        assert(out[i].1 == batch_segment(batch, out[i].0));
    }
    let lists = chunk_lists(items);
    lemma_what_comes_out(lists, 256);
    assert forall|i: int, j: int| 0 <= i < j < found@.len() implies (#[trigger] found@[i]).0 != (
    #[trigger] found@[j]).0 by {
        assert(out[i].0 != out[j].0);
    }
    assert forall|i: int| 0 <= i < found@.len() implies indexes_of(
        items,
        (#[trigger] found@[i]).0 as int,
    ).len() >= 342 by {
        assert(has_enough(lists, out[i].0));
        lemma_indexes_of(items, out[i].0);
    }
}

/// Segments come out turn by turn, as [`crate::turn_laws`] says, each with its number as
/// index.
pub proof fn lemma_restored_turn_by_turn<
    'a,
    I: Iterator<Item = (u8, ChunkIndex, &'a SubShard)>,
>(
    decoder: &mut SubShardDecoder,
    given: &mut I,
    items: Seq<(u8, ChunkIndex, &'a SubShard)>,
    found: Vec<(u8, Segment)>,
    runs: usize,
) -> (turns: Seq<Turn>)
    requires
        call_ensures(SubShardDecoder::reconstruct::<I>, (decoder, given), Ok((found, runs)))
            || call_ensures(
            SubShardDecoder::try_reconstruct::<I>,
            (decoder, given),
            Ok(Some((found, runs))),
        ),
        items == (*old(given)).remaining(),
        forall|t: int| 0 <= t < items.len() ==> (#[trigger] items[t]).1.0 < 1026,
    ensures
        are_turns(items, turns),
        turns[256].runs == runs,
        turns[256].out == Seq::new(found@.len(), |i: int| found@[i].0 as int),
        forall|i: int|
            0 <= i < found@.len() ==> (#[trigger] found@[i]).1.index == found@[i].0,
{
    let turns = lemma_turns(items);
    let out = found_bytes(found@);
    assert(numbers(out) =~= Seq::new(found@.len(), |i: int| found@[i].0 as int));
    turns
}

/// There is no place for a segment just when one whose number is not below 16 is seated
/// at some turn.
pub proof fn lemma_no_place<'a, I: Iterator<Item = (u8, ChunkIndex, &'a SubShard)>>(
    decoder: &mut SubShardDecoder,
    given: &mut I,
    items: Seq<(u8, ChunkIndex, &'a SubShard)>,
    r: Result<Option<(Vec<(u8, Segment)>, usize)>, Error>,
) -> (turns: Seq<Turn>)
    requires
        call_ensures(SubShardDecoder::try_reconstruct::<I>, (decoder, given), r),
        items == (*old(given)).remaining(),
        forall|t: int| 0 <= t < items.len() ==> (#[trigger] items[t]).1.0 < 1026,
    ensures
        are_turns(items, turns),
        r == Ok::<Option<(Vec<(u8, Segment)>, usize)>, Error>(None) <==> exists|v: int, s: int|
            {
                &&& 0 <= v < 256
                &&& is_any_there(items, v)
                &&& !turns[v].done.contains(v)
                &&& #[trigger] is_seated(items, turns[v], s)
                &&& s >= 16
            },
{
    let turns = lemma_turns(items);
    lemma_seats(items, turns);
    turns
}

/// Where subshards of at least 342 chunks are given of each segment of which there are
/// any, some segment comes out at the turn of each that has not come out yet: no segment
/// is passed over for another reason. `cuts[v]` segments have come out before the turn of
/// segment `v`.
pub proof fn lemma_none_is_passed_over<
    'a,
    I: Iterator<Item = (u8, ChunkIndex, &'a SubShard)>,
>(
    decoder: &mut SubShardDecoder,
    given: &mut I,
    items: Seq<(u8, ChunkIndex, &'a SubShard)>,
    found: Vec<(u8, Segment)>,
    runs: usize,
) -> (cuts: Seq<int>)
    requires
        call_ensures(SubShardDecoder::reconstruct::<I>, (decoder, given), Ok((found, runs)))
            || call_ensures(
            SubShardDecoder::try_reconstruct::<I>,
            (decoder, given),
            Ok(Some((found, runs))),
        ),
        items == (*old(given)).remaining(),
        forall|t: int| 0 <= t < items.len() ==> (#[trigger] items[t]).1.0 < 1026,
        forall|t: int|
            0 <= t < items.len() ==> indexes_of(items, (#[trigger] items[t]).0 as int).len()
                >= 342,
    ensures
        cuts.len() == 257,
        cuts[0] == 0,
        cuts[256] == found@.len(),
        forall|v: int| 0 <= v < 256 ==> #[trigger] cuts[v] <= cuts[v + 1],
        forall|v: int|
            0 <= v < 256 ==> (#[trigger] cuts[v] < cuts[v + 1] <==> is_any_there(items, v) && !(
            exists|i: int| 0 <= i < cuts[v] && (#[trigger] found@[i]).0 == v)),
{
    assert forall|s: int| #[trigger] is_any_there(items, s) implies indexes_of(items, s).len()
        >= 342 by {
        let t = choose|t: int| 0 <= t < items.len() && (#[trigger] items[t]).0 == s;
        assert(indexes_of(items, items[t].0 as int).len() >= 342);
    }
    let turns = lemma_turns(items);
    let out = turns[256].out;
    let cuts = lemma_each_turn_brings_one(items, turns);
    assert(out =~= Seq::new(found@.len(), |i: int| found@[i].0 as int)) by {
        assert(numbers(found_bytes(found@)) =~= Seq::new(
            found@.len(),
            |i: int| found@[i].0 as int,
        ));
    }
    assert forall|v: int| 0 <= v < 256 implies out.take(cuts[v]).contains(v) == (exists|i: int|
        0 <= i < #[trigger] cuts[v] && (#[trigger] found@[i]).0 == v) by {
        if out.take(cuts[v]).contains(v) {
            let i = choose|i: int| 0 <= i < cuts[v] && out.take(cuts[v])[i] == v;
            assert(found@[i].0 == v);
        }
        if exists|i: int| 0 <= i < cuts[v] && (#[trigger] found@[i]).0 == v {
            let i = choose|i: int| 0 <= i < cuts[v] && (#[trigger] found@[i]).0 == v;
            assert(out.take(cuts[v])[i] == v);
        }
    }
    cuts
}

/// Of two segments with subshards of at least 342 chunks each, the one with the larger
/// number always comes out.
pub proof fn lemma_later_of_two_comes_out<
    'a,
    I: Iterator<Item = (u8, ChunkIndex, &'a SubShard)>,
>(
    decoder: &mut SubShardDecoder,
    given: &mut I,
    items: Seq<(u8, ChunkIndex, &'a SubShard)>,
    found: Vec<(u8, Segment)>,
    runs: usize,
    s: int,
    t: int,
)
    requires
        call_ensures(SubShardDecoder::reconstruct::<I>, (decoder, given), Ok((found, runs)))
            || call_ensures(
            SubShardDecoder::try_reconstruct::<I>,
            (decoder, given),
            Ok(Some((found, runs))),
        ),
        items == (*old(given)).remaining(),
        forall|t: int| 0 <= t < items.len() ==> (#[trigger] items[t]).1.0 < 1026,
        s < t,
        is_any_there(items, s),
        is_any_there(items, t),
        forall|u: int|
            0 <= u < items.len() ==> (#[trigger] items[u]).0 == s || items[u].0 == t,
        indexes_of(items, s).len() >= 342,
        indexes_of(items, t).len() >= 342,
    ensures
        exists|i: int| 0 <= i < found@.len() && (#[trigger] found@[i]).0 == t,
{
    let cuts = lemma_none_is_passed_over(decoder, given, items, found, runs);
    let out = found_bytes(found@);
    lemma_what_comes_out(chunk_lists(items), 256);
    assert forall|i: int| 0 <= i < found@.len() implies (#[trigger] found@[i]).0 == s
        || found@[i].0 == t by {
        assert(has_enough(chunk_lists(items), out[i].0));
        lemma_indexes_of(items, out[i].0);
        if indexes_of(items, out[i].0) =~= Set::empty() {
        } else {
            let c = choose|c: int| indexes_of(items, out[i].0).contains(c);
            let u = choose|u: int|
                0 <= u < items.len() && (#[trigger] items[u]).0 == out[i].0 && items[u].1.0 == c;
            assert(items[u].0 == found@[i].0);
        }
    }
    assert forall|v: int| #[trigger] is_any_there(items, v) implies v == s || v == t by {}
    lemma_cuts_below(items, cuts, s, s);
    let u = choose|u: int| 0 <= u < items.len() && (#[trigger] items[u]).0 == s;
    let w = choose|w: int| 0 <= w < items.len() && (#[trigger] items[w]).0 == t;
    assert(0 <= s < t < 256);
    assert(cuts[s] < cuts[s + 1]);
    lemma_cuts_grow(cuts, s + 1, t);
    lemma_cuts_grow(cuts, t, 256);
    lemma_cuts_grow(cuts, t + 1, 256);
    if found@[0].0 != t && !(exists|i: int| 0 <= i < cuts[t] && (#[trigger] found@[i]).0 == t) {
        assert(cuts[t] < cuts[t + 1]);
        let i = cuts[t];
        assert(out[0].0 != out[i].0);
        assert(found@[i].0 == t);
    }
}

/// Nothing comes out before the turn of the first segment.
proof fn lemma_cuts_below(
    items: Seq<(u8, ChunkIndex, &SubShard)>,
    cuts: Seq<int>,
    s: int,
    v: int,
)
    requires
        cuts[0] == 0,
        0 <= v <= s <= 256,
        forall|w: int| 0 <= w < s ==> !#[trigger] is_any_there(items, w),
        forall|w: int| 0 <= w < 256 ==> #[trigger] cuts[w] <= cuts[w + 1],
        forall|w: int|
            0 <= w < 256 && !is_any_there(items, w) ==> !(#[trigger] cuts[w] < cuts[w + 1]),
    ensures
        cuts[v] == 0,
    decreases v,
{
    if v > 0 {
        lemma_cuts_below(items, cuts, s, v - 1);
        assert(cuts[v - 1] <= cuts[v - 1 + 1]);
        assert(!is_any_there(items, v - 1));
    }
}

/// What has come out stays out.
proof fn lemma_cuts_grow(cuts: Seq<int>, v: int, w: int)
    requires
        0 <= v <= w <= 256,
        forall|u: int| 0 <= u < 256 ==> #[trigger] cuts[u] <= cuts[u + 1],
    ensures
        cuts[v] <= cuts[w],
    decreases w,
{
    if v < w {
        lemma_cuts_grow(cuts, v, w - 1);
        assert(cuts[w - 1] <= cuts[w - 1 + 1]);
    }
}

/// Where of any two segments the one with the smaller number starts with an earlier
/// chunk, or both have the same chunks, just those come out of which subshards of at least
/// 342 chunks are given, by ascending number.
pub proof fn lemma_segments_in_order_come_out<
    'a,
    I: Iterator<Item = (u8, ChunkIndex, &'a SubShard)>,
>(
    decoder: &mut SubShardDecoder,
    given: &mut I,
    items: Seq<(u8, ChunkIndex, &'a SubShard)>,
    found: Vec<(u8, Segment)>,
    runs: usize,
)
    requires
        call_ensures(SubShardDecoder::reconstruct::<I>, (decoder, given), Ok((found, runs)))
            || call_ensures(
            SubShardDecoder::try_reconstruct::<I>,
            (decoder, given),
            Ok(Some((found, runs))),
        ),
        items == (*old(given)).remaining(),
        forall|t: int| 0 <= t < items.len() ==> (#[trigger] items[t]).1.0 < 1026,
        forall|s: int, t: int|
            #![trigger is_any_there(items, s), is_any_there(items, t)]
            s < t && is_any_there(items, s) && is_any_there(items, t) ==> is_in_order(items, s, t),
    ensures
        forall|s: int|
            #![trigger indexes_of(items, s)]
            indexes_of(items, s).len() >= 342 <==> exists|i: int|
                0 <= i < found@.len() && (#[trigger] found@[i]).0 == s,
        forall|i: int, j: int|
            0 <= i < j < found@.len() ==> (#[trigger] found@[i]).0 < (#[trigger] found@[j]).0,
{
    lemma_in_order(items);
    lemma_all_come_out(items);
    lemma_came_out(items, found@);
}

/// What has come out, and what had enough chunks.
proof fn lemma_came_out(items: Seq<(u8, ChunkIndex, &SubShard)>, found: Seq<(u8, Segment)>)
    requires
        forall|t: int| 0 <= t < items.len() ==> (#[trigger] items[t]).1.0 < 1026,
        forall|s: int| #[trigger]
            has_index(found_bytes(found), s) <==> has_enough(chunk_lists(items), s),
        forall|i: int, j: int|
            0 <= i < j < found_bytes(found).len() ==> (#[trigger] found_bytes(found)[i]).0 < (
            #[trigger] found_bytes(found)[j]).0,
    ensures
        forall|s: int|
            #![trigger indexes_of(items, s)]
            indexes_of(items, s).len() >= 342 <==> exists|i: int|
                0 <= i < found.len() && (#[trigger] found[i]).0 == s,
        forall|i: int, j: int|
            0 <= i < j < found.len() ==> (#[trigger] found[i]).0 < (#[trigger] found[j]).0,
{
    let out = found_bytes(found);
    assert(out.len() == found.len());
    assert forall|s: int|
        #![trigger indexes_of(items, s)]
        indexes_of(items, s).len() >= 342 <==> exists|i: int|
            0 <= i < found.len() && (#[trigger] found[i]).0 == s by {
        lemma_indexes_of(items, s);
        assert(has_index(out, s) <==> has_enough(chunk_lists(items), s));
        if has_index(out, s) {
            let i = choose|i: int| 0 <= i < out.len() && (#[trigger] out[i]).0 == s;
            assert(found[i].0 == s);
        }
        if exists|i: int| 0 <= i < found.len() && (#[trigger] found[i]).0 == s {
            let i = choose|i: int| 0 <= i < found.len() && (#[trigger] found[i]).0 == s;
            assert(out[i].0 == s);
        }
    }
    assert forall|i: int, j: int| 0 <= i < j < found.len() implies (#[trigger] found[i]).0 < (
    #[trigger] found[j]).0 by {
        assert(out[i].0 < out[j].0);
    }
}

/// Segments that are all given with the same chunks come out of one run of the codec if
/// these are at least 342, else there is none.
pub proof fn lemma_aligned_segments_take_one_run<
    'a,
    I: Iterator<Item = (u8, ChunkIndex, &'a SubShard)>,
>(
    decoder: &mut SubShardDecoder,
    given: &mut I,
    items: Seq<(u8, ChunkIndex, &'a SubShard)>,
    found: Vec<(u8, Segment)>,
    runs: usize,
    s: int,
)
    requires
        call_ensures(SubShardDecoder::reconstruct::<I>, (decoder, given), Ok((found, runs)))
            || call_ensures(
            SubShardDecoder::try_reconstruct::<I>,
            (decoder, given),
            Ok(Some((found, runs))),
        ),
        items == (*old(given)).remaining(),
        forall|t: int| 0 <= t < items.len() ==> (#[trigger] items[t]).1.0 < 1026,
        is_any_there(items, s),
        forall|t: int, u: int|
            #![trigger is_any_there(items, t), is_any_there(items, u)]
            is_any_there(items, t) && is_any_there(items, u) ==> indexes_of(items, t)
                == indexes_of(items, u),
    ensures
        indexes_of(items, s).len() >= 342 ==> runs == 1 && exists|i: int|
            0 <= i < found@.len() && (#[trigger] found@[i]).0 == s,
        indexes_of(items, s).len() < 342 ==> runs == 0 && found@.len() == 0,
{
    lemma_aligned(items);
    lemma_is_any_there(items, s);
    lemma_aligned_come_out_at_once(items, s);
    lemma_indexes_of(items, s);
    lemma_all_come_out(items);
    lemma_came_out(items, found@);
    if indexes_of(items, s).len() < 342 && found@.len() > 0 {
        let u = found@[0].0 as int;
        assert(indexes_of(items, u).len() >= 342);
        assert(indexes_of(items, u).len() > 0);
        assert(exists|c: int| indexes_of(items, u).contains(c)) by {
            if !(exists|c: int| indexes_of(items, u).contains(c)) {
                assert(indexes_of(items, u) =~= Set::empty());
            }
        }
        let c = choose|c: int| indexes_of(items, u).contains(c);
        let t = choose|t: int|
            0 <= t < items.len() && (#[trigger] items[t]).0 == u && items[t].1.0 == c;
        assert(items[t].0 == u);
        assert(is_any_there(items, u));
    }
}

/// What a segment that comes out at the turn of segment `v` is made of, whatever the
/// subshards are. Of each chunk `c` that is picked item `taken[c]` is taken: of several
/// the last where the chunk is picked first, else the first. Point `m` of the segment is
/// point `m / 342` of the subshard of chunk `m % 342` if that is picked; else the codec
/// restores it from the points `m / 342` of those that are.
pub proof fn lemma_bytes_of_restored_segment<
    'a,
    I: Iterator<Item = (u8, ChunkIndex, &'a SubShard)>,
>(
    decoder: &mut SubShardDecoder,
    given: &mut I,
    items: Seq<(u8, ChunkIndex, &'a SubShard)>,
    found: Vec<(u8, Segment)>,
    runs: usize,
    v: int,
    i: int,
    taken: Map<int, int>,
    m: int,
) -> (turns: Seq<Turn>)
    requires
        call_ensures(SubShardDecoder::reconstruct::<I>, (decoder, given), Ok((found, runs)))
            || call_ensures(
            SubShardDecoder::try_reconstruct::<I>,
            (decoder, given),
            Ok(Some((found, runs))),
        ),
        items == (*old(given)).remaining(),
        forall|t: int| 0 <= t < items.len() ==> (#[trigger] items[t]).1.0 < 1026,
        0 <= v < 256,
        0 <= m < 2048,
    ensures
        are_turns(items, turns),
        turns[256].out == Seq::new(found@.len(), |j: int| found@[j].0 as int),
        ({
            let turn = turns[v];
            let s = found@[i].0 as int;
            let is_taken = forall|c: int| #[trigger]
                turn.picks.contains(c) ==> 0 <= taken[c] < items.len() && items[taken[c]].0 == s
                    && items[taken[c]].1.0 == c && (c == turn.first ==> forall|u: int|
                    taken[c] < u < items.len() ==> (#[trigger] items[u]).0 != s || items[u].1.0
                        != c) && (c != turn.first ==> forall|u: int|
                    0 <= u < taken[c] ==> (#[trigger] items[u]).0 != s || items[u].1.0 != c);
            let q = m / 342;
            let a = m % 342;
            let point = |c: int| (items[taken[c]].2@[2 * q], items[taken[c]].2@[2 * q + 1]);
            let original = Map::new(|c: int| 0 <= c < 342 && turn.picks.contains(c), point);
            let recovery = Map::new(
                |j: int| 0 <= j && turn.picks.contains(j + 342),
                |j: int| point(j + 342),
            );
            turn.out.len() <= i < turns[v + 1].out.len() && is_taken ==> (
                found@[i].1.data@[2 * m],
                found@[i].1.data@[2 * m + 1],
            ) == if turn.picks.contains(a) {
                point(a)
            } else {
                restored(342, 684, original, recovery)[a]
            }
        }),
{
    let lists = chunk_lists(items);
    let turns = lemma_turns(items);
    let out = found_bytes(found@);
    assert(numbers(out) =~= Seq::new(found@.len(), |j: int| found@[j].0 as int));
    let turn = turns[v];
    let s = found@[i].0 as int;
    let q = m / 342;
    let a = m % 342;
    let point = |c: int| (items[taken[c]].2@[2 * q], items[taken[c]].2@[2 * q + 1]);
    let original = Map::new(|c: int| 0 <= c < 342 && turn.picks.contains(c), point);
    let recovery = Map::new(
        |j: int| 0 <= j && turn.picks.contains(j + 342),
        |j: int| point(j + 342),
    );
    let is_taken = forall|c: int| #[trigger]
        turn.picks.contains(c) ==> 0 <= taken[c] < items.len() && items[taken[c]].0 == s
            && items[taken[c]].1.0 == c && (c == turn.first ==> forall|u: int|
            taken[c] < u < items.len() ==> (#[trigger] items[u]).0 != s || items[u].1.0 != c) && (c
            != turn.first ==> forall|u: int|
            0 <= u < taken[c] ==> (#[trigger] items[u]).0 != s || items[u].1.0 != c);
    if turn.out.len() <= i < turns[v + 1].out.len() && is_taken {
        let run = run_of(lists, turn.done);
        lemma_bytes_at_turn(items, turns, v, i);
        assert(out[i].0 == s);
        assert forall|c: int| #[trigger] turn.picks.contains(c) implies 0 <= c < 1026 && carried(
            lists,
            run.first,
            c,
            s,
        ) == items[taken[c]].2@ by {
            let t = taken[c];
            if c == turn.first {
                lemma_last_item(items, t);
            } else {
                lemma_first_item(items, t);
            }
        }
        let data = out[i].1;
        assert(data == run_segment(lists, run, s));
        assert(found@[i].1.data@ == data);
        assert((2 * m) / 2 == m && (2 * m + 1) / 2 == m && (2 * m + 1) % 2 == 1);
        assert(original =~= given_original(lists, run, s, q));
        assert(recovery =~= given_recovery(lists, run, s, q));
        let p = run_point(lists, run, s, q, a);
        assert(data[2 * m] == p.0 && data[2 * m + 1] == p.1);
    }
    turns
}

/// All subshards of a segment of zeroes are zero.
pub proof fn lemma_zero_segment(
    encoder: &mut SubShardEncoder,
    data: &[Segment],
    chunks: Vec<Box<[SubShard; TOTAL_SHARDS]>>,
    s: int,
    c: int,
    b: int,
)
    requires
        call_ensures(SubShardEncoder::construct_chunks, (encoder, data), Ok(chunks)),
        0 <= s < data@.len(),
        0 <= c < 1026,
        0 <= b < 12,
        forall|i: int| 0 <= i < 4096 ==> #[trigger] data@[s].data@[i] == 0,
    ensures
        chunks@[s]@[c]@[b] == 0,
{
    assert(is_zero(batch_segment(data@, s)));
    assert(is_zero(chunk_at(chunks@, s, c)));
}

/// A decoder takes subshards of any segments with numbers below 16 and of any chunks with
/// indexes below 1026.
pub proof fn lemma_decoder_takes<'a, I: Iterator<Item = (u8, ChunkIndex, &'a SubShard)>>(
    decoder: &mut SubShardDecoder,
    given: &mut I,
)
    requires
        (*old(decoder)).wf(),
        (*old(given)).obeys_prophetic_iter_laws(),
        (*old(given)).decrease() is Some,
        forall|t: int|
            0 <= t < (*old(given)).remaining().len() ==> (
            #[trigger] (*old(given)).remaining()[t]).1.0 < 1026,
    ensures
        call_requires(SubShardDecoder::try_reconstruct::<I>, (decoder, given)),
        (forall|t: int|
            0 <= t < (*old(given)).remaining().len() ==> (
            #[trigger] (*old(given)).remaining()[t]).0 < 16) ==> call_requires(
            SubShardDecoder::reconstruct::<I>,
            (decoder, given),
        ),
{
}

} // verus!
