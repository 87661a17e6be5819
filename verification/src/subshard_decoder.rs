//! Restoring segments from their subshards.

use std::collections::{BTreeMap, BTreeSet};

use vstd::prelude::*;
use vstd::std_specs::iter::IteratorSpec;

use crate::chunks::ChunkIndex;
use crate::codec;
use crate::codec::{
    decoder_original, decoder_recovery, decoder_setup, has_index, indexed_bytes, restored, restores,
};
use crate::error::Error;
use crate::layout::{column_of, low_byte, point};
use crate::segment::{
    are_there, batch_points, can_read, is_wanted, ori_chunk_to_data, read_data, shard_at,
    subshard_point, Segment, SubShard, BATCH_SHARD_SIZE, N_REDUNDANCY, N_SHARDS, POINT_BYTE_SPACING,
    POINT_SIZE, SEGMENTS_PER_SUBSHARD_BATCH_OPTIMAL, SEGMENT_SIZE, SEGMENT_SIZE_ALIGNED,
    SUBSHARD_POINTS, TOTAL_SHARDS,
};
use crate::selection::{
    are_in_batch, are_of, are_subshards_of, candidates, carried, chunk_list, chunk_lists, first_of,
    given_original, given_recovery, has_turn, is_given, is_picked, last_of, lemma_batch_fits,
    lemma_list_push, lemma_lists_coded, lemma_run, lemma_run_complete, lemma_run_sound,
    lemma_seated_stays, progress, run_of, run_point, run_segment, run_segments, run_upto, seats_fit,
    Run,
};
use crate::selection_laws::{are_in_order, has_enough, lemma_all_come_out};
use crate::subshard_encoder::{batch_column, place_subshard};

verus! {

broadcast use {vstd::laws_cmp::group_laws_cmp, vstd::std_specs::btree::group_btree_axioms};

/// The subshards of a list, each with its segment.
spec fn list_bytes(list: Seq<(u8, &SubShard)>) -> Seq<(int, Seq<u8>)> {
    Seq::new(list.len(), |t: int| (list[t].0 as int, list[t].1@))
}

/// The subshards of each list.
spec fn lists_bytes(lists: Seq<Vec<(u8, &SubShard)>>) -> Seq<Seq<(int, Seq<u8>)>> {
    Seq::new(lists.len(), |c: int| list_bytes(lists[c]@))
}

/// Sorts the subshards by chunk, and notes of which segments there are any.
fn collect<'a, I>(subshards: &mut I) -> (r: (Vec<Vec<(u8, &'a SubShard)>>, BTreeSet<u8>)) where
    I: Iterator<Item = (u8, ChunkIndex, &'a SubShard)>,

    requires
        (*old(subshards)).obeys_prophetic_iter_laws(),
        (*old(subshards)).decrease() is Some,
        forall|t: int|
            0 <= t < (*old(subshards)).remaining().len() ==> (
            #[trigger] (*old(subshards)).remaining()[t]).1.0 < TOTAL_SHARDS,
    ensures
        lists_bytes(r.0@) == chunk_lists((*old(subshards)).remaining()),
        forall|s: u8| #[trigger]
            r.1@.contains(s) <==> is_given(chunk_lists((*old(subshards)).remaining()), s as int),
        (*final(subshards)).remaining().len() == 0,
{
    let ghost all = (*subshards).remaining();
    let ghost mut seen: Seq<(u8, ChunkIndex, &SubShard)> = Seq::empty();
    let mut ori: Vec<Vec<(u8, &'a SubShard)>> = Vec::new();
    for c in 0..TOTAL_SHARDS
        invariant
            ori@.len() == c,
            forall|d: int| 0 <= d < c ==> (#[trigger] ori@[d])@.len() == 0,
    {
        ori.push(Vec::new());
    }
    let mut segments: BTreeSet<u8> = BTreeSet::new();
    proof {
        assert forall|c: int| 0 <= c < 1026 implies list_bytes((#[trigger] ori@[c])@) == chunk_list(
            seen,
            c,
        ) by {
            assert(list_bytes(ori@[c]@) =~= Seq::empty());
        }
        assert forall|s: int, c: int| 0 <= c < 1026 implies !#[trigger] has_index(
            chunk_list(seen, c),
            s,
        ) by {}
    }
    loop
        invariant
            (*subshards).obeys_prophetic_iter_laws(),
            (*subshards).decrease() is Some,
            all == seen + (*subshards).remaining(),
            forall|t: int| 0 <= t < all.len() ==> (#[trigger] all[t]).1.0 < 1026,
            ori@.len() == 1026,
            forall|c: int|
                0 <= c < 1026 ==> list_bytes((#[trigger] ori@[c])@) == chunk_list(seen, c),
            forall|s: u8| #[trigger]
                segments@.contains(s) <==> is_given(chunk_lists(seen), s as int),
        ensures
            all == seen,
            (*subshards).remaining().len() == 0,
        decreases (*subshards).decrease()->0,
    {
        match subshards.next() {
            Some((segment, chunk_index, chunk)) => {
                let ghost before = seen;
                let ghost ori_before = ori@;
                let c: usize = chunk_index.0 as usize;
                assert(all[seen.len() as int] == (segment, chunk_index, chunk));
                ori[c].push((segment, chunk));
                segments.insert(segment);
                proof {
                    seen = seen.push((segment, chunk_index, chunk));
                    assert(seen.drop_last() =~= before);
                    assert(all =~= seen + (*subshards).remaining());
                    assert forall|d: int| 0 <= d < 1026 implies list_bytes(
                        (#[trigger] ori@[d])@,
                    ) == chunk_list(seen, d) by {
                        if d == c {
                            assert(list_bytes(ori@[d]@) =~= list_bytes(ori_before[d]@).push(
                                (segment as int, chunk@),
                            ));
                        }
                    }
                    lemma_given_push(before, (segment, chunk_index, chunk));
                }
            },
            None => {
                break;
            },
        }
    }
    assert(lists_bytes(ori@) =~= chunk_lists(all));
    (ori, segments)
}

/// One item more gives something of its segment.
proof fn lemma_given_push(
    items: Seq<(u8, ChunkIndex, &SubShard)>,
    item: (u8, ChunkIndex, &SubShard),
)
    requires
        item.1.0 < TOTAL_SHARDS,
    ensures
        forall|s: int| #[trigger]
            is_given(chunk_lists(items.push(item)), s) <==> is_given(chunk_lists(items), s) || s
                == item.0,
{
    let more = items.push(item);
    assert(more.drop_last() =~= items);
    let e = (item.0 as int, item.2@);
    assert forall|s: int| #[trigger]
        is_given(chunk_lists(more), s) <==> is_given(chunk_lists(items), s) || s == item.0 by {
        lemma_list_push(chunk_list(items, item.1.0 as int), e, s);
        assert(has_index(chunk_lists(more)[item.1.0 as int], s) <==> has_index(
            chunk_list(items, item.1.0 as int),
            s,
        ) || s == item.0);
        if is_given(chunk_lists(items), s) {
            let c = choose|c: int|
                0 <= c < chunk_lists(items).len() && #[trigger] has_index(
                    chunk_lists(items)[c],
                    s,
                );
            assert(has_index(chunk_lists(more)[c], s));
        }
        if is_given(chunk_lists(more), s) && s != item.0 {
            let c = choose|c: int|
                0 <= c < chunk_lists(more).len() && #[trigger] has_index(chunk_lists(more)[c], s);
            assert(has_index(chunk_lists(items)[c], s));
        }
    }
}

/// Which numbers of segments are in a set.
spec fn flags(set: Set<usize>) -> Seq<bool> {
    Seq::new(256, |s: int| set.contains(s as usize))
}

/// The count of each segment, zero for those that are not in the map.
spec fn tally(map: Map<usize, usize>) -> Seq<usize> {
    Seq::new(
        256,
        |s: int|
            if map.contains_key(s as usize) {
                map[s as usize]
            } else {
                0
            },
    )
}

/// Each segment in the map was counted.
spec fn are_counted(map: Map<usize, usize>) -> bool {
    forall|s: usize| #[trigger] map.contains_key(s) ==> map[s] > 0
}

/// A segment takes a place: it has a subshard in the list, and at the first pick
/// it is not processed, at a later one it took a place at each pick so far.
spec fn stays(
    list: Seq<(int, Seq<u8>)>,
    nb_chunk: usize,
    processed: Seq<bool>,
    counts: Seq<usize>,
    s: int,
) -> bool {
    has_index(list, s) && if nb_chunk == 0 {
        !processed[s]
    } else {
        counts[s] == nb_chunk
    }
}

/// The subshard of segment `s` that is taken of a chunk.
spec fn taken_of(list: Seq<(int, Seq<u8>)>, nb_chunk: usize, s: int) -> Seq<u8> {
    if nb_chunk == 0 {
        last_of(list, s)
    } else {
        first_of(list, s)
    }
}

/// Writes the subshards of a chunk whose segments stay to their places in the
/// shard, and counts them. Whether there was any is returned.
fn seat_chunk(
    list: &Vec<(u8, &SubShard)>,
    nb_chunk: usize,
    processed: &BTreeSet<usize>,
    counts: &mut BTreeMap<usize, usize>,
    shard: &mut [u8; BATCH_SHARD_SIZE],
) -> (added: bool)
    requires
        nb_chunk < N_SHARDS,
        forall|s: int| 0 <= s < 256 ==> #[trigger] tally(old(counts)@)[s] <= nb_chunk,
        are_counted(old(counts)@),
        forall|s: int| #[trigger]
            stays(list_bytes(list@), nb_chunk, flags(processed@), tally(old(counts)@), s) ==> s
                < SEGMENTS_PER_SUBSHARD_BATCH_OPTIMAL,
    ensures
        are_counted(final(counts)@),
        forall|s: int|
            0 <= s < 256 ==> #[trigger] tally(final(counts)@)[s] == (if stays(
                list_bytes(list@),
                nb_chunk,
                flags(processed@),
                tally(old(counts)@),
                s,
            ) {
                (nb_chunk + 1) as usize
            } else {
                tally(old(counts)@)[s]
            }),
        added ==> exists|s: int| #[trigger]
            stays(list_bytes(list@), nb_chunk, flags(processed@), tally(old(counts)@), s),
        forall|s: int| #[trigger]
            stays(list_bytes(list@), nb_chunk, flags(processed@), tally(old(counts)@), s) ==> added,
        forall|s: int, q: int|
            stays(list_bytes(list@), nb_chunk, flags(processed@), tally(old(counts)@), s) && 0 <= q
                < SUBSHARD_POINTS ==> point(final(shard)@, #[trigger] batch_column(s, q))
                == subshard_point(taken_of(list_bytes(list@), nb_chunk, s), q),
{
    let ghost bytes = list_bytes(list@);
    let ghost done = flags(processed@);
    let ghost before = tally(counts@);
    let mut added: bool = false;
    assert(bytes.take(list@.len() as int) =~= bytes);
    assert forall|s: int| !#[trigger] stays(bytes.take(0), nb_chunk, done, before, s) by {}
    let mut j: usize = 0;
    while j < list.len()
        invariant
            j <= list@.len(),
            nb_chunk < 342,
            done == flags(processed@),
            are_counted(counts@),
            done.len() == 256,
            before.len() == 256,
            bytes == list_bytes(list@),
            forall|s: int| 0 <= s < 256 ==> #[trigger] before[s] <= nb_chunk,
            forall|s: int| #[trigger] stays(bytes, nb_chunk, done, before, s) ==> s < 16,
            forall|s: int|
                0 <= s < 256 ==> #[trigger] tally(counts@)[s] == (if stays(
                    bytes.take(j as int),
                    nb_chunk,
                    done,
                    before,
                    s,
                ) {
                    (nb_chunk + 1) as usize
                } else {
                    before[s]
                }),
            added ==> exists|s: int| #[trigger]
                stays(bytes.take(j as int), nb_chunk, done, before, s),
            forall|s: int| #[trigger]
                stays(bytes.take(j as int), nb_chunk, done, before, s) ==> added,
            forall|s: int, q: int|
                stays(bytes.take(j as int), nb_chunk, done, before, s) && 0 <= q < 6 ==> point(
                    shard@,
                    #[trigger] batch_column(s, q),
                ) == subshard_point(taken_of(bytes.take(j as int), nb_chunk, s), q),
        decreases list@.len() - j,
    {
        let segment_i: usize = list[j].0 as usize;
        let chunk: &SubShard = list[j].1;
        let ghost earlier = bytes.take(j as int);
        let ghost now = bytes.take(j + 1);
        let ghost shard_before = shard@;
        let ghost s0 = segment_i as int;
        let ghost was_added = added;
        proof {
            assert(now =~= earlier.push((s0, chunk@)));
            assert(bytes[j as int].0 == s0);
            assert(has_index(bytes, s0));
            lemma_list_push(earlier, (s0, chunk@), s0);
            assert forall|s: int| s != s0 implies #[trigger] stays(now, nb_chunk, done, before, s)
                == stays(earlier, nb_chunk, done, before, s) by {
                lemma_list_push(earlier, (s0, chunk@), s);
            }
        }
        let ghost current = tally(counts@);
        assert(done[s0] == processed@.contains(segment_i));
        assert(current[s0] == if counts@.contains_key(segment_i) {
            counts@[segment_i]
        } else {
            0
        });
        let fits: bool = if nb_chunk == 0 {
            !processed.contains(&segment_i)
        } else {
            match counts.get(&segment_i) {
                Some(count) => *count == nb_chunk,
                None => false,
            }
        };
        if fits {
            counts.insert(segment_i, nb_chunk + 1);
            assert(tally(counts@) =~= current.update(s0, (nb_chunk + 1) as usize));
            added = true;
            assert(stays(bytes, nb_chunk, done, before, s0));
            place_subshard(shard, segment_i, chunk);
            assert(stays(now, nb_chunk, done, before, s0));
        }
        proof {
            assert forall|s: int, q: int|
                stays(now, nb_chunk, done, before, s) && 0 <= q < 6 implies point(
                shard@,
                #[trigger] batch_column(s, q),
            ) == subshard_point(taken_of(now, nb_chunk, s), q) by {
                lemma_list_push(earlier, (s0, chunk@), s);
                if has_index(now, s) {
                    let k = choose|k: int| 0 <= k < now.len() && (#[trigger] now[k]).0 == s;
                    assert(bytes[k].0 == s);
                }
                assert(stays(bytes, nb_chunk, done, before, s));
                if s != s0 {
                    assert(stays(earlier, nb_chunk, done, before, s));
                    assert(point(shard@, batch_column(s, q)) == point(
                        shard_before,
                        batch_column(s, q),
                    ));
                }
            }
            if was_added {
                let s = choose|s: int| #[trigger] stays(earlier, nb_chunk, done, before, s);
                assert(stays(now, nb_chunk, done, before, s));
            }
        }
        j = j + 1;
    }
    added
}

/// The segments that are processed.
spec fn done_set(processed: Seq<bool>) -> Set<int> {
    Set::new(|s: int| 0 <= s < 256 && processed[s])
}

/// The counts say which segments a run has seated, and which of them are alive.
spec fn tallies(counts: Seq<usize>, nb_chunk: usize, run: Run) -> bool {
    &&& counts.len() == 256
    &&& nb_chunk == run.count
    &&& forall|s: int|
        0 <= s < 256 ==> {
            &&& #[trigger] counts[s] <= nb_chunk
            &&& counts[s] > 0 <==> run.seated.contains(s)
            &&& nb_chunk > 0 && counts[s] == nb_chunk <==> run.alive.contains(s)
        }
    &&& forall|s: int| #[trigger] run.seated.contains(s) ==> 0 <= s < 256
    &&& forall|s: int| #[trigger] run.alive.contains(s) ==> 0 <= s < 256
}

/// Only numbers of segments stand in the lists.
spec fn are_numbers(lists: Seq<Seq<(int, Seq<u8>)>>) -> bool {
    forall|c: int, s: int| #[trigger]
        has_index(lists[c], s) && 0 <= c < lists.len() ==> 0 <= s < 256
}

/// The segments that take a place are those that stay in the run.
proof fn lemma_candidates(
    list: Seq<(int, Seq<u8>)>,
    nb_chunk: usize,
    processed: Seq<bool>,
    counts: Seq<usize>,
    run: Run,
)
    requires
        tallies(counts, nb_chunk, run),
        forall|s: int| #[trigger] has_index(list, s) ==> 0 <= s < 256,
    ensures
        forall|s: int| #[trigger]
            stays(list, nb_chunk, processed, counts, s) <==> candidates(
                list,
                done_set(processed),
                run,
            ).contains(s),
{
}

/// The counts after a chunk.
proof fn lemma_tallies(
    lists: Seq<Seq<(int, Seq<u8>)>>,
    c: int,
    nb_chunk: usize,
    processed: Seq<bool>,
    before: Seq<usize>,
    after: Seq<usize>,
)
    requires
        0 <= c < lists.len(),
        nb_chunk < N_SHARDS,
        tallies(before, nb_chunk, run_upto(lists, done_set(processed), c)),
        forall|s: int| #[trigger] has_index(lists[c], s) ==> 0 <= s < 256,
        after.len() == 256,
        forall|s: int|
            0 <= s < 256 ==> #[trigger] after[s] == (if stays(
                lists[c],
                nb_chunk,
                processed,
                before,
                s,
            ) {
                (nb_chunk + 1) as usize
            } else {
                before[s]
            }),
    ensures
        is_picked(lists[c], done_set(processed), run_upto(lists, done_set(processed), c))
            ==> tallies(
            after,
            (nb_chunk + 1) as usize,
            run_upto(lists, done_set(processed), c + 1),
        ),
        !is_picked(lists[c], done_set(processed), run_upto(lists, done_set(processed), c)) ==> {
            &&& run_upto(lists, done_set(processed), c + 1) == run_upto(
                lists,
                done_set(processed),
                c,
            )
            &&& tallies(after, nb_chunk, run_upto(lists, done_set(processed), c))
        },
{
    let done = done_set(processed);
    let run = run_upto(lists, done, c);
    let next = run_upto(lists, done, c + 1);
    lemma_run(lists, done, c);
    lemma_candidates(lists[c], nb_chunk, processed, before, run);
    if is_picked(lists[c], done, run) {
        assert forall|s: int| 0 <= s < 256 implies {
            &&& #[trigger] after[s] <= nb_chunk + 1
            &&& after[s] > 0 <==> next.seated.contains(s)
            &&& after[s] == nb_chunk + 1 <==> next.alive.contains(s)
        } by {
            assert(before[s] <= nb_chunk);
            assert(stays(lists[c], nb_chunk, processed, before, s) <==> candidates(
                lists[c],
                done,
                run,
            ).contains(s));
        }
        assert forall|s: int| #[trigger] next.alive.contains(s) implies 0 <= s < 256 by {
            assert(candidates(lists[c], done, run).contains(s));
        }
        assert forall|s: int| #[trigger] next.seated.contains(s) implies 0 <= s < 256 by {
            assert(run.count == 0 ==> candidates(lists[c], done, run).contains(s));
            assert(run.count > 0 ==> run.seated.contains(s));
        }
    } else {
        assert forall|s: int| 0 <= s < 256 implies #[trigger] after[s] == before[s] by {
            assert(!candidates(lists[c], done, run).contains(s));
            assert(!stays(lists[c], nb_chunk, processed, before, s));
        }
    }
}

/// These shards, counted from chunk `from` on, are those of the picked chunks,
/// and hold what is taken of them.
spec fn hold_picks(
    shards: Map<int, Seq<u8>>,
    lists: Seq<Seq<(int, Seq<u8>)>>,
    run: Run,
    from: int,
    count: int,
) -> bool {
    &&& forall|i: int| #[trigger]
        shards.contains_key(i) <==> 0 <= i < count && run.picks.contains(i + from)
    &&& forall|i: int, s: int, q: int|
        #![trigger shards.contains_key(i), batch_column(s, q)]
        shards.contains_key(i) && run.alive.contains(s) && 0 <= q < 6 ==> point(
            shards[i],
            batch_column(s, q),
        ) == subshard_point(carried(lists, run.first, i + from, s), q)
}

/// One chunk more is picked.
proof fn lemma_hold_picks(
    shards: Map<int, Seq<u8>>,
    lists: Seq<Seq<(int, Seq<u8>)>>,
    done: Set<int>,
    c: int,
    shard: Seq<u8>,
    from: int,
    count: int,
)
    requires
        0 <= c < lists.len(),
        0 <= from,
        hold_picks(shards, lists, run_upto(lists, done, c), from, count),
        is_picked(lists[c], done, run_upto(lists, done, c)),
        forall|s: int, q: int|
            run_upto(lists, done, c + 1).alive.contains(s) && 0 <= q < 6 ==> point(
                shard,
                #[trigger] batch_column(s, q),
            ) == subshard_point(
                carried(lists, run_upto(lists, done, c + 1).first, c, s),
                q,
            ),
    ensures
        hold_picks(
            if from <= c < from + count {
                shards.insert(c - from, shard)
            } else {
                shards
            },
            lists,
            run_upto(lists, done, c + 1),
            from,
            count,
        ),
        !shards.contains_key(c - from),
{
    lemma_run(lists, done, c);
    lemma_run(lists, done, c + 1);
    let before = run_upto(lists, done, c);
    let after = run_upto(lists, done, c + 1);
    let more = if from <= c < from + count {
        shards.insert(c - from, shard)
    } else {
        shards
    };
    assert forall|i: int, s: int, q: int|
        #![trigger more.contains_key(i), batch_column(s, q)]
        more.contains_key(i) && after.alive.contains(s) && 0 <= q < 6 implies point(
        more[i],
        batch_column(s, q),
    ) == subshard_point(carried(lists, after.first, i + from, s), q) by {
        if i + from != c {
            assert(shards.contains_key(i));
            assert(before.count > 0);
            assert(before.alive.contains(s));
        }
    }
}

/// Picks chunks until there are enough, and hands their shards to the decoder.
///
/// Returns how many chunks were picked, at how many picks each segment took a
/// place, and the original shards among those picked.
fn gather(
    decoder: &mut reed_solomon_simd::ReedSolomonDecoder,
    ori: &Vec<Vec<(u8, &SubShard)>>,
    processed: &BTreeSet<usize>,
    shard: &mut [u8; BATCH_SHARD_SIZE],
) -> (r: Result<(usize, BTreeMap<usize, usize>, BTreeMap<usize, Vec<u8>>), Error>)
    requires
        decoder_setup(*old(decoder)) == (
            N_SHARDS as int,
            N_REDUNDANCY * N_SHARDS,
            BATCH_SHARD_SIZE as int,
        ),
        decoder_original(*old(decoder)) == Map::<int, Seq<u8>>::empty(),
        decoder_recovery(*old(decoder)) == Map::<int, Seq<u8>>::empty(),
        ori@.len() == TOTAL_SHARDS,
        forall|s: int| #[trigger]
            run_of(lists_bytes(ori@), done_set(flags(processed@))).seated.contains(s) ==> s
                < SEGMENTS_PER_SUBSHARD_BATCH_OPTIMAL,
    ensures
        decoder_setup(*final(decoder)) == decoder_setup(*old(decoder)),
        r matches Ok((nb_chunk, counts, ori_map)) && {
            let run = run_of(lists_bytes(ori@), done_set(flags(processed@)));
            let original = decoder_original(*final(decoder));
            let recovery = decoder_recovery(*final(decoder));
            &&& tallies(tally(counts@), nb_chunk, run)
            &&& are_counted(counts@)
            &&& hold_picks(original, lists_bytes(ori@), run, 0, 342)
            &&& hold_picks(recovery, lists_bytes(ori@), run, 342, 684)
            &&& original.dom().len() + recovery.dom().len() == nb_chunk
            &&& forall|i: usize| #[trigger]
                ori_map@.contains_key(i) <==> original.contains_key(i as int)
            &&& forall|i: usize| #[trigger]
                ori_map@.contains_key(i) ==> ori_map@[i]@ == original[i as int]
                    && ori_map@[i]@.len() == BATCH_SHARD_SIZE
        },
{
    let ghost lists = lists_bytes(ori@);
    let ghost done = done_set(flags(processed@));
    let mut nb_chunk: usize = 0;
    let mut ori_map: BTreeMap<usize, Vec<u8>> = BTreeMap::new();
    let mut counts: BTreeMap<usize, usize> = BTreeMap::new();
    let mut chunk_ix: usize = 0;
    proof {
        lemma_numbers(ori@);
    }
    while chunk_ix < TOTAL_SHARDS && nb_chunk < N_SHARDS
        invariant
            decoder_setup(*decoder) == (342int, 684int, 192int),
            ori@.len() == 1026,
            lists == lists_bytes(ori@),
            are_numbers(lists),
            done == done_set(flags(processed@)),
            forall|s: int| #[trigger] run_of(lists, done).seated.contains(s) ==> s < 16,
            0 <= chunk_ix <= 1026,
            nb_chunk <= 342,
            tallies(tally(counts@), nb_chunk, run_upto(lists, done, chunk_ix as int)),
            are_counted(counts@),
            hold_picks(
                decoder_original(*decoder),
                lists,
                run_upto(lists, done, chunk_ix as int),
                0,
                342,
            ),
            hold_picks(
                decoder_recovery(*decoder),
                lists,
                run_upto(lists, done, chunk_ix as int),
                342,
                684,
            ),
            decoder_original(*decoder).dom().finite(),
            decoder_recovery(*decoder).dom().finite(),
            decoder_original(*decoder).dom().len() + decoder_recovery(*decoder).dom().len()
                == nb_chunk,
            forall|i: usize| #[trigger]
                ori_map@.contains_key(i) <==> decoder_original(*decoder).contains_key(i as int),
            forall|i: usize| #[trigger]
                ori_map@.contains_key(i) ==> ori_map@[i]@ == decoder_original(*decoder)[i as int]
                    && ori_map@[i]@.len() == BATCH_SHARD_SIZE,
        decreases 1026 - chunk_ix,
    {
        let ghost c = chunk_ix as int;
        let ghost before = run_upto(lists, done, c);
        let ghost after = run_upto(lists, done, c + 1);
        let ghost counts_before = tally(counts@);
        let ghost list = list_bytes(ori@[c]@);
        proof {
            assert(lists[c] == list);
            assert forall|s: int| #[trigger] has_index(list, s) implies 0 <= s < 256 by {
                assert(has_index(lists[c], s));
            }
            lemma_candidates(list, nb_chunk, flags(processed@), tally(counts@), before);
            lemma_run(lists, done, c);
            lemma_run(lists, done, c + 1);
            assert forall|s: int| #[trigger]
                stays(list, nb_chunk, flags(processed@), tally(counts@), s) implies s < 16 by {
                assert(candidates(list, done, before).contains(s));
                assert(is_picked(list, done, before));
                assert(after.seated.contains(s));
                lemma_seated_stays(lists, done, c + 1, 1026);
                assert(run_of(lists, done).seated.contains(s));
            }
        }
        let added: bool = seat_chunk(&ori[chunk_ix], nb_chunk, processed, &mut counts, shard);
        proof {
            lemma_tallies(lists, c, nb_chunk, flags(processed@), counts_before, tally(counts@));
            if is_picked(list, done, before) {
                let s = choose|s: int| #[trigger] candidates(list, done, before).contains(s);
                assert(stays(list, nb_chunk, flags(processed@), counts_before, s));
            }
        }
        if added {
            proof {
                let s = choose|s: int| #[trigger]
                    stays(list, nb_chunk, flags(processed@), counts_before, s);
                assert(candidates(list, done, before).contains(s));
                assert(is_picked(list, done, before));
                assert forall|s: int, q: int| after.alive.contains(s) && 0 <= q < 6 implies point(
                    shard@,
                    #[trigger] batch_column(s, q),
                ) == subshard_point(carried(lists, after.first, c, s), q) by {
                    assert(stays(list, nb_chunk, flags(processed@), counts_before, s));
                    assert(before.count > 0 ==> before.picks.contains(before.first));
                }
                lemma_hold_picks(decoder_original(*decoder), lists, done, c, shard@, 0, 342);
                lemma_hold_picks(decoder_recovery(*decoder), lists, done, c, shard@, 342, 684);
            }
            if chunk_ix < N_SHARDS {
                if codec::add_original_to_decoder(decoder, chunk_ix, &*shard).is_err() {
                    return Err(Error::Unknown);
                }
                ori_map.insert(chunk_ix, vstd::slice::slice_to_vec(&*shard));
            } else {
                if codec::add_recovery_to_decoder(decoder, chunk_ix - N_SHARDS, &*shard).is_err() {
                    return Err(Error::Unknown);
                }
            }
            nb_chunk = nb_chunk + 1;
        }
        chunk_ix = chunk_ix + 1;
    }
    proof {
        if chunk_ix < 1026 {
            lemma_run_complete(lists, done, chunk_ix as int, 1026);
        }
    }
    Ok((nb_chunk, counts, ori_map))
}

/// Only numbers of segments stand in the lists.
proof fn lemma_numbers(ori: Seq<Vec<(u8, &SubShard)>>)
    ensures
        are_numbers(lists_bytes(ori)),
{
    let lists = lists_bytes(ori);
    assert forall|c: int, s: int| #[trigger]
        has_index(lists[c], s) && 0 <= c < lists.len() implies 0 <= s < 256 by {
        let k = choose|k: int| 0 <= k < lists[c].len() && (#[trigger] lists[c][k]).0 == s;
        assert(lists[c][k].0 == ori[c]@[k].0);
    }
}

/// The map holds all original shards of a run: each alive segment finds its
/// points there.
spec fn is_complete(
    map: Map<usize, Vec<u8>>,
    lists: Seq<Seq<(int, Seq<u8>)>>,
    run: Run,
) -> bool {
    &&& forall|a: usize| a < N_SHARDS ==> #[trigger] map.contains_key(a)
    &&& forall|a: usize| #[trigger] map.contains_key(a) ==> map[a]@.len() == BATCH_SHARD_SIZE
    &&& forall|a: usize, s: int, q: int|
        #![trigger map[a], batch_column(s, q)]
        a < N_SHARDS && run.alive.contains(s) && 0 <= q < 6 ==> point(
            map[a]@,
            batch_column(s, q),
        ) == run_point(lists, run, s, q, a as int)
}

/// Adds the restored shards to the map.
fn add_restored(ori_map: &mut BTreeMap<usize, Vec<u8>>, found: Vec<(usize, Vec<u8>)>)
    requires
        forall|k: int, l: int|
            0 <= k < l < found@.len() ==> (#[trigger] found@[k]).0 != (#[trigger] found@[l]).0,
    ensures
        forall|k: int|
            0 <= k < found@.len() ==> final(ori_map)@.contains_key((#[trigger] found@[k]).0)
                && final(ori_map)@[found@[k].0] == found@[k].1,
        forall|i: usize|
            !has_index(indexed_bytes(found@), i as int) ==> {
                &&& #[trigger] final(ori_map)@.contains_key(i) <==> old(ori_map)@.contains_key(i)
                &&& final(ori_map)@[i] == old(ori_map)@[i]
            },
{
    let ghost all = found@;
    let ghost before = ori_map@;
    let mut found = found;
    while found.len() > 0
        invariant
            found@.len() <= all.len(),
            found@ == all.take(found@.len() as int),
            forall|k: int, l: int|
                0 <= k < l < all.len() ==> (#[trigger] all[k]).0 != (#[trigger] all[l]).0,
            forall|k: int|
                found@.len() <= k < all.len() ==> ori_map@.contains_key((#[trigger] all[k]).0)
                    && ori_map@[all[k].0] == all[k].1,
            forall|i: usize|
                !has_index(indexed_bytes(all), i as int) ==> (#[trigger] ori_map@.contains_key(i)
                    <==> before.contains_key(i)) && ori_map@[i] == before[i],
        decreases found@.len(),
    {
        match found.pop() {
            Some((i, o)) => {
                proof {
                    let k = found@.len() as int;
                    assert(all[k] == (i, o));
                    assert(indexed_bytes(all)[k].0 == i);
                    assert(found@ =~= all.take(k));
                }
                ori_map.insert(i, o);
            },
            None => {},
        }
    }
}

/// With the restored shards the map is complete.
proof fn lemma_complete(
    lists: Seq<Seq<(int, Seq<u8>)>>,
    run: Run,
    original: Map<int, Seq<u8>>,
    recovery: Map<int, Seq<u8>>,
    given: Map<usize, Vec<u8>>,
    found: Seq<(usize, Vec<u8>)>,
    map: Map<usize, Vec<u8>>,
)
    requires
        hold_picks(original, lists, run, 0, 342),
        hold_picks(recovery, lists, run, 342, 684),
        forall|p: int| #[trigger] run.picks.contains(p) ==> 0 <= p < 1026,
        forall|s: int| #[trigger] run.alive.contains(s) ==> 0 <= s < 16,
        forall|i: usize| #[trigger]
            given.contains_key(i) <==> original.contains_key(i as int),
        forall|i: usize| #[trigger]
            given.contains_key(i) ==> given[i]@ == original[i as int] && given[i]@.len() == 192,
        forall|i: int| #[trigger]
            has_index(indexed_bytes(found), i) <==> 0 <= i < 342 && !original.contains_key(i),
        forall|k: int| 0 <= k < found.len() ==> (#[trigger] found[k]).1@.len() == 192,
        forall|k: int, p: int|
            0 <= k < found.len() && 0 <= p < 96 ==> #[trigger] point(found[k].1@, p) == restored(
                342,
                684,
                column_of(original, p),
                column_of(recovery, p),
            )[found[k].0 as int],
        forall|k: int|
            0 <= k < found.len() ==> map.contains_key((#[trigger] found[k]).0) && map[found[k].0]
                == found[k].1,
        forall|i: usize|
            !has_index(indexed_bytes(found), i as int) ==> (#[trigger] map.contains_key(i)
                <==> given.contains_key(i)) && map[i] == given[i],
    ensures
        is_complete(map, lists, run),
        forall|s: int, q: int|
            #![trigger given_original(lists, run, s, q)]
            run.alive.contains(s) && 0 <= q < 6 ==> {
                &&& given_original(lists, run, s, q) == column_of(original, batch_column(s, q))
                &&& given_recovery(lists, run, s, q) == column_of(recovery, batch_column(s, q))
            },
{
    assert forall|s: int, q: int|
        #![trigger given_original(lists, run, s, q)]
        run.alive.contains(s) && 0 <= q < 6 implies {
        &&& given_original(lists, run, s, q) == column_of(original, batch_column(s, q))
        &&& given_recovery(lists, run, s, q) == column_of(recovery, batch_column(s, q))
    } by {
        let p = batch_column(s, q);
        assert(given_original(lists, run, s, q) =~= column_of(original, p)) by {
            assert forall|i: int| original.contains_key(i) implies given_original(
                lists,
                run,
                s,
                q,
            )[i] == column_of(original, p)[i] by {
                assert(original.contains_key(i) && batch_column(s, q) == p);
            }
        }
        assert(given_recovery(lists, run, s, q) =~= column_of(recovery, p)) by {
            assert forall|j: int| recovery.contains_key(j) implies given_recovery(
                lists,
                run,
                s,
                q,
            )[j] == column_of(recovery, p)[j] by {
                assert(recovery.contains_key(j) && batch_column(s, q) == p);
            }
        }
    }
    assert forall|a: usize| #[trigger] map.contains_key(a) implies map[a]@.len() == 192 by {
        if has_index(indexed_bytes(found), a as int) {
            lemma_found_at(found, a);
            let k = choose|k: int| 0 <= k < found.len() && (#[trigger] found[k]).0 == a;
            assert(map[found[k].0] == found[k].1);
        } else {
            assert(given.contains_key(a));
        }
    }
    assert forall|a: usize| a < 342 implies #[trigger] map.contains_key(a) by {
        if has_index(indexed_bytes(found), a as int) {
            lemma_found_at(found, a);
            let k = choose|k: int| 0 <= k < found.len() && (#[trigger] found[k]).0 == a;
            assert(map.contains_key(found[k].0));
        } else {
            assert(original.contains_key(a as int));
            assert(given.contains_key(a));
        }
    }
    assert forall|a: usize, s: int, q: int|
        #![trigger map[a], batch_column(s, q)]
        a < 342 && run.alive.contains(s) && 0 <= q < 6 implies point(map[a]@, batch_column(s, q))
        == run_point(lists, run, s, q, a as int) by {
        let p = batch_column(s, q);
        let one = given_original(lists, run, s, q);
        assert(map.contains_key(a));
        if has_index(indexed_bytes(found), a as int) {
            lemma_found_at(found, a);
            let k = choose|k: int| 0 <= k < found.len() && (#[trigger] found[k]).0 == a;
            assert(map[found[k].0] == found[k].1);
            assert(point(found[k].1@, p) == restored(
                342,
                684,
                column_of(original, p),
                column_of(recovery, p),
            )[a as int]);
            assert(!original.contains_key(a as int));
        } else {
            assert(original.contains_key(a as int));
            assert(given.contains_key(a));
            assert(one.contains_key(a as int));
        }
    }
}

/// A shard that is found stands somewhere.
proof fn lemma_found_at(found: Seq<(usize, Vec<u8>)>, a: usize)
    requires
        has_index(indexed_bytes(found), a as int),
    ensures
        exists|k: int| 0 <= k < found.len() && (#[trigger] found[k]).0 == a,
{
    let k = choose|k: int|
        0 <= k < indexed_bytes(found).len() && (#[trigger] indexed_bytes(found)[k]).0 == a;
    assert(found[k].0 == a);
}

/// What is read for a segment out of the complete map.
proof fn lemma_read(map: Map<usize, Vec<u8>>, lists: Seq<Seq<(int, Seq<u8>)>>, run: Run, s: int)
    requires
        is_complete(map, lists, run),
        run.alive.contains(s),
        0 <= s < 16,
    ensures
        can_read(map, s * 2052, Some(SEGMENT_SIZE)),
        read_data(map, s * 2052, Some(SEGMENT_SIZE)) == run_segment(lists, run, s),
        forall|m: int| #[trigger]
            is_wanted(s * 2052, Some(SEGMENT_SIZE), m) ==> map.contains_key(
                shard_at(s * 2052 + m),
            ),
{
    let first = s * 2052;
    let len = Some(SEGMENT_SIZE);
    assert forall|m: int| 0 <= m < 2048 implies {
        &&& shard_at(first + m) == #[trigger] (m % 342)
        &&& (first + m) / 342 == 6 * s + m / 342
        &&& 0 <= m / 342 < 6
    } by {
        lemma_segment_place(s, m);
    }
    assert forall|m: int| #[trigger] is_wanted(first, len, m) implies {
        &&& m < 2048
        &&& map.contains_key(shard_at(first + m))
        &&& low_byte((first + m) / 342) + 32 < 192
    } by {
        lemma_segment_place(s, m);
        assert(map.contains_key((m % 342) as usize));
    }
    assert forall|m: int| #[trigger]
        is_wanted(first, len, m) && are_there(map, first, m) implies {
        &&& m < SEGMENT_SIZE / POINT_SIZE
        &&& map.contains_key(shard_at(first + m)) ==> low_byte((first + m) / N_SHARDS as int)
            + POINT_BYTE_SPACING < map[shard_at(first + m)]@.len()
    } by {
        assert(map[shard_at(first + m)]@.len() == BATCH_SHARD_SIZE);
    }
    let out = read_data(map, first, len);
    let wanted = run_segment(lists, run, s);
    assert forall|b: int| 0 <= b < 4096 implies out[b] == wanted[b] by {
        let m = b / 2;
        let a = (m % 342) as usize;
        let q = m / 342;
        lemma_segment_place(s, m);
        assert(is_wanted(first, len, m));
        assert(point(map[a]@, batch_column(s, q)) == run_point(lists, run, s, q, a as int));
    }
    assert(out =~= wanted);
}

/// Where the points of a segment stand in a batch.
proof fn lemma_segment_place(s: int, m: int)
    requires
        0 <= s < 16,
        0 <= m < 2048,
    ensures
        shard_at(s * 2052 + m) == m % 342,
        (s * 2052 + m) / 342 == 6 * s + m / 342,
        0 <= m / 342 < 6,
        low_byte((s * 2052 + m) / 342) + 32 < 192,
        !(s * 2052 < batch_points() <= s * 2052 + m),
{
    let q = m / 342;
    let a = m % 342;
    assert(m == q * 342 + a);
    let row = 6 * s + q;
    assert(s * 2052 + m == row * 342 + a);
    assert((row * 342 + a) / 342 == row && (row * 342 + a) % 342 == a);
}

/// The numbers and the bytes of the segments.
pub open spec fn found_bytes(found: Seq<(u8, Segment)>) -> Seq<(int, Seq<u8>)> {
    Seq::new(found.len(), |i: int| (found[i].0 as int, found[i].1.data@))
}

/// Each segment has its number as index.
pub open spec fn are_numbered(found: Seq<(u8, Segment)>) -> bool {
    forall|i: int| 0 <= i < found.len() ==> (#[trigger] found[i]).1.index == found[i].0
}

/// What comes of decoding these subshards: the segments that [`progress`] gives,
/// after as many runs of the codec. From subshards of a batch come segments of the
/// batch, and where the segments are in order just those with enough subshards.
pub open spec fn is_restored(
    items: Seq<(u8, ChunkIndex, &SubShard)>,
    found: Seq<(u8, Segment)>,
    nb_decode: int,
) -> bool {
    &&& found_bytes(found) == progress(chunk_lists(items), 256).found
    &&& are_numbered(found)
    &&& nb_decode == progress(chunk_lists(items), 256).decodes
    &&& forall|batch: Seq<Segment>| #[trigger]
        are_subshards_of(items, batch) ==> are_of(found_bytes(found), batch)
    &&& are_in_order(chunk_lists(items)) ==> forall|s: int| #[trigger]
        has_index(found_bytes(found), s) <==> has_enough(chunk_lists(items), s)
}

/// The segments that are seated at the turns of the segments below `n` have a place
/// in a batch.
spec fn seats_fit_below(lists: Seq<Seq<(int, Seq<u8>)>>, n: int) -> bool {
    forall|v: int, s: int|
        #![trigger run_of(lists, progress(lists, v).done).seated.contains(s)]
        0 <= v < n && has_turn(lists, progress(lists, v).done, v) && run_of(
            lists,
            progress(lists, v).done,
        ).seated.contains(s) ==> s < SEGMENTS_PER_SUBSHARD_BATCH_OPTIMAL
}

/// Whether the segments that the next run seats have a place in the batch.
fn seats_are_there(ori: &Vec<Vec<(u8, &SubShard)>>, processed: &BTreeSet<usize>) -> (r: bool)
    requires
        ori@.len() == TOTAL_SHARDS,
    ensures
        r ==> forall|s: int| #[trigger]
            run_of(lists_bytes(ori@), done_set(flags(processed@))).seated.contains(s) ==> s
                < SEGMENTS_PER_SUBSHARD_BATCH_OPTIMAL,
        !r ==> exists|s: int| #[trigger]
            run_of(lists_bytes(ori@), done_set(flags(processed@))).seated.contains(s) && s
                >= SEGMENTS_PER_SUBSHARD_BATCH_OPTIMAL,
{
    let ghost lists = lists_bytes(ori@);
    let ghost done = done_set(flags(processed@));
    let mut chunk_ix: usize = 0;
    while chunk_ix < TOTAL_SHARDS
        invariant
            ori@.len() == 1026,
            lists == lists_bytes(ori@),
            done == done_set(flags(processed@)),
            chunk_ix <= 1026,
            run_upto(lists, done, chunk_ix as int).count == 0,
        decreases 1026 - chunk_ix,
    {
        let ghost c = chunk_ix as int;
        let ghost before = run_upto(lists, done, c);
        let ghost stay = candidates(lists[c], done, before);
        let mut found: bool = false;
        let mut fits: bool = true;
        let list: &Vec<(u8, &SubShard)> = &ori[chunk_ix];
        let ghost bytes = list_bytes(list@);
        assert(lists[c] == bytes);
        let mut j: usize = 0;
        while j < list.len()
            invariant
                j <= list@.len(),
                bytes == list_bytes(list@),
                done == done_set(flags(processed@)),
                before.count == 0,
                stay == candidates(bytes, done, before),
                found ==> exists|s: int| #[trigger] stay.contains(s),
                !fits ==> exists|s: int| #[trigger] stay.contains(s) && s >= 16,
                forall|t: int|
                    0 <= t < j && !done.contains((#[trigger] bytes[t]).0) ==> found && (fits
                        ==> bytes[t].0 < 16),
            decreases list@.len() - j,
        {
            let segment_i: usize = list[j].0 as usize;
            proof {
                assert(bytes[j as int].0 == segment_i);
                assert(has_index(bytes, segment_i as int));
                assert(flags(processed@)[segment_i as int] == processed@.contains(segment_i));
            }
            if !processed.contains(&segment_i) {
                found = true;
                assert(stay.contains(segment_i as int));
                if segment_i >= SEGMENTS_PER_SUBSHARD_BATCH_OPTIMAL {
                    fits = false;
                }
            }
            j = j + 1;
        }
        proof {
            assert forall|s: int| #[trigger] stay.contains(s) implies found && (fits ==> s
                < 16) by {
                let t = choose|t: int| 0 <= t < bytes.len() && (#[trigger] bytes[t]).0 == s;
                assert(!done.contains(bytes[t].0));
            }
        }
        if found {
            proof {
                assert(is_picked(lists[c], done, before));
                assert(run_upto(lists, done, c + 1).seated == stay);
                lemma_seated_stays(lists, done, c + 1, 1026);
                if !fits {
                    let s = choose|s: int| #[trigger] stay.contains(s) && s >= 16;
                    assert(run_of(lists, done).seated.contains(s));
                }
            }
            return fits;
        }
        assert(!is_picked(lists[c], done, before));
        chunk_ix = chunk_ix + 1;
    }
    proof {
        lemma_run(lists, done, 1026);
    }
    true
}

/// Reads the segments that a run has restored.
fn read_segments(
    ori_map: &BTreeMap<usize, Vec<u8>>,
    counts: &BTreeMap<usize, usize>,
    processed: &mut BTreeSet<usize>,
    result: &mut Vec<(u8, Segment)>,
    Ghost(lists): Ghost<Seq<Seq<(int, Seq<u8>)>>>,
    Ghost(run): Ghost<Run>,
)
    requires
        tallies(tally(counts@), N_SHARDS, run),
        is_complete(ori_map@, lists, run),
        forall|s: int| #[trigger] run.alive.contains(s) ==> s < 16,
        are_numbered(old(result)@),
    ensures
        done_set(flags(final(processed)@)) == done_set(flags(old(processed)@)).union(run.alive),
        are_numbered(final(result)@),
        found_bytes(final(result)@) == found_bytes(old(result)@) + run_segments(lists, run, 256),
{
    let ghost done = done_set(flags(processed@));
    let ghost earlier = found_bytes(result@);
    let mut segment: usize = 0;
    assert(found_bytes(result@) =~= earlier + run_segments(lists, run, 0));
    while segment < 256
        invariant
            segment <= 256,
            tallies(tally(counts@), N_SHARDS, run),
            is_complete(ori_map@, lists, run),
            forall|s: int| #[trigger] run.alive.contains(s) ==> s < 16,
            forall|s: int|
                0 <= s < 256 ==> (#[trigger] flags(processed@)[s] <==> done.contains(s) || (s
                    < segment && run.alive.contains(s))),
            forall|s: int| #[trigger] done.contains(s) ==> 0 <= s < 256,
            are_numbered(result@),
            found_bytes(result@) == earlier + run_segments(lists, run, segment as int),
        decreases 256 - segment,
    {
        let ghost s = segment as int;
        let ghost current = flags(processed@);
        assert(tally(counts@)[s] == if counts@.contains_key(segment) {
            counts@[segment]
        } else {
            0
        });
        let complete: bool = match counts.get(&segment) {
            Some(count) => *count == N_SHARDS,
            None => false,
        };
        if complete {
            assert(run.alive.contains(s));
            proof {
                lemma_read(ori_map@, lists, run, s);
            }
            let chunk_start: usize = segment * SEGMENT_SIZE_ALIGNED;
            assert(chunk_start as int / 2 == s * 2052);
            if let Some(original) = ori_chunk_to_data(ori_map, chunk_start, Some(SEGMENT_SIZE)) {
                let ghost before = result@;
                result.push(
                    (segment as u8, Segment { data: Box::new(original), index: segment as u32 }),
                );
                proof {
                    assert(found_bytes(result@) =~= found_bytes(before).push(
                        (s, run_segment(lists, run, s)),
                    ));
                    assert(found_bytes(result@) =~= earlier + run_segments(lists, run, s + 1));
                }
            }
            processed.insert(segment);
            assert(flags(processed@) =~= current.update(s, true));
        }
        segment = segment + 1;
    }
    assert(done_set(flags(processed@)) =~= done.union(run.alive));
}

/// Subshard uses some temp memory, so these should be used multiple times instead
/// of allocating.
pub struct SubShardDecoder {
    decoder: reed_solomon_simd::ReedSolomonDecoder,
}

impl SubShardDecoder {
    /// The decoder of the codec is set up for batches and has got no shard.
    pub closed spec fn wf(self) -> bool {
        &&& decoder_setup(self.decoder) == (
            N_SHARDS as int,
            N_REDUNDANCY * N_SHARDS,
            BATCH_SHARD_SIZE as int,
        )
        &&& decoder_original(self.decoder) == Map::<int, Seq<u8>>::empty()
        &&& decoder_recovery(self.decoder) == Map::<int, Seq<u8>>::empty()
    }

    /// A decoder for batches of segments.
    pub fn new() -> (r: Result<Self, Error>)
        ensures
            r matches Ok(decoder) && decoder.wf(),
    {
        match codec::new_decoder(N_SHARDS, N_REDUNDANCY * N_SHARDS, BATCH_SHARD_SIZE) {
            Ok(decoder) => Ok(SubShardDecoder { decoder }),
            Err(_) => Err(Error::Unknown),
        }
    }

    /// Restores segments from subshards, each given with the number of its
    /// segment and its chunk index, all of which have a place in the batch where
    /// they need one: see [`SubShardDecoder::try_reconstruct`].
    ///
    /// Returns the segments with their numbers, and how many times the codec was
    /// run. The chunks that take part in a run are picked as [`crate::selection`]
    /// describes; segments with the same chunks are restored in one run. Whatever
    /// is restored from subshards of a batch is a segment of the batch, and where
    /// the segments are in order, just those with enough subshards are restored.
    ///
    /// A segment has a place in the batch if its number is below
    /// [`SEGMENTS_PER_SUBSHARD_BATCH_OPTIMAL`]. Others may be given as long as they
    /// are never seated.
    pub fn reconstruct<'a, I>(&mut self, subshards: &mut I) -> (r: Result<
        (Vec<(u8, Segment)>, usize),
        Error,
    >) where I: Iterator<Item = (u8, ChunkIndex, &'a SubShard)>
        requires
            old(self).wf(),
            (*old(subshards)).obeys_prophetic_iter_laws(),
            (*old(subshards)).decrease() is Some,
            forall|t: int|
                0 <= t < (*old(subshards)).remaining().len() ==> (
                #[trigger] (*old(subshards)).remaining()[t]).1.0 < TOTAL_SHARDS,
            are_in_batch((*old(subshards)).remaining()) || seats_fit(
                chunk_lists((*old(subshards)).remaining()),
            ),
        ensures
            final(self).wf(),
            (*final(subshards)).remaining().len() == 0,
            r matches Ok((found, nb_decode)) && is_restored(
                (*old(subshards)).remaining(),
                found@,
                nb_decode as int,
            ),
    {
        proof {
            lemma_batch_fits((*subshards).remaining());
        }
        match self.try_reconstruct(subshards) {
            Ok(Some(restored)) => Ok(restored),
            Ok(None) => Err(Error::Unknown),
            Err(e) => Err(e),
        }
    }

    /// Restores segments from subshards, each given with the number of its
    /// segment and its chunk index.
    ///
    /// `None` if a segment whose number is not below
    /// [`SEGMENTS_PER_SUBSHARD_BATCH_OPTIMAL`] would be seated: it has no place in
    /// the batch.
    pub fn try_reconstruct<'a, I>(&mut self, subshards: &mut I) -> (r: Result<
        Option<(Vec<(u8, Segment)>, usize)>,
        Error,
    >) where I: Iterator<Item = (u8, ChunkIndex, &'a SubShard)>
        requires
            old(self).wf(),
            (*old(subshards)).obeys_prophetic_iter_laws(),
            (*old(subshards)).decrease() is Some,
            forall|t: int|
                0 <= t < (*old(subshards)).remaining().len() ==> (
                #[trigger] (*old(subshards)).remaining()[t]).1.0 < TOTAL_SHARDS,
        ensures
            final(self).wf(),
            (*final(subshards)).remaining().len() == 0,
            match r {
                Ok(Some((found, nb_decode))) => {
                    &&& seats_fit(chunk_lists((*old(subshards)).remaining()))
                    &&& is_restored((*old(subshards)).remaining(), found@, nb_decode as int)
                },
                Ok(None) => !seats_fit(chunk_lists((*old(subshards)).remaining())),
                Err(_) => false,
            },
    {
        let ghost items = (*subshards).remaining();
        let (ori, segments) = collect(subshards);
        let ghost lists = lists_bytes(ori@);
        let mut processed: BTreeSet<usize> = BTreeSet::new();
        let mut nb_decode: usize = 0;
        let mut result: Vec<(u8, Segment)> = Vec::new();
        let mut shard: [u8; BATCH_SHARD_SIZE] = [0u8; BATCH_SHARD_SIZE];
        let mut segment: usize = 0;
        proof {
            assert(done_set(flags(processed@)) =~= progress(lists, 0).done);
            assert(found_bytes(result@) =~= progress(lists, 0).found);
        }
        while segment < 256
            invariant
                segment <= 256,
                self.wf(),
                items == (*old(subshards)).remaining(),
                (*subshards).remaining().len() == 0,
                lists == chunk_lists(items),
                lists == lists_bytes(ori@),
                lists.len() == 1026,
                seats_fit_below(lists, segment as int),
                forall|s: u8| #[trigger]
                    segments@.contains(s) <==> is_given(lists, s as int),
                done_set(flags(processed@)) == progress(lists, segment as int).done,
                found_bytes(result@) == progress(lists, segment as int).found,
                are_numbered(result@),
                nb_decode == progress(lists, segment as int).decodes,
                nb_decode <= segment,
                forall|batch: Seq<Segment>| #[trigger]
                    are_subshards_of(items, batch) ==> are_of(found_bytes(result@), batch),
            decreases 256 - segment,
        {
            let ghost v = segment as int;
            let ghost before = progress(lists, v);
            let ghost done = before.done;
            let ghost run = run_of(lists, done);
            if !segments.contains(&(segment as u8)) || processed.contains(&segment) {
                assert(progress(lists, v + 1) == before);
                segment = segment + 1;
                continue;
            }
            proof {
                assert(has_turn(lists, done, v));
                lemma_run(lists, done, 1026);
            }
            if !seats_are_there(&ori, &processed) {
                assert(!seats_fit(lists));
                return Ok(None);
            }
            assert(seats_fit_below(lists, v + 1));
            let (nb_chunk, counts, mut ori_map) = match gather(
                &mut self.decoder,
                &ori,
                &processed,
                &mut shard,
            ) {
                Ok(gathered) => gathered,
                Err(e) => {
                    return Err(e);
                },
            };
            if nb_chunk != N_SHARDS {
                if codec::reset_decoder(
                    &mut self.decoder,
                    N_SHARDS,
                    N_REDUNDANCY * N_SHARDS,
                    BATCH_SHARD_SIZE,
                ).is_err() {
                    return Err(Error::Unknown);
                }
                // Too few chunks were picked: the segments that were seated are given up.
                mark_seated(&counts, &mut processed, Ghost(nb_chunk), Ghost(run));
                segment = segment + 1;
                continue;
            }
            let ghost loaded = self.decoder;
            let ghost original = decoder_original(loaded);
            let ghost recovery = decoder_recovery(loaded);
            let ghost given = ori_map@;
            assert(decoder_setup(loaded) == (342int, 684int, 192int));
            let restored_shards: Vec<(usize, Vec<u8>)> = match codec::run_decoder(
                &mut self.decoder,
            ) {
                Ok(found) => found,
                Err(_) => {
                    return Err(Error::Unknown);
                },
            };
            nb_decode = nb_decode + 1;
            let ghost found = restored_shards@;
            assert forall|p: int| 0 <= p < 96 implies #[trigger] restores(
                342,
                684,
                column_of(original, p),
                column_of(recovery, p),
            ) by {
                assert(restores(
                    decoder_setup(loaded).0,
                    decoder_setup(loaded).1,
                    column_of(original, p),
                    column_of(recovery, p),
                ));
            }
            add_restored(&mut ori_map, restored_shards);
            proof {
                lemma_complete(lists, run, original, recovery, given, found, ori_map@);
                assert forall|batch: Seq<Segment>| #[trigger]
                    are_subshards_of(items, batch) implies are_of(
                    run_segments(lists, run, 256),
                    batch,
                ) by {
                    lemma_lists_coded(items, batch);
                    assert forall|s: int, q: int|
                        #![trigger given_original(lists, run, s, q)]
                        run.alive.contains(s) && 0 <= q < 6 implies restores(
                        342,
                        684,
                        given_original(lists, run, s, q),
                        given_recovery(lists, run, s, q),
                    ) by {
                        let p = batch_column(s, q);
                        assert(run.seated.contains(s));
                        assert(0 <= p < 96);
                        assert(restores(342, 684, column_of(original, p), column_of(recovery, p)));
                    }
                    lemma_run_sound(lists, done, batch, 256);
                }
            }
            read_segments(
                &ori_map,
                &counts,
                &mut processed,
                &mut result,
                Ghost(lists),
                Ghost(run),
            );
            segment = segment + 1;
        }
        proof {
            if are_in_order(lists) {
                lemma_all_come_out(items);
            }
        }
        Ok(Some((result, nb_decode)))
    }
}

/// Marks the segments that a run has seated as processed.
fn mark_seated(
    counts: &BTreeMap<usize, usize>,
    processed: &mut BTreeSet<usize>,
    Ghost(nb_chunk): Ghost<usize>,
    Ghost(run): Ghost<Run>,
)
    requires
        tallies(tally(counts@), nb_chunk, run),
        are_counted(counts@),
    ensures
        done_set(flags(final(processed)@)) == done_set(flags(old(processed)@)).union(run.seated),
{
    let ghost done = done_set(flags(processed@));
    let mut segment: usize = 0;
    while segment < 256
        invariant
            segment <= 256,
            tallies(tally(counts@), nb_chunk, run),
            are_counted(counts@),
            forall|s: int|
                0 <= s < 256 ==> (#[trigger] flags(processed@)[s] <==> done.contains(s) || (s
                    < segment && run.seated.contains(s))),
            forall|s: int| #[trigger] done.contains(s) ==> 0 <= s < 256,
        decreases 256 - segment,
    {
        let ghost s = segment as int;
        let ghost current = flags(processed@);
        assert(tally(counts@)[s] > 0 <==> counts@.contains_key(segment));
        if counts.contains_key(&segment) {
            processed.insert(segment);
            assert(flags(processed@) =~= current.update(s, true));
        }
        segment = segment + 1;
    }
    assert(done_set(flags(processed@)) =~= done.union(run.seated));
}

} // verus!
