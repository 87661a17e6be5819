//! Which segments come out of a decoder, turn by turn, said of the subshards as they are
//! given.
//!
//! Each segment that something is given of has its turn, by ascending number, unless it
//! has come out or was given up before. At a turn chunks are picked by ascending index.
//! The first one is the first that has a subshard of a segment that has neither come out
//! nor been given up; such segments of it are seated. A chunk after it is picked if it
//! has a subshard of a seated segment that all chunks picked before have, as long as
//! there are fewer than 342. With 342 chunks the seated segments that all of them have
//! come out. With fewer nothing comes out, and all that were seated are given up.

use vstd::prelude::*;

use crate::chunks::ChunkIndex;
use crate::codec::has_index;
use crate::segment::{SubShard, N_SHARDS, TOTAL_SHARDS};
use crate::selection::{
    candidates, chunk_list, chunk_lists, first_of, has_turn, is_given, is_picked, last_of,
    lemma_list_items, lemma_list_push, lemma_run, lemma_seated_stays, progress, run_of, run_segment,
    run_segments, run_upto, seats_fit, Run,
};
use crate::selection_laws::{
    are_aligned, are_in_order, chunk_count, chunks_of, first_chunk, lemma_first_chunk,
    lemma_numbers, lemma_progress_grows, lemma_run_count, lemma_run_segments,
};

verus! {

/// A subshard of segment `s` with chunk index `c` is among the items.
pub open spec fn is_there(items: Seq<(u8, ChunkIndex, &SubShard)>, s: int, c: int) -> bool {
    exists|t: int| 0 <= t < items.len() && (#[trigger] items[t]).0 == s && items[t].1.0 == c
}

/// The chunk indexes with which subshards of segment `s` are among the items.
pub open spec fn indexes_of(items: Seq<(u8, ChunkIndex, &SubShard)>, s: int) -> Set<int> {
    Set::new(|c: int| is_there(items, s, c))
}

/// A subshard of segment `s` is among the items.
pub open spec fn is_any_there(items: Seq<(u8, ChunkIndex, &SubShard)>, s: int) -> bool {
    exists|t: int| 0 <= t < items.len() && (#[trigger] items[t]).0 == s
}

/// How things stand before the turn of a segment, and what is picked at it.
pub struct Turn {
    /// The segments that have come out or been given up.
    pub done: Set<int>,
    /// The segments that have come out, in their order.
    pub out: Seq<int>,
    /// How many times the codec was run.
    pub runs: int,
    /// The chunk that is picked first.
    pub first: int,
    /// The chunks that are picked.
    pub picks: Set<int>,
}

/// Segment `s` is seated.
pub open spec fn is_seated(
    items: Seq<(u8, ChunkIndex, &SubShard)>,
    turn: Turn,
    s: int,
) -> bool {
    is_there(items, s, turn.first) && !turn.done.contains(s)
}

/// Segment `s` is seated, and each chunk that is picked before `c` has a subshard of it.
pub open spec fn keeps_up(
    items: Seq<(u8, ChunkIndex, &SubShard)>,
    turn: Turn,
    s: int,
    c: int,
) -> bool {
    &&& is_seated(items, turn, s)
    &&& forall|p: int| #[trigger] turn.picks.contains(p) && p < c ==> is_there(items, s, p)
}

/// The first chunk is the first with a subshard of a segment that is not done.
pub open spec fn is_first(items: Seq<(u8, ChunkIndex, &SubShard)>, turn: Turn) -> bool {
    &&& 0 <= turn.first < 1026
    &&& exists|s: int| #[trigger] is_seated(items, turn, s)
    &&& forall|s: int, c: int| #[trigger]
        is_there(items, s, c) && 0 <= c < turn.first ==> turn.done.contains(s)
}

/// The chunks are picked by ascending index.
pub open spec fn are_picks(items: Seq<(u8, ChunkIndex, &SubShard)>, turn: Turn) -> bool {
    &&& turn.picks.finite()
    &&& forall|c: int| #[trigger]
        turn.picks.contains(c) <==> {
            &&& 0 <= c < 1026
            &&& turn.picks.filter(|p: int| p < c).len() < 342
            &&& exists|s: int| #[trigger] keeps_up(items, turn, s, c) && is_there(items, s, c)
        }
}

/// What happens at the turn of segment `v`.
pub open spec fn is_turn(
    items: Seq<(u8, ChunkIndex, &SubShard)>,
    now: Turn,
    next: Turn,
    v: int,
) -> bool {
    if !is_any_there(items, v) || now.done.contains(v) {
        next.done == now.done && next.out == now.out && next.runs == now.runs
    } else {
        &&& is_first(items, now)
        &&& are_picks(items, now)
        &&& if now.picks.len() < 342 {
            &&& next.runs == now.runs
            &&& next.out == now.out
            &&& forall|s: int| #[trigger]
                next.done.contains(s) <==> now.done.contains(s) || is_seated(items, now, s)
        } else {
            &&& next.runs == now.runs + 1
            &&& now.out == next.out.take(now.out.len() as int)
            &&& now.out.len() < next.out.len()
            &&& forall|i: int, j: int|
                now.out.len() <= i < j < next.out.len() ==> #[trigger] next.out[i]
                    < #[trigger] next.out[j]
            &&& forall|s: int| #[trigger]
                keeps_up(items, now, s, 1026) <==> exists|i: int|
                    now.out.len() <= i < next.out.len() && #[trigger] next.out[i] == s
            &&& forall|s: int| #[trigger]
                next.done.contains(s) <==> now.done.contains(s) || keeps_up(items, now, s, 1026)
        }
    }
}

/// All turns, one after the other.
pub open spec fn are_turns(items: Seq<(u8, ChunkIndex, &SubShard)>, turns: Seq<Turn>) -> bool {
    &&& turns.len() == 257
    &&& turns[0].done == Set::<int>::empty()
    &&& turns[0].out == Seq::<int>::empty()
    &&& turns[0].runs == 0
    &&& forall|v: int|
        0 <= v < 256 ==> is_turn(items, #[trigger] turns[v], turns[v + 1], v)
}

/// What is in the lists is among the items.
pub proof fn lemma_is_there(items: Seq<(u8, ChunkIndex, &SubShard)>, s: int, c: int)
    ensures
        has_index(chunk_list(items, c), s) <==> is_there(items, s, c),
    decreases items.len(),
{
    if has_index(chunk_list(items, c), s) {
        lemma_list_items(items, c, s);
    }
    if is_there(items, s, c) {
        let t = choose|t: int|
            0 <= t < items.len() && (#[trigger] items[t]).0 == s && items[t].1.0 == c;
        let rest = items.drop_last();
        let item = items.last();
        if item.1.0 == c {
            lemma_list_push(chunk_list(rest, c), (item.0 as int, item.2@), s);
        }
        if t < rest.len() {
            assert(rest[t] == items[t]);
            assert(is_there(rest, s, c));
            lemma_is_there(rest, s, c);
        }
    }
}

/// Something is given of a segment just when it has a chunk.
pub proof fn lemma_is_any_there(items: Seq<(u8, ChunkIndex, &SubShard)>, s: int)
    requires
        forall|t: int| 0 <= t < items.len() ==> (#[trigger] items[t]).1.0 < TOTAL_SHARDS,
    ensures
        is_given(chunk_lists(items), s) <==> is_any_there(items, s),
{
    let lists = chunk_lists(items);
    if is_given(lists, s) {
        let c = choose|c: int| 0 <= c < lists.len() && #[trigger] has_index(lists[c], s);
        lemma_is_there(items, s, c);
        let t = choose|t: int|
            0 <= t < items.len() && (#[trigger] items[t]).0 == s && items[t].1.0 == c;
        assert(items[t].0 == s);
    }
    if is_any_there(items, s) {
        let t = choose|t: int| 0 <= t < items.len() && (#[trigger] items[t]).0 == s;
        let c = items[t].1.0 as int;
        assert(is_there(items, s, c));
        lemma_is_there(items, s, c);
        assert(has_index(lists[c], s));
    }
}

/// How many chunks have a subshard of a segment.
pub proof fn lemma_indexes_of(items: Seq<(u8, ChunkIndex, &SubShard)>, s: int)
    requires
        forall|t: int| 0 <= t < items.len() ==> (#[trigger] items[t]).1.0 < TOTAL_SHARDS,
    ensures
        indexes_of(items, s).finite(),
        indexes_of(items, s).len() == chunk_count(chunk_lists(items), s, 1026),
{
    lemma_count_indexes(items, s, 1026);
    let below = Set::new(|c: int| is_there(items, s, c) && 0 <= c < 1026);
    assert(below =~= indexes_of(items, s)) by {
        assert forall|c: int| indexes_of(items, s).contains(c) implies below.contains(c) by {
            let t = choose|t: int|
                0 <= t < items.len() && (#[trigger] items[t]).0 == s && items[t].1.0 == c;
            assert(items[t].1.0 < TOTAL_SHARDS);
        }
    }
}

/// How many chunks below `n` have a subshard of a segment.
proof fn lemma_count_indexes(items: Seq<(u8, ChunkIndex, &SubShard)>, s: int, n: int)
    requires
        0 <= n <= 1026,
    ensures
        Set::new(|c: int| is_there(items, s, c) && 0 <= c < n).finite(),
        Set::new(|c: int| is_there(items, s, c) && 0 <= c < n).len() == chunk_count(
            chunk_lists(items),
            s,
            n,
        ),
    decreases n,
{
    let all = Set::new(|c: int| is_there(items, s, c) && 0 <= c < n);
    if n == 0 {
        assert(all =~= Set::empty());
    } else {
        let rest = Set::new(|c: int| is_there(items, s, c) && 0 <= c < n - 1);
        lemma_count_indexes(items, s, n - 1);
        lemma_is_there(items, s, n - 1);
        if is_there(items, s, n - 1) {
            assert(all =~= rest.insert(n - 1));
        } else {
            assert(all =~= rest);
        }
    }
}

/// What is picked of the chunks below `c`, said of all that is picked.
proof fn lemma_picks(lists: Seq<Seq<(int, Seq<u8>)>>, done: Set<int>, c: int, run: Run)
    requires
        0 <= c <= lists.len(),
        run == run_upto(lists, done, c),
    ensures
        forall|s: int| #[trigger]
            run.seated.contains(s) <==> run.count > 0 && !done.contains(s) && has_index(
                lists[run.first],
                s,
            ),
        forall|s: int| #[trigger]
            run.alive.contains(s) <==> run.seated.contains(s) && forall|p: int| #[trigger]
                run.picks.contains(p) ==> has_index(lists[p], s),
        run.count > 0 ==> 0 <= run.first < c,
        forall|s: int, d: int|
            0 <= d < (if run.count > 0 {
                run.first
            } else {
                c
            }) && #[trigger] has_index(lists[d], s) ==> done.contains(s),
        forall|d: int|
            0 <= d < c ==> (#[trigger] run.picks.contains(d) <==> is_picked(
                lists[d],
                done,
                run_upto(lists, done, d),
            )),
        forall|d: int|
            0 <= d <= c ==> #[trigger] run_upto(lists, done, d).picks == run.picks.filter(
                |p: int| p < d,
            ),
    decreases c,
{
    if c > 0 {
        lemma_picks(lists, done, c - 1, run_upto(lists, done, c - 1));
        lemma_run(lists, done, c - 1);
        lemma_run(lists, done, c);
        let before = run_upto(lists, done, c - 1);
        let list = lists[c - 1];
        assert forall|d: int| 0 <= d < c implies (#[trigger] run.picks.contains(d) <==> is_picked(
            lists[d],
            done,
            run_upto(lists, done, d),
        )) by {
            assert(d < c - 1 ==> (before.picks.contains(d) <==> is_picked(
                lists[d],
                done,
                run_upto(lists, done, d),
            )));
            assert(d == c - 1 ==> !before.picks.contains(d));
        }
        assert forall|d: int| 0 <= d <= c implies #[trigger] run_upto(lists, done, d).picks
            == run.picks.filter(|p: int| p < d) by {
            if d < c {
                let early = run_upto(lists, done, d).picks;
                assert(early == before.picks.filter(|p: int| p < d));
                assert(early =~= run.picks.filter(|p: int| p < d));
            } else {
                assert(run.picks =~= run.picks.filter(|p: int| p < d));
            }
        }
        if is_picked(list, done, before) {
            assert(run.picks.contains(c - 1));
            assert forall|s: int| #[trigger] run.alive.contains(s) <==> run.seated.contains(s)
                && forall|p: int| #[trigger] run.picks.contains(p) ==> has_index(lists[p], s) by {
                if run.seated.contains(s) && forall|p: int| #[trigger]
                    run.picks.contains(p) ==> has_index(lists[p], s) {
                    assert(has_index(lists[c - 1], s));
                    if before.count > 0 {
                        assert forall|p: int| #[trigger] before.picks.contains(p) implies
                            has_index(lists[p], s) by {
                            assert(run.picks.contains(p));
                        }
                        assert(before.alive.contains(s));
                    }
                    assert(candidates(list, done, before).contains(s));
                }
                if run.alive.contains(s) {
                    assert(candidates(list, done, before).contains(s));
                    if before.count > 0 {
                        assert(before.alive.contains(s));
                    }
                }
            }
            if before.count == 0 {
                assert forall|s: int| #[trigger] run.seated.contains(s) <==> run.count > 0
                    && !done.contains(s) && has_index(lists[run.first], s) by {
                    assert(candidates(list, done, before).contains(s) == run.seated.contains(s));
                }
            }
        } else if before.count == 0 {
            assert forall|s: int| #[trigger] has_index(list, s) implies done.contains(s) by {
                if !done.contains(s) {
                    assert(candidates(list, done, before).contains(s));
                }
            }
        }
    } else {
        assert(run.picks =~= run.picks.filter(|p: int| p < 0));
    }
}

/// The rule by which chunks are picked, said of the items.
proof fn lemma_are_picks(items: Seq<(u8, ChunkIndex, &SubShard)>, turn: Turn, v: int)
    requires
        ({
            let run = run_of(chunk_lists(items), turn.done);
            turn.first == run.first && turn.picks == run.picks
        }),
        is_given(chunk_lists(items), v),
        !turn.done.contains(v),
    ensures
        is_first(items, turn),
        are_picks(items, turn),
        forall|s: int| #[trigger]
            run_of(chunk_lists(items), turn.done).seated.contains(s) <==> is_seated(
                items,
                turn,
                s,
            ),
        forall|s: int| #[trigger]
            run_of(chunk_lists(items), turn.done).alive.contains(s) <==> keeps_up(
                items,
                turn,
                s,
                1026,
            ),
{
    let lists = chunk_lists(items);
    let done = turn.done;
    let run = run_of(lists, done);
    lemma_picks(lists, done, 1026, run);
    lemma_run(lists, done, 1026);
    assert forall|s: int, c: int| 0 <= c < 1026 implies #[trigger] has_index(lists[c], s)
        == is_there(items, s, c) by {
        lemma_is_there(items, s, c);
    }
    let cv = choose|c: int| 0 <= c < lists.len() && #[trigger] has_index(lists[c], v);
    assert(has_index(lists[cv], v));
    assert(run.count > 0);
    let some = choose|s: int| #[trigger] run.alive.contains(s);
    assert(run.seated.contains(some));
    assert forall|s: int| #[trigger] run.seated.contains(s) <==> is_seated(items, turn, s) by {
        assert(has_index(lists[run.first], s) == is_there(items, s, run.first));
    }
    assert forall|s: int, c: int| #[trigger] is_there(items, s, c) && 0 <= c < turn.first implies
        turn.done.contains(s) by {
        assert(has_index(lists[c], s));
    }
    assert(is_seated(items, turn, some));
    assert forall|s: int| #[trigger] run.alive.contains(s) <==> keeps_up(items, turn, s, 1026) by {
        if run.alive.contains(s) {
            assert(run.seated.contains(s));
            assert forall|p: int| #[trigger] turn.picks.contains(p) && p < 1026 implies is_there(
                items,
                s,
                p,
            ) by {
                assert(has_index(lists[p], s));
            }
        }
        if keeps_up(items, turn, s, 1026) {
            assert(run.seated.contains(s));
            assert forall|p: int| #[trigger] run.picks.contains(p) implies has_index(
                lists[p],
                s,
            ) by {
                assert(is_there(items, s, p));
            }
        }
    }
    assert forall|c: int| #[trigger] turn.picks.contains(c) <==> {
        &&& 0 <= c < 1026
        &&& turn.picks.filter(|p: int| p < c).len() < 342
        &&& exists|s: int| #[trigger] keeps_up(items, turn, s, c) && is_there(items, s, c)
    } by {
        if 0 <= c < 1026 {
            lemma_one_pick(items, turn, c);
        }
    }
}

/// When one chunk is picked.
proof fn lemma_one_pick(items: Seq<(u8, ChunkIndex, &SubShard)>, turn: Turn, c: int)
    requires
        ({
            let run = run_of(chunk_lists(items), turn.done);
            turn.first == run.first && turn.picks == run.picks && run.count > 0
        }),
        0 <= c < 1026,
    ensures
        turn.picks.contains(c) <==> {
            &&& turn.picks.filter(|p: int| p < c).len() < 342
            &&& exists|s: int| #[trigger] keeps_up(items, turn, s, c) && is_there(items, s, c)
        },
{
    let lists = chunk_lists(items);
    let done = turn.done;
    let run = run_of(lists, done);
    let early = run_upto(lists, done, c);
    lemma_picks(lists, done, 1026, run);
    lemma_picks(lists, done, c, early);
    lemma_run(lists, done, 1026);
    lemma_run(lists, done, c);
    assert(early.picks == turn.picks.filter(|p: int| p < c));
    assert forall|s: int, d: int| 0 <= d < 1026 implies #[trigger] has_index(lists[d], s)
        == is_there(items, s, d) by {
        lemma_is_there(items, s, d);
    }
    if early.count > 0 {
        lemma_seated_stays(lists, done, c, 1026);
    }
    if turn.picks.contains(c) {
        assert(is_picked(lists[c], done, early));
        let s = choose|s: int| #[trigger] candidates(lists[c], done, early).contains(s);
        assert(has_index(lists[c], s));
        if early.count == 0 {
            assert(run.first >= c) by {
                if run.first < c {
                    assert(run.picks.contains(run.first));
                    assert(early.picks.contains(run.first));
                    assert(early.picks.len() > 0);
                }
            }
            assert(run.first == c) by {
                if run.first > c {
                    assert(done.contains(s));
                }
            }
        } else {
            assert(early.alive.contains(s));
            assert(early.seated.contains(s));
        }
        assert(is_seated(items, turn, s));
        assert forall|p: int| #[trigger] turn.picks.contains(p) && p < c implies is_there(
            items,
            s,
            p,
        ) by {
            assert(early.picks.contains(p));
            assert(early.alive.contains(s));
            assert(has_index(lists[p], s));
        }
        assert(keeps_up(items, turn, s, c));
    }
    if early.picks.len() < 342 && exists|s: int| #[trigger]
        keeps_up(items, turn, s, c) && is_there(items, s, c) {
        let s = choose|s: int| #[trigger] keeps_up(items, turn, s, c) && is_there(items, s, c);
        assert(has_index(lists[c], s));
        if early.count > 0 {
            assert(has_index(lists[run.first], s));
            assert(early.seated.contains(s));
            assert forall|p: int| #[trigger] early.picks.contains(p) implies has_index(
                lists[p],
                s,
            ) by {
                assert(turn.picks.contains(p));
                assert(is_there(items, s, p));
            }
            assert(early.alive.contains(s));
        }
        assert(candidates(lists[c], done, early).contains(s));
        assert(is_picked(lists[c], done, early));
    }
}

/// The numbers of segments.
pub open spec fn numbers(found: Seq<(int, Seq<u8>)>) -> Seq<int> {
    Seq::new(found.len(), |i: int| found[i].0)
}

/// How decoding goes, turn by turn.
pub open spec fn turn_at(items: Seq<(u8, ChunkIndex, &SubShard)>, v: int) -> Turn {
    let before = progress(chunk_lists(items), v);
    let run = run_of(chunk_lists(items), before.done);
    Turn {
        done: before.done,
        out: numbers(before.found),
        runs: before.decodes,
        first: run.first,
        picks: run.picks,
    }
}

/// One turn.
proof fn lemma_turn(items: Seq<(u8, ChunkIndex, &SubShard)>, v: int)
    requires
        forall|t: int| 0 <= t < items.len() ==> (#[trigger] items[t]).1.0 < TOTAL_SHARDS,
        0 <= v < 256,
    ensures
        is_turn(items, turn_at(items, v), turn_at(items, v + 1), v),
{
    let lists = chunk_lists(items);
    let now = turn_at(items, v);
    let next = turn_at(items, v + 1);
    let before = progress(lists, v);
    let after = progress(lists, v + 1);
    let run = run_of(lists, before.done);
    lemma_is_any_there(items, v);
    if has_turn(lists, before.done, v) {
        lemma_are_picks(items, now, v);
        lemma_run(lists, before.done, 1026);
        lemma_numbers(items);
        if run.count >= N_SHARDS {
            let new = run_segments(lists, run, 256);
            lemma_run_segments(lists, run, 256);
            assert(after.found == before.found + new);
            assert(now.out =~= next.out.take(now.out.len() as int));
            assert forall|i: int| now.out.len() <= i < next.out.len() implies #[trigger] next.out[i]
                == new[i - now.out.len()].0 by {}
            let some = choose|s: int| #[trigger] run.alive.contains(s);
            assert forall|s: int| #[trigger] run.alive.contains(s) implies 0 <= s < 256
                && has_index(new, s) by {
                assert(run.seated.contains(s));
                assert(has_index(lists[run.first], s));
                assert(is_given(lists, s));
            }
            assert(has_index(new, some));
            assert forall|s: int| #[trigger] keeps_up(items, now, s, 1026) <==> exists|i: int|
                now.out.len() <= i < next.out.len() && #[trigger] next.out[i] == s by {
                if keeps_up(items, now, s, 1026) {
                    assert(run.alive.contains(s));
                    let k = choose|k: int| 0 <= k < new.len() && (#[trigger] new[k]).0 == s;
                    assert(next.out[k + now.out.len()] == s);
                }
                if exists|i: int| now.out.len() <= i < next.out.len() && #[trigger] next.out[i]
                    == s {
                    let i = choose|i: int|
                        now.out.len() <= i < next.out.len() && #[trigger] next.out[i] == s;
                    assert(run.alive.contains(new[i - now.out.len()].0));
                }
            }
            assert forall|s: int| #[trigger] next.done.contains(s) <==> now.done.contains(s)
                || keeps_up(items, now, s, 1026) by {
                assert(run.alive.contains(s) <==> keeps_up(items, now, s, 1026));
            }
        } else {
            assert forall|s: int| #[trigger] next.done.contains(s) <==> now.done.contains(s)
                || is_seated(items, now, s) by {
                assert(run.seated.contains(s) <==> is_seated(items, now, s));
            }
        }
    }
}

/// All turns.
pub proof fn lemma_turns(items: Seq<(u8, ChunkIndex, &SubShard)>) -> (turns: Seq<Turn>)
    requires
        forall|t: int| 0 <= t < items.len() ==> (#[trigger] items[t]).1.0 < TOTAL_SHARDS,
    ensures
        are_turns(items, turns),
        turns == Seq::new(257, |v: int| turn_at(items, v)),
{
    let turns = Seq::new(257, |v: int| turn_at(items, v));
    assert forall|v: int| 0 <= v < 256 implies is_turn(
        items,
        #[trigger] turns[v],
        turns[v + 1],
        v,
    ) by {
        lemma_turn(items, v);
    }
    assert(turns[0].out =~= Seq::empty());
    turns
}

/// Where each segment that something is given of has enough subshards, what is done has
/// come out, and at each turn something comes out.
proof fn lemma_enough_of_each(items: Seq<(u8, ChunkIndex, &SubShard)>, v: int)
    requires
        forall|t: int| 0 <= t < items.len() ==> (#[trigger] items[t]).1.0 < TOTAL_SHARDS,
        forall|s: int| #[trigger] is_any_there(items, s) ==> indexes_of(items, s).len() >= 342,
        0 <= v <= 256,
    ensures
        forall|s: int| #[trigger]
            turn_at(items, v).done.contains(s) <==> turn_at(items, v).out.contains(s),
        v < 256 && is_any_there(items, v) && !turn_at(items, v).out.contains(v) ==> turn_at(
            items,
            v,
        ).out.len() < turn_at(items, v + 1).out.len(),
    decreases v,
{
    let lists = chunk_lists(items);
    let now = turn_at(items, v);
    if v == 0 {
        assert(now.out.len() == 0);
    } else {
        let last = turn_at(items, v - 1);
        lemma_enough_of_each(items, v - 1);
        lemma_turn(items, v - 1);
        if is_any_there(items, v - 1) && !last.done.contains(v - 1) {
            lemma_enough_picks(items, v - 1);
            assert forall|s: int| #[trigger] now.done.contains(s) <==> now.out.contains(s) by {
                if last.out.contains(s) {
                    let i = choose|i: int| 0 <= i < last.out.len() && last.out[i] == s;
                    assert(last.out[i] == now.out.take(last.out.len() as int)[i]);
                    assert(now.out[i] == s);
                }
                if keeps_up(items, last, s, 1026) {
                    let i = choose|i: int|
                        last.out.len() <= i < now.out.len() && #[trigger] now.out[i] == s;
                    assert(now.out[i] == s);
                }
                if now.out.contains(s) {
                    let i = choose|i: int| 0 <= i < now.out.len() && now.out[i] == s;
                    if i < last.out.len() {
                        assert(last.out[i] == now.out.take(last.out.len() as int)[i]);
                        assert(last.out[i] == s);
                    } else {
                        assert(keeps_up(items, last, s, 1026));
                    }
                }
            }
        }
    }
    if v < 256 && is_any_there(items, v) && !now.out.contains(v) {
        lemma_turn(items, v);
        lemma_enough_picks(items, v);
    }
}

/// Where each segment that something is given of has enough subshards, enough chunks are
/// picked at each turn.
proof fn lemma_enough_picks(items: Seq<(u8, ChunkIndex, &SubShard)>, v: int)
    requires
        forall|t: int| 0 <= t < items.len() ==> (#[trigger] items[t]).1.0 < TOTAL_SHARDS,
        forall|s: int| #[trigger] is_any_there(items, s) ==> indexes_of(items, s).len() >= 342,
        is_any_there(items, v),
        !turn_at(items, v).done.contains(v),
    ensures
        turn_at(items, v).picks.len() >= 342,
{
    let lists = chunk_lists(items);
    let now = turn_at(items, v);
    let run = run_of(lists, now.done);
    lemma_is_any_there(items, v);
    lemma_run(lists, now.done, 1026);
    lemma_run_count(lists, now.done, 1026, v);
    lemma_indexes_of(items, v);
    assert(run.count > 0);
    let s = choose|s: int| #[trigger] run.alive.contains(s);
    assert(run.seated.contains(s));
    assert(has_index(lists[run.first], s));
    assert(is_given(lists, s));
    lemma_is_any_there(items, s);
    lemma_indexes_of(items, s);
    lemma_run_count(lists, now.done, 1026, s);
}

/// Where each segment that something is given of has enough subshards, at the turn of one
/// that has not come out yet some segment comes out. `cuts[v]` segments have come out
/// before the turn of segment `v`.
pub proof fn lemma_each_turn_brings_one(
    items: Seq<(u8, ChunkIndex, &SubShard)>,
    turns: Seq<Turn>,
) -> (cuts: Seq<int>)
    requires
        forall|t: int| 0 <= t < items.len() ==> (#[trigger] items[t]).1.0 < TOTAL_SHARDS,
        forall|s: int| #[trigger] is_any_there(items, s) ==> indexes_of(items, s).len() >= 342,
        turns == Seq::new(257, |v: int| turn_at(items, v)),
    ensures
        cuts.len() == 257,
        cuts[0] == 0,
        cuts[256] == turns[256].out.len(),
        forall|v: int| 0 <= v <= 256 ==> 0 <= #[trigger] cuts[v] <= cuts[256],
        forall|v: int|
            0 <= v < 256 ==> (#[trigger] cuts[v] < cuts[v + 1] <==> is_any_there(items, v)
                && !turns[256].out.take(cuts[v]).contains(v)),
        forall|v: int| 0 <= v < 256 ==> #[trigger] cuts[v] <= cuts[v + 1],
{
    let cuts = Seq::new(257, |v: int| turn_at(items, v).out.len() as int);
    let lists = chunk_lists(items);
    let out = turns[256].out;
    assert forall|v: int| 0 <= v <= 256 implies cuts[v] <= out.len() && #[trigger] turn_at(
        items,
        v,
    ).out == out.take(cuts[v]) by {
        lemma_progress_grows(lists, v, 256);
        let early = progress(lists, v).found;
        let all = progress(lists, 256).found;
        assert forall|i: int| 0 <= i < early.len() implies early[i] == all[i] by {
            assert(all.take(early.len() as int)[i] == all[i]);
        }
        assert(turn_at(items, v).out =~= out.take(cuts[v]));
    }
    assert forall|v: int| 0 <= v < 256 implies (#[trigger] cuts[v] < cuts[v + 1] <==> is_any_there(
        items,
        v,
    ) && !out.take(cuts[v]).contains(v)) && cuts[v] <= cuts[v + 1] by {
        lemma_enough_of_each(items, v);
        lemma_turn(items, v);
        lemma_progress_grows(lists, v, v + 1);
        assert(turn_at(items, v).out == out.take(cuts[v]));
    }
    cuts
}

/// Who is seated at the turns.
pub proof fn lemma_seats(items: Seq<(u8, ChunkIndex, &SubShard)>, turns: Seq<Turn>)
    requires
        forall|t: int| 0 <= t < items.len() ==> (#[trigger] items[t]).1.0 < TOTAL_SHARDS,
        turns == Seq::new(257, |v: int| turn_at(items, v)),
    ensures
        !seats_fit(chunk_lists(items)) <==> exists|v: int, s: int|
            {
                &&& 0 <= v < 256
                &&& is_any_there(items, v)
                &&& !turns[v].done.contains(v)
                &&& #[trigger] is_seated(items, turns[v], s)
                &&& s >= 16
            },
{
    let lists = chunk_lists(items);
    assert forall|v: int| 0 <= v < 256 && has_turn(lists, progress(lists, v).done, v) implies (
    forall|s: int| #[trigger]
        run_of(lists, progress(lists, v).done).seated.contains(s) <==> is_seated(
            items,
            turns[v],
            s,
        )) by {
        lemma_are_picks(items, turns[v], v);
    }
    assert forall|v: int| #[trigger] is_given(lists, v) == is_any_there(items, v) by {
        lemma_is_any_there(items, v);
    }
    if !seats_fit(lists) {
        let (v, s) = choose|v: int, s: int|
            #![trigger run_of(lists, progress(lists, v).done).seated.contains(s)]
            0 <= v < 256 && has_turn(lists, progress(lists, v).done, v) && run_of(
                lists,
                progress(lists, v).done,
            ).seated.contains(s) && s >= 16;
        assert(is_given(lists, v));
        assert(is_seated(items, turns[v], s));
    }
    if exists|v: int, s: int|
        {
            &&& 0 <= v < 256
            &&& is_any_there(items, v)
            &&& !turns[v].done.contains(v)
            &&& #[trigger] is_seated(items, turns[v], s)
            &&& s >= 16
        } {
        let (v, s) = choose|v: int, s: int|
            {
                &&& 0 <= v < 256
                &&& is_any_there(items, v)
                &&& !turns[v].done.contains(v)
                &&& #[trigger] is_seated(items, turns[v], s)
                &&& s >= 16
            };
        assert(is_given(lists, v));
        assert(has_turn(lists, progress(lists, v).done, v));
        assert(run_of(lists, progress(lists, v).done).seated.contains(s));
    }
}

/// The chunks of a segment are those with which subshards of it are given.
proof fn lemma_chunks_of(items: Seq<(u8, ChunkIndex, &SubShard)>, s: int)
    requires
        forall|t: int| 0 <= t < items.len() ==> (#[trigger] items[t]).1.0 < TOTAL_SHARDS,
    ensures
        chunks_of(chunk_lists(items), s) == indexes_of(items, s),
{
    let lists = chunk_lists(items);
    assert forall|c: int| chunks_of(lists, s).contains(c) == indexes_of(items, s).contains(c) by {
        lemma_is_there(items, s, c);
        if is_there(items, s, c) {
            let t = choose|t: int|
                0 <= t < items.len() && (#[trigger] items[t]).0 == s && items[t].1.0 == c;
            assert(items[t].1.0 < TOTAL_SHARDS);
        }
    }
    assert(chunks_of(lists, s) =~= indexes_of(items, s));
}

/// Of two segments the one with the smaller number starts with an earlier chunk, or both
/// have the same chunks.
pub open spec fn is_in_order(items: Seq<(u8, ChunkIndex, &SubShard)>, s: int, t: int) -> bool {
    indexes_of(items, s) == indexes_of(items, t) || exists|f: int| #[trigger]
        is_there(items, s, f) && forall|c: int| #[trigger] is_there(items, t, c) ==> f < c
}

/// Segments in order are in order in the lists.
pub proof fn lemma_in_order(items: Seq<(u8, ChunkIndex, &SubShard)>)
    requires
        forall|t: int| 0 <= t < items.len() ==> (#[trigger] items[t]).1.0 < TOTAL_SHARDS,
        forall|s: int, t: int|
            #![trigger is_any_there(items, s), is_any_there(items, t)]
            s < t && is_any_there(items, s) && is_any_there(items, t) ==> is_in_order(items, s, t),
    ensures
        are_in_order(chunk_lists(items)),
{
    let lists = chunk_lists(items);
    assert forall|s: int, t: int|
        #![trigger is_given(lists, s), is_given(lists, t)]
        s < t && is_given(lists, s) && is_given(lists, t) implies first_chunk(lists, s, 0)
        < first_chunk(lists, t, 0) || chunks_of(lists, s) == chunks_of(lists, t) by {
        lemma_is_any_there(items, s);
        lemma_is_any_there(items, t);
        assert(is_in_order(items, s, t));
        lemma_chunks_of(items, s);
        lemma_chunks_of(items, t);
        if indexes_of(items, s) != indexes_of(items, t) {
            let f = choose|f: int| #[trigger]
                is_there(items, s, f) && forall|c: int| #[trigger] is_there(items, t, c) ==> f < c;
            lemma_first_chunk(lists, s, 0);
            lemma_first_chunk(lists, t, 0);
            assert(chunks_of(lists, s).contains(f)) by {
                assert(indexes_of(items, s).contains(f));
            }
            let a = first_chunk(lists, s, 0);
            let b = first_chunk(lists, t, 0);
            assert(has_index(lists[f], s));
            assert(a <= f);
            let c = choose|c: int| 0 <= c < lists.len() && #[trigger] has_index(lists[c], t);
            assert(has_index(lists[c], t));
            assert(b < lists.len());
            lemma_is_there(items, t, b);
        }
    }
}

/// Segments with the same chunks are aligned in the lists.
pub proof fn lemma_aligned(items: Seq<(u8, ChunkIndex, &SubShard)>)
    requires
        forall|t: int| 0 <= t < items.len() ==> (#[trigger] items[t]).1.0 < TOTAL_SHARDS,
        forall|s: int, t: int|
            #![trigger is_any_there(items, s), is_any_there(items, t)]
            is_any_there(items, s) && is_any_there(items, t) ==> indexes_of(items, s)
                == indexes_of(items, t),
    ensures
        are_aligned(chunk_lists(items)),
{
    let lists = chunk_lists(items);
    assert forall|s: int, t: int|
        #![trigger is_given(lists, s), is_given(lists, t)]
        is_given(lists, s) && is_given(lists, t) implies chunks_of(lists, s) == chunks_of(
        lists,
        t,
    ) by {
        lemma_is_any_there(items, s);
        lemma_is_any_there(items, t);
        lemma_chunks_of(items, s);
        lemma_chunks_of(items, t);
    }
}

/// The last item of a segment and a chunk is the last in the list of the chunk.
pub proof fn lemma_last_item(items: Seq<(u8, ChunkIndex, &SubShard)>, t: int)
    requires
        0 <= t < items.len(),
        forall|u: int|
            t < u < items.len() ==> (#[trigger] items[u]).0 != items[t].0 || items[u].1.0
                != items[t].1.0,
    ensures
        last_of(chunk_list(items, items[t].1.0 as int), items[t].0 as int) == items[t].2@,
    decreases items.len(),
{
    let rest = items.drop_last();
    let c = items[t].1.0 as int;
    let item = items.last();
    if item.1.0 == c {
        lemma_list_push(
            chunk_list(rest, c),
            (item.0 as int, item.2@),
            items[t].0 as int,
        );
    }
    if t < rest.len() {
        assert(rest[t] == items[t]);
        assert forall|u: int| t < u < rest.len() implies (#[trigger] rest[u]).0 != rest[t].0
            || rest[u].1.0 != rest[t].1.0 by {
            assert(rest[u] == items[u]);
        }
        lemma_last_item(rest, t);
        assert(items[items.len() - 1] == item);
    }
}

/// The first item of a segment and a chunk is the first in the list of the chunk.
pub proof fn lemma_first_item(items: Seq<(u8, ChunkIndex, &SubShard)>, t: int)
    requires
        0 <= t < items.len(),
        forall|u: int|
            0 <= u < t ==> (#[trigger] items[u]).0 != items[t].0 || items[u].1.0 != items[t].1.0,
    ensures
        first_of(chunk_list(items, items[t].1.0 as int), items[t].0 as int) == items[t].2@,
    decreases items.len(),
{
    let rest = items.drop_last();
    let c = items[t].1.0 as int;
    let s = items[t].0 as int;
    let item = items.last();
    lemma_is_there(rest, s, c);
    if item.1.0 == c {
        lemma_list_push(chunk_list(rest, c), (item.0 as int, item.2@), s);
    }
    if t < rest.len() {
        assert(rest[t] == items[t]);
        assert forall|u: int| 0 <= u < t implies (#[trigger] rest[u]).0 != rest[t].0
            || rest[u].1.0 != rest[t].1.0 by {
            assert(rest[u] == items[u]);
        }
        lemma_first_item(rest, t);
        assert(is_there(rest, s, c));
    } else if is_there(rest, s, c) {
        let u = choose|u: int| 0 <= u < rest.len() && (#[trigger] rest[u]).0 == s && rest[u].1.0
            == c;
        assert(rest[u] == items[u]);
    }
}

/// What a segment that comes out at a turn is made of.
pub proof fn lemma_bytes_at_turn(
    items: Seq<(u8, ChunkIndex, &SubShard)>,
    turns: Seq<Turn>,
    v: int,
    i: int,
)
    requires
        forall|t: int| 0 <= t < items.len() ==> (#[trigger] items[t]).1.0 < TOTAL_SHARDS,
        turns == Seq::new(257, |w: int| turn_at(items, w)),
        0 <= v < 256,
        turns[v].out.len() <= i < turns[v + 1].out.len(),
    ensures
        i < progress(chunk_lists(items), 256).found.len(),
        progress(chunk_lists(items), 256).found[i].1 == run_segment(
            chunk_lists(items),
            run_of(chunk_lists(items), turns[v].done),
            progress(chunk_lists(items), 256).found[i].0,
        ),
        keeps_up(items, turns[v], progress(chunk_lists(items), 256).found[i].0, 1026),
        is_first(items, turns[v]),
        are_picks(items, turns[v]),
        turns[v].picks.len() == 342,
        run_of(chunk_lists(items), turns[v].done).picks == turns[v].picks,
        run_of(chunk_lists(items), turns[v].done).first == turns[v].first,
{
    let lists = chunk_lists(items);
    let before = progress(lists, v);
    let after = progress(lists, v + 1);
    let all = progress(lists, 256).found;
    let run = run_of(lists, before.done);
    lemma_turn(items, v);
    lemma_run(lists, before.done, 1026);
    lemma_progress_grows(lists, v + 1, 256);
    assert(after.found == all.take(after.found.len() as int));
    assert(all[i] == after.found[i]);
    assert(has_turn(lists, before.done, v));
    let new = run_segments(lists, run, 256);
    assert(after.found[i] == new[i - before.found.len()]);
    lemma_run_segments_bytes(lists, run, 256);
    assert(turns[v + 1].out[i] == all[i].0);
}

/// The bytes of the segments that come out of a run.
proof fn lemma_run_segments_bytes(lists: Seq<Seq<(int, Seq<u8>)>>, run: Run, n: int)
    ensures
        forall|j: int|
            0 <= j < run_segments(lists, run, n).len() ==> (#[trigger] run_segments(
                lists,
                run,
                n,
            )[j]).1 == run_segment(lists, run, run_segments(lists, run, n)[j].0),
    decreases n,
{
    if n > 0 {
        lemma_run_segments_bytes(lists, run, n - 1);
        let rest = run_segments(lists, run, n - 1);
        let all = run_segments(lists, run, n);
        assert forall|j: int| 0 <= j < all.len() implies (#[trigger] all[j]).1 == run_segment(
            lists,
            run,
            all[j].0,
        ) by {
            if j < rest.len() {
                assert(all[j] == rest[j]);
            }
        }
    }
}

} // verus!
