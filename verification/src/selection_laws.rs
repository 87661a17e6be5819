//! Which segments come out of decoding.

use vstd::prelude::*;

use crate::chunks::ChunkIndex;
use crate::codec::has_index;
use crate::segment::{SubShard, N_SHARDS, TOTAL_SHARDS};
use crate::selection::{
    candidates, chunk_list, chunk_lists, has_turn, is_given, is_picked, lemma_list_items, lemma_run,
    progress, run_of, run_segments, run_upto, Run,
};

verus! {

/// The chunks below `c` that have a subshard of segment `s`, counted.
pub open spec fn chunk_count(lists: Seq<Seq<(int, Seq<u8>)>>, s: int, c: int) -> int
    decreases c,
{
    if c <= 0 {
        0
    } else {
        chunk_count(lists, s, c - 1) + if has_index(lists[c - 1], s) {
            1int
        } else {
            0
        }
    }
}

/// As many chunks as there are original shards have a subshard of segment `s`.
pub open spec fn has_enough(lists: Seq<Seq<(int, Seq<u8>)>>, s: int) -> bool {
    chunk_count(lists, s, lists.len() as int) >= N_SHARDS
}

/// The chunks that have a subshard of segment `s`.
pub open spec fn chunks_of(lists: Seq<Seq<(int, Seq<u8>)>>, s: int) -> Set<int> {
    Set::new(|c: int| 0 <= c < lists.len() && has_index(lists[c], s))
}

/// The first chunk from `c` on that has a subshard of segment `s`.
pub open spec fn first_chunk(lists: Seq<Seq<(int, Seq<u8>)>>, s: int, c: int) -> int
    decreases lists.len() - c,
{
    if c >= lists.len() || has_index(lists[c], s) {
        c
    } else {
        first_chunk(lists, s, c + 1)
    }
}

/// Of two segments that something is given of, the one with the smaller number
/// starts with an earlier chunk, unless both have the same chunks.
pub open spec fn are_in_order(lists: Seq<Seq<(int, Seq<u8>)>>) -> bool {
    forall|s: int, t: int|
        #![trigger is_given(lists, s), is_given(lists, t)]
        s < t && is_given(lists, s) && is_given(lists, t) ==> first_chunk(lists, s, 0)
            < first_chunk(lists, t, 0) || chunks_of(lists, s) == chunks_of(lists, t)
}

/// Segment `s` has enough subshards, and no segment before it has the same chunks.
pub open spec fn is_leader(lists: Seq<Seq<(int, Seq<u8>)>>, s: int) -> bool {
    &&& is_given(lists, s)
    &&& has_enough(lists, s)
    &&& forall|u: int|
        0 <= u < s && #[trigger] is_given(lists, u) ==> chunks_of(lists, u) != chunks_of(lists, s)
}

/// How many different chunks the segments below `v` with enough subshards have.
pub open spec fn leader_count(lists: Seq<Seq<(int, Seq<u8>)>>, v: int) -> int
    decreases v,
{
    if v <= 0 {
        0
    } else {
        leader_count(lists, v - 1) + if is_leader(lists, v - 1) {
            1int
        } else {
            0
        }
    }
}

/// A segment that is alive has a subshard in each chunk that is picked.
proof fn lemma_alive_count(lists: Seq<Seq<(int, Seq<u8>)>>, done: Set<int>, c: int, s: int)
    requires
        0 <= c <= lists.len(),
        run_upto(lists, done, c).alive.contains(s),
    ensures
        chunk_count(lists, s, c) >= run_upto(lists, done, c).count,
    decreases c,
{
    if c > 0 {
        let before = run_upto(lists, done, c - 1);
        if is_picked(lists[c - 1], done, before) {
            assert(candidates(lists[c - 1], done, before).contains(s));
            if before.count > 0 {
                lemma_alive_count(lists, done, c - 1, s);
            } else {
                lemma_chunk_count(lists, s, c - 1);
            }
        } else {
            lemma_alive_count(lists, done, c - 1, s);
        }
    }
}

/// Counts are natural.
pub proof fn lemma_chunk_count(lists: Seq<Seq<(int, Seq<u8>)>>, s: int, c: int)
    ensures
        0 <= chunk_count(lists, s, c),
    decreases c,
{
    if c > 0 {
        lemma_chunk_count(lists, s, c - 1);
    }
}

/// The segments that come out of a run are those alive, by ascending number.
pub proof fn lemma_run_segments(lists: Seq<Seq<(int, Seq<u8>)>>, run: Run, n: int)
    requires
        0 <= n,
    ensures
        forall|s: int| #[trigger]
            has_index(run_segments(lists, run, n), s) <==> 0 <= s < n && run.alive.contains(s),
        forall|i: int, j: int|
            0 <= i < j < run_segments(lists, run, n).len() ==> (#[trigger] run_segments(
                lists,
                run,
                n,
            )[i]).0 < (#[trigger] run_segments(lists, run, n)[j]).0,
        forall|i: int|
            0 <= i < run_segments(lists, run, n).len() ==> 0 <= (#[trigger] run_segments(
                lists,
                run,
                n,
            )[i]).0 < n && run.alive.contains(run_segments(lists, run, n)[i].0),
    decreases n,
{
    let all = run_segments(lists, run, n);
    if n > 0 {
        lemma_run_segments(lists, run, n - 1);
        let rest = run_segments(lists, run, n - 1);
        assert forall|s: int| #[trigger] has_index(all, s) <==> 0 <= s < n
            && run.alive.contains(s) by {
            if run.alive.contains(n - 1) {
                crate::selection::lemma_list_push(rest, all.last(), s);
                assert(all =~= rest.push(all.last()));
            }
            assert(has_index(rest, s) <==> 0 <= s < n - 1 && run.alive.contains(s));
        }
    } else {
        assert forall|s: int| !#[trigger] has_index(all, s) by {}
    }
}

/// No segment comes out twice, and only segments of which enough chunks have a
/// subshard come out.
pub proof fn lemma_what_comes_out(lists: Seq<Seq<(int, Seq<u8>)>>, v: int)
    requires
        lists.len() == TOTAL_SHARDS,
    ensures
        forall|i: int, j: int|
            0 <= i < j < progress(lists, v).found.len() ==> (#[trigger] progress(
                lists,
                v,
            ).found[i]).0 != (#[trigger] progress(lists, v).found[j]).0,
        forall|i: int|
            0 <= i < progress(lists, v).found.len() ==> {
                &&& has_enough(lists, (#[trigger] progress(lists, v).found[i]).0)
                &&& progress(lists, v).done.contains(progress(lists, v).found[i].0)
            },
    decreases v,
{
    if v > 0 {
        lemma_what_comes_out(lists, v - 1);
        let before = progress(lists, v - 1);
        let run = run_of(lists, before.done);
        if has_turn(lists, before.done, v - 1) && run.count >= N_SHARDS {
            let new = run_segments(lists, run, 256);
            lemma_run(lists, before.done, TOTAL_SHARDS as int);
            lemma_run_segments(lists, run, 256);
            assert forall|i: int| 0 <= i < new.len() implies has_enough(
                lists,
                (#[trigger] new[i]).0,
            ) && !before.done.contains(new[i].0) by {
                assert(run.alive.contains(new[i].0));
                assert(run.seated.contains(new[i].0));
                lemma_alive_count(lists, before.done, TOTAL_SHARDS as int, new[i].0);
            }
            let found = before.found + new;
            assert forall|i: int| 0 <= i < found.len() implies #[trigger] found[i] == (if i
                < before.found.len() {
                before.found[i]
            } else {
                new[i - before.found.len()]
            }) by {}
        }
    }
}

/// The first chunk has a subshard, and none before it has.
pub proof fn lemma_first_chunk(lists: Seq<Seq<(int, Seq<u8>)>>, s: int, c: int)
    requires
        0 <= c <= lists.len(),
    ensures
        c <= first_chunk(lists, s, c) <= lists.len(),
        first_chunk(lists, s, c) < lists.len() ==> has_index(
            lists[first_chunk(lists, s, c)],
            s,
        ),
        forall|d: int|
            c <= d < first_chunk(lists, s, c) ==> !#[trigger] has_index(lists[d], s),
    decreases lists.len() - c,
{
    if c < lists.len() && !has_index(lists[c], s) {
        lemma_first_chunk(lists, s, c + 1);
    }
}

/// Segments with the same chunks start with the same chunk.
proof fn lemma_same_first(lists: Seq<Seq<(int, Seq<u8>)>>, s: int, t: int)
    requires
        chunks_of(lists, s) == chunks_of(lists, t),
    ensures
        first_chunk(lists, s, 0) == first_chunk(lists, t, 0),
{
    lemma_first_chunk(lists, s, 0);
    lemma_first_chunk(lists, t, 0);
    let f = first_chunk(lists, s, 0);
    let g = first_chunk(lists, t, 0);
    if f < g {
        assert(chunks_of(lists, s).contains(f));
        assert(chunks_of(lists, t).contains(f));
        assert(has_index(lists[f], t));
    } else if g < f {
        assert(chunks_of(lists, t).contains(g));
        assert(chunks_of(lists, s).contains(g));
        assert(has_index(lists[g], s));
    }
}

/// Segments with the same chunks have as many of them.
proof fn lemma_same_count(lists: Seq<Seq<(int, Seq<u8>)>>, s: int, t: int, c: int)
    requires
        chunks_of(lists, s) == chunks_of(lists, t),
        c <= lists.len(),
    ensures
        chunk_count(lists, s, c) == chunk_count(lists, t, c),
    decreases c,
{
    if c > 0 {
        lemma_same_count(lists, s, t, c - 1);
        let d = c - 1;
        assert(chunks_of(lists, s).contains(d) == has_index(lists[d], s));
        assert(chunks_of(lists, t).contains(d) == has_index(lists[d], t));
    }
}

/// The segments with the same chunks as `v`.
spec fn class_of(lists: Seq<Seq<(int, Seq<u8>)>>, v: int) -> Set<int> {
    Set::new(|s: int| is_given(lists, s) && chunks_of(lists, s) == chunks_of(lists, v))
}

/// Segment `v` is the first that is not done, and neither are those with the
/// same chunks.
spec fn is_next(lists: Seq<Seq<(int, Seq<u8>)>>, done: Set<int>, v: int) -> bool {
    &&& is_given(lists, v)
    &&& forall|s: int| #[trigger] is_given(lists, s) && !done.contains(s) ==> v <= s
    &&& forall|s: int| #[trigger] class_of(lists, v).contains(s) ==> !done.contains(s)
}

/// A segment that is not done and has a subshard in a chunk no later than the
/// first of `v` has the same chunks as `v`.
proof fn lemma_class(lists: Seq<Seq<(int, Seq<u8>)>>, done: Set<int>, v: int, c: int, s: int)
    requires
        are_in_order(lists),
        is_next(lists, done, v),
        0 <= c < lists.len(),
        c <= first_chunk(lists, v, 0),
        has_index(lists[c], s),
        !done.contains(s),
    ensures
        class_of(lists, v).contains(s),
        c == first_chunk(lists, v, 0),
{
    assert(is_given(lists, s));
    lemma_first_chunk(lists, s, 0);
    lemma_first_chunk(lists, v, 0);
    if s != v {
        assert(v < s);
        if chunks_of(lists, v) == chunks_of(lists, s) {
            lemma_same_first(lists, v, s);
        }
    }
}

/// At the turn of `v` the run seats the segments with the same chunks as `v`, and
/// all of them stay.
proof fn lemma_run_of_class(lists: Seq<Seq<(int, Seq<u8>)>>, done: Set<int>, v: int, c: int)
    requires
        are_in_order(lists),
        is_next(lists, done, v),
        0 <= c <= lists.len(),
    ensures
        ({
            let run = run_upto(lists, done, c);
            let count = chunk_count(lists, v, c);
            &&& run.count == if count < N_SHARDS {
                count
            } else {
                N_SHARDS as int
            }
            &&& run.count > 0 <==> c > first_chunk(lists, v, 0)
            &&& run.count > 0 ==> run.seated == class_of(lists, v) && run.alive == class_of(
                lists,
                v,
            )
        }),
    decreases c,
{
    let f = first_chunk(lists, v, 0);
    lemma_first_chunk(lists, v, 0);
    if c > 0 {
        lemma_run_of_class(lists, done, v, c - 1);
        lemma_chunk_count(lists, v, c - 1);
        let d = c - 1;
        let list = lists[d];
        let before = run_upto(lists, done, d);
        let stay = candidates(list, done, before);
        let class = class_of(lists, v);
        if d < f {
            assert forall|s: int| !#[trigger] stay.contains(s) by {
                if stay.contains(s) {
                    lemma_class(lists, done, v, d, s);
                }
            }
        } else if d == f {
            assert(class.contains(v));
            assert(stay =~= class) by {
                assert forall|s: int| stay.contains(s) <==> class.contains(s) by {
                    if stay.contains(s) {
                        lemma_class(lists, done, v, d, s);
                    }
                    if class.contains(s) {
                        assert(chunks_of(lists, v).contains(d));
                        assert(chunks_of(lists, s).contains(d));
                    }
                }
            }
            assert(stay.contains(v));
        } else if before.count < N_SHARDS {
            if has_index(list, v) {
                assert(stay =~= class) by {
                    assert forall|s: int| stay.contains(s) <==> class.contains(s) by {
                        if class.contains(s) {
                            assert(chunks_of(lists, v).contains(d));
                            assert(chunks_of(lists, s).contains(d));
                        }
                    }
                }
                assert(class.contains(v));
                assert(stay.contains(v));
            } else {
                assert forall|s: int| !#[trigger] stay.contains(s) by {
                    if stay.contains(s) {
                        assert(class.contains(s));
                        assert(chunks_of(lists, s).contains(d));
                        assert(chunks_of(lists, v).contains(d));
                    }
                }
            }
        }
    }
}

/// A segment below `v` has the same chunks as `s`.
spec fn is_seen(lists: Seq<Seq<(int, Seq<u8>)>>, v: int, s: int) -> bool {
    &&& is_given(lists, s)
    &&& exists|u: int|
        0 <= u < v && #[trigger] is_given(lists, u) && chunks_of(lists, u) == chunks_of(lists, s)
}

/// Only numbers of segments are given.
pub open spec fn are_numbers(lists: Seq<Seq<(int, Seq<u8>)>>) -> bool {
    forall|s: int| #[trigger] is_given(lists, s) ==> 0 <= s < 256
}

/// A segment whose turn it is has the next chunks.
proof fn lemma_is_next(lists: Seq<Seq<(int, Seq<u8>)>>, done: Set<int>, v: int)
    requires
        are_numbers(lists),
        forall|s: int| #[trigger] done.contains(s) <==> is_seen(lists, v, s),
        has_turn(lists, done, v),
    ensures
        is_next(lists, done, v),
        first_chunk(lists, v, 0) < lists.len(),
        forall|s: int| #[trigger]
            is_seen(lists, v + 1, s) <==> done.contains(s) || class_of(lists, v).contains(s),
{
    assert forall|s: int| #[trigger] is_given(lists, s) && !done.contains(s) implies v <= s by {
        if s < v {
            assert(is_seen(lists, v, s));
        }
    }
    assert forall|s: int| #[trigger] class_of(lists, v).contains(s) implies !done.contains(s) by {
        if done.contains(s) {
            assert(is_seen(lists, v, s));
            let u = choose|u: int|
                0 <= u < v && #[trigger] is_given(lists, u) && chunks_of(lists, u) == chunks_of(
                    lists,
                    s,
                );
            assert(is_seen(lists, v, v));
        }
    }
    let c = choose|c: int| 0 <= c < lists.len() && #[trigger] has_index(lists[c], v);
    lemma_first_chunk(lists, v, 0);
    assert(has_index(lists[c], v));
    assert forall|s: int| #[trigger]
        is_seen(lists, v + 1, s) <==> done.contains(s) || class_of(lists, v).contains(s) by {
        if is_seen(lists, v + 1, s) {
            let u = choose|u: int|
                0 <= u < v + 1 && #[trigger] is_given(lists, u) && chunks_of(lists, u)
                    == chunks_of(lists, s);
            if u < v {
                assert(is_seen(lists, v, s));
            }
        }
        if done.contains(s) {
            assert(is_seen(lists, v, s));
            let u = choose|u: int|
                0 <= u < v && #[trigger] is_given(lists, u) && chunks_of(lists, u) == chunks_of(
                    lists,
                    s,
                );
            assert(0 <= u < v + 1);
        }
        if class_of(lists, v).contains(s) {
            assert(is_given(lists, v));
        }
    }
}

/// Where a segment has no turn nothing new is seen.
proof fn lemma_no_turn(lists: Seq<Seq<(int, Seq<u8>)>>, done: Set<int>, v: int)
    requires
        0 <= v,
        forall|s: int| #[trigger] done.contains(s) <==> is_seen(lists, v, s),
        !has_turn(lists, done, v),
    ensures
        forall|s: int| #[trigger] is_seen(lists, v + 1, s) <==> is_seen(lists, v, s),
{
    assert forall|s: int| #[trigger] is_seen(lists, v + 1, s) <==> is_seen(lists, v, s) by {
        if is_seen(lists, v + 1, s) {
            let u = choose|u: int|
                0 <= u < v + 1 && #[trigger] is_given(lists, u) && chunks_of(lists, u)
                    == chunks_of(lists, s);
            if u == v {
                assert(done.contains(v));
                assert(is_seen(lists, v, v));
                let w = choose|w: int|
                    0 <= w < v && #[trigger] is_given(lists, w) && chunks_of(lists, w)
                        == chunks_of(lists, v);
                assert(is_given(lists, w) && chunks_of(lists, w) == chunks_of(lists, s));
            }
        }
        if is_seen(lists, v, s) {
            let u = choose|u: int|
                0 <= u < v && #[trigger] is_given(lists, u) && chunks_of(lists, u) == chunks_of(
                    lists,
                    s,
                );
            assert(0 <= u < v + 1);
        }
    }
}

/// How far decoding has come where the segments are in order.
proof fn lemma_progress(lists: Seq<Seq<(int, Seq<u8>)>>, v: int)
    requires
        lists.len() == TOTAL_SHARDS,
        are_in_order(lists),
        are_numbers(lists),
        0 <= v <= 256,
    ensures
        forall|s: int| #[trigger] progress(lists, v).done.contains(s) <==> is_seen(lists, v, s),
        forall|s: int| #[trigger]
            has_index(progress(lists, v).found, s) <==> is_seen(lists, v, s) && has_enough(
                lists,
                s,
            ),
        forall|i: int, j: int|
            0 <= i < j < progress(lists, v).found.len() ==> (#[trigger] progress(
                lists,
                v,
            ).found[i]).0 < (#[trigger] progress(lists, v).found[j]).0,
        progress(lists, v).decodes == leader_count(lists, v),
    decreases v,
{
    if v == 0 {
        assert forall|s: int| !#[trigger] has_index(progress(lists, 0).found, s) by {}
    } else {
        let u = v - 1;
        lemma_progress(lists, u);
        let before = progress(lists, u);
        let after = progress(lists, v);
        let done = before.done;
        assert(is_given(lists, u) ==> (done.contains(u) <==> !(forall|w: int|
            0 <= w < u && #[trigger] is_given(lists, w) ==> chunks_of(lists, w) != chunks_of(
                lists,
                u,
            )))) by {
            assert(done.contains(u) <==> is_seen(lists, u, u));
        }
        if !has_turn(lists, done, u) {
            lemma_no_turn(lists, done, u);
        } else {
            lemma_is_next(lists, done, u);
            lemma_run_of_class(lists, done, u, TOTAL_SHARDS as int);
            let run = run_of(lists, done);
            let class = class_of(lists, u);
            assert forall|s: int| #[trigger] class.contains(s) implies has_enough(lists, s)
                == has_enough(lists, u) by {
                lemma_same_count(lists, s, u, lists.len() as int);
            }
            if run.count >= N_SHARDS {
                let new = run_segments(lists, run, 256);
                lemma_run_segments(lists, run, 256);
                lemma_appended(before.found, new);
                assert forall|s: int| #[trigger] has_index(after.found, s) <==> is_seen(
                    lists,
                    v,
                    s,
                ) && has_enough(lists, s) by {
                    assert(has_index(after.found, s) <==> has_index(before.found, s) || has_index(
                        new,
                        s,
                    ));
                    assert(is_seen(lists, v, s) <==> done.contains(s) || class.contains(s));
                    if class.contains(s) {
                        assert(is_given(lists, s));
                    }
                }
                assert forall|i: int, j: int|
                    0 <= i < before.found.len() && 0 <= j < new.len() implies (
                #[trigger] before.found[i]).0 < (#[trigger] new[j]).0 by {
                    let s = before.found[i].0;
                    let k = new[j].0;
                    assert(has_index(before.found, s));
                    assert(class.contains(k));
                    lemma_earlier(lists, done, u, s, k);
                }
            } else {
                assert forall|s: int| #[trigger] has_index(after.found, s) <==> is_seen(
                    lists,
                    v,
                    s,
                ) && has_enough(lists, s) by {
                    assert(is_seen(lists, v, s) <==> done.contains(s) || class.contains(s));
                }
            }
        }
    }
}

/// What is done has smaller numbers than what comes next.
proof fn lemma_earlier(lists: Seq<Seq<(int, Seq<u8>)>>, done: Set<int>, v: int, s: int, k: int)
    requires
        are_in_order(lists),
        is_next(lists, done, v),
        forall|t: int| #[trigger] done.contains(t) <==> is_seen(lists, v, t),
        is_seen(lists, v, s),
        class_of(lists, v).contains(k),
    ensures
        s < k,
{
    let u = choose|u: int|
        0 <= u < v && #[trigger] is_given(lists, u) && chunks_of(lists, u) == chunks_of(lists, s);
    assert(!done.contains(k));
    assert(is_given(lists, k));
    assert(v <= k);
    if chunks_of(lists, u) == chunks_of(lists, k) {
        assert(is_seen(lists, v, k));
    }
    assert(first_chunk(lists, u, 0) < first_chunk(lists, k, 0));
    lemma_same_first(lists, u, s);
    if k < s {
        assert(is_given(lists, s));
        assert(chunks_of(lists, k) == chunks_of(lists, s) || first_chunk(lists, k, 0)
            < first_chunk(lists, s, 0));
    }
}

/// What stands in two sequences one after the other.
proof fn lemma_appended(a: Seq<(int, Seq<u8>)>, b: Seq<(int, Seq<u8>)>)
    ensures
        forall|s: int| #[trigger] has_index(a + b, s) <==> has_index(a, s) || has_index(b, s),
{
    assert forall|s: int| #[trigger] has_index(a + b, s) <==> has_index(a, s) || has_index(
        b,
        s,
    ) by {
        if has_index(a + b, s) {
            let k = choose|k: int| 0 <= k < (a + b).len() && (#[trigger] (a + b)[k]).0 == s;
            if k < a.len() {
                assert(a[k].0 == s);
            } else {
                assert(b[k - a.len()].0 == s);
            }
        }
        if has_index(a, s) {
            let k = choose|k: int| 0 <= k < a.len() && (#[trigger] a[k]).0 == s;
            assert((a + b)[k].0 == s);
        }
        if has_index(b, s) {
            let k = choose|k: int| 0 <= k < b.len() && (#[trigger] b[k]).0 == s;
            assert((a + b)[k + a.len()].0 == s);
        }
    }
}

/// Only numbers of segments are given.
pub proof fn lemma_numbers(items: Seq<(u8, ChunkIndex, &SubShard)>)
    ensures
        are_numbers(chunk_lists(items)),
{
    let lists = chunk_lists(items);
    assert forall|s: int| #[trigger] is_given(lists, s) implies 0 <= s < 256 by {
        let c = choose|c: int| 0 <= c < lists.len() && #[trigger] has_index(lists[c], s);
        assert(has_index(chunk_list(items, c), s));
        lemma_list_items(items, c, s);
        let t = choose|t: int|
            0 <= t < items.len() && (#[trigger] items[t]).0 == s && items[t].1.0 == c;
        assert(items[t].0 == s);
    }
}

/// Where the segments are in order, just those come out of which enough chunks
/// have a subshard, by ascending number.
pub proof fn lemma_all_come_out(items: Seq<(u8, ChunkIndex, &SubShard)>)
    requires
        are_in_order(chunk_lists(items)),
    ensures
        forall|s: int| #[trigger]
            has_index(progress(chunk_lists(items), 256).found, s) <==> has_enough(
                chunk_lists(items),
                s,
            ),
        forall|i: int, j: int|
            0 <= i < j < progress(chunk_lists(items), 256).found.len() ==> (#[trigger] progress(
                chunk_lists(items),
                256,
            ).found[i]).0 < (#[trigger] progress(chunk_lists(items), 256).found[j]).0,
{
    let lists = chunk_lists(items);
    lemma_numbers(items);
    lemma_progress(lists, 256);
    assert forall|s: int| #[trigger] has_index(progress(lists, 256).found, s) <==> has_enough(
        lists,
        s,
    ) by {
        if has_enough(lists, s) {
            lemma_enough_is_given(lists, s, TOTAL_SHARDS as int);
            assert(is_seen(lists, 256, s));
        }
    }
}

/// Where the segments are in order, the codec is run once for all segments that have
/// enough subshards and the same chunks.
pub proof fn lemma_runs(items: Seq<(u8, ChunkIndex, &SubShard)>)
    requires
        are_in_order(chunk_lists(items)),
    ensures
        progress(chunk_lists(items), 256).decodes == leader_count(chunk_lists(items), 256),
{
    lemma_numbers(items);
    lemma_progress(chunk_lists(items), 256);
}

/// Something is given of a segment that has a chunk.
proof fn lemma_enough_is_given(lists: Seq<Seq<(int, Seq<u8>)>>, s: int, c: int)
    requires
        0 <= c <= lists.len(),
        chunk_count(lists, s, c) > 0,
    ensures
        is_given(lists, s),
    decreases c,
{
    if c > 0 && !has_index(lists[c - 1], s) {
        lemma_enough_is_given(lists, s, c - 1);
    }
}

/// All segments that something is given of have the same chunks.
pub open spec fn are_aligned(lists: Seq<Seq<(int, Seq<u8>)>>) -> bool {
    forall|s: int, t: int|
        #![trigger is_given(lists, s), is_given(lists, t)]
        is_given(lists, s) && is_given(lists, t) ==> chunks_of(lists, s) == chunks_of(lists, t)
}

/// Segments that have the same chunks come out of one run of the codec if these
/// are enough, else there is no run.
pub proof fn lemma_aligned_come_out_at_once(items: Seq<(u8, ChunkIndex, &SubShard)>, s: int)
    requires
        are_aligned(chunk_lists(items)),
        is_given(chunk_lists(items), s),
    ensures
        are_in_order(chunk_lists(items)),
        progress(chunk_lists(items), 256).decodes == if has_enough(chunk_lists(items), s) {
            1int
        } else {
            0
        },
{
    let lists = chunk_lists(items);
    lemma_numbers(items);
    lemma_aligned_decodes(lists, s, 256);
}

/// The runs of the codec up to a turn where all segments have the same chunks.
proof fn lemma_aligned_decodes(lists: Seq<Seq<(int, Seq<u8>)>>, s: int, v: int)
    requires
        lists.len() == TOTAL_SHARDS,
        are_aligned(lists),
        are_numbers(lists),
        is_given(lists, s),
        0 <= v <= 256,
    ensures
        progress(lists, v).decodes == if is_seen(lists, v, s) && has_enough(lists, s) {
            1int
        } else {
            0
        },
    decreases v,
{
    if v > 0 {
        let u = v - 1;
        let before = progress(lists, u);
        lemma_aligned_decodes(lists, s, u);
        lemma_progress(lists, u);
        if !has_turn(lists, before.done, u) {
            lemma_no_turn(lists, before.done, u);
        } else {
            lemma_is_next(lists, before.done, u);
            lemma_run_of_class(lists, before.done, u, TOTAL_SHARDS as int);
            lemma_same_count(lists, s, u, lists.len() as int);
            assert(class_of(lists, u).contains(s));
            if is_seen(lists, u, s) {
                let w = choose|w: int|
                    0 <= w < u && #[trigger] is_given(lists, w) && chunks_of(lists, w)
                        == chunks_of(lists, s);
                assert(is_seen(lists, u, u));
            }
        }
    }
}

/// A run takes all chunks of a segment that stays alive, until it has enough.
pub proof fn lemma_run_count(lists: Seq<Seq<(int, Seq<u8>)>>, done: Set<int>, c: int, s: int)
    requires
        0 <= c <= lists.len(),
        !done.contains(s),
    ensures
        run_upto(lists, done, c).count == 0 ==> chunk_count(lists, s, c) == 0,
        run_upto(lists, done, c).alive.contains(s) ==> run_upto(lists, done, c).count == (
        if chunk_count(lists, s, c) < N_SHARDS {
            chunk_count(lists, s, c)
        } else {
            N_SHARDS as int
        }),
    decreases c,
{
    if c > 0 {
        lemma_run_count(lists, done, c - 1, s);
        lemma_run(lists, done, c - 1);
        lemma_chunk_count(lists, s, c - 1);
        let before = run_upto(lists, done, c - 1);
        let list = lists[c - 1];
        if has_index(list, s) && (before.count == 0 || before.alive.contains(s)) && before.count
            < N_SHARDS {
            assert(candidates(list, done, before).contains(s));
            assert(is_picked(list, done, before));
        }
        if is_picked(list, done, before) && run_upto(lists, done, c).alive.contains(s) {
            assert(candidates(list, done, before).contains(s));
        }
    }
}

/// What has come out stays out, and runs only add up.
pub proof fn lemma_progress_grows(lists: Seq<Seq<(int, Seq<u8>)>>, v: int, w: int)
    requires
        v <= w,
    ensures
        progress(lists, v).found.len() <= progress(lists, w).found.len(),
        progress(lists, v).found == progress(lists, w).found.take(
            progress(lists, v).found.len() as int,
        ),
    decreases w,
{
    let found = progress(lists, v).found;
    if v < w && w > 0 {
        lemma_progress_grows(lists, v, w - 1);
        assert(progress(lists, w).found.take(found.len() as int) =~= progress(
            lists,
            w - 1,
        ).found.take(found.len() as int));
    } else {
        assert(progress(lists, w).found.take(found.len() as int) =~= found);
    }
}

/// If enough chunks have a subshard of each segment that something is given of,
/// some segment comes out.
pub proof fn lemma_some_come_out(items: Seq<(u8, ChunkIndex, &SubShard)>, v: int)
    requires
        is_given(chunk_lists(items), v),
        forall|s: int| #[trigger]
            is_given(chunk_lists(items), s) ==> has_enough(chunk_lists(items), s),
    ensures
        progress(chunk_lists(items), 256).found.len() > 0,
    decreases v,
{
    let lists = chunk_lists(items);
    lemma_numbers(items);
    assert(0 <= v < 256);
    let before = progress(lists, v);
    let run = run_of(lists, before.done);
    if has_turn(lists, before.done, v) {
        lemma_run(lists, before.done, TOTAL_SHARDS as int);
        lemma_run_count(lists, before.done, TOTAL_SHARDS as int, v);
        let s = choose|s: int| #[trigger] run.alive.contains(s);
        assert(run.seated.contains(s));
        assert(is_given(lists, s)) by {
            assert(has_index(lists[run.first], s));
        }
        lemma_run_count(lists, before.done, TOTAL_SHARDS as int, s);
        lemma_run_segments(lists, run, 256);
        assert(has_index(run_segments(lists, run, 256), s));
        lemma_progress_grows(lists, v + 1, 256);
    } else {
        lemma_done_by_turn(lists, v, v);
        let u = choose|u: int| 0 <= u < v && #[trigger] is_given(lists, u);
        lemma_some_come_out(items, u);
    }
}

/// A segment is done only after a turn.
proof fn lemma_done_by_turn(lists: Seq<Seq<(int, Seq<u8>)>>, v: int, s: int)
    requires
        progress(lists, v).done.contains(s),
    ensures
        exists|u: int| 0 <= u < v && #[trigger] is_given(lists, u),
    decreases v,
{
    if v > 0 {
        let before = progress(lists, v - 1);
        if has_turn(lists, before.done, v - 1) {
            assert(is_given(lists, v - 1));
        } else {
            lemma_done_by_turn(lists, v - 1, s);
            let u = choose|u: int| 0 <= u < v - 1 && #[trigger] is_given(lists, u);
            assert(0 <= u < v);
        }
    }
}

} // verus!
