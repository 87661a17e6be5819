//! Which subshards are decoded together, and what comes out.
//!
//! The subshards of several segments lie side by side in the shards of a batch,
//! so one run of the codec can restore several segments, but only those that have
//! a subshard in each of the chunks that take part in it. Chunks are picked
//! greedily by ascending index. The first that has a subshard of a segment not
//! yet done seats these segments; each later one is picked if it has a subshard
//! of a segment that all chunks picked before have, and the others drop out.

use vstd::prelude::*;

use crate::chunks::ChunkIndex;
use crate::codec::{agrees, has_index, restored, restores};
use crate::layout::Point;
use crate::segment::{
    coded_point, coded_subshard, lemma_point_of_subshard_of, segment_point, segment_row,
    subshard_point, Segment, SubShard, N_REDUNDANCY, N_SHARDS, SEGMENTS_PER_SUBSHARD_BATCH_OPTIMAL,
    SEGMENT_SIZE, TOTAL_SHARDS,
};
use crate::subshard_encoder::batch_segment;

verus! {

/// The subshards that are given of chunk `c`, each with its segment, in the order
/// in which they came.
pub open spec fn chunk_list(items: Seq<(u8, ChunkIndex, &SubShard)>, c: int) -> Seq<(int, Seq<u8>)>
    decreases items.len(),
{
    if items.len() == 0 {
        Seq::empty()
    } else if items.last().1.0 == c {
        chunk_list(items.drop_last(), c).push((items.last().0 as int, items.last().2@))
    } else {
        chunk_list(items.drop_last(), c)
    }
}

/// The subshards that are given of each chunk.
pub open spec fn chunk_lists(items: Seq<(u8, ChunkIndex, &SubShard)>) -> Seq<
    Seq<(int, Seq<u8>)>,
> {
    Seq::new(TOTAL_SHARDS as nat, |c: int| chunk_list(items, c))
}

/// The first subshard of segment `s` in a list that has one.
pub open spec fn first_of(list: Seq<(int, Seq<u8>)>, s: int) -> Seq<u8>
    decreases list.len(),
{
    if list.len() == 0 {
        Seq::empty()
    } else if has_index(list.drop_last(), s) {
        first_of(list.drop_last(), s)
    } else {
        list.last().1
    }
}

/// The last subshard of segment `s` in a list that has one.
pub open spec fn last_of(list: Seq<(int, Seq<u8>)>, s: int) -> Seq<u8>
    decreases list.len(),
{
    if list.len() == 0 {
        Seq::empty()
    } else if list.last().0 == s {
        list.last().1
    } else {
        last_of(list.drop_last(), s)
    }
}

/// Something is given of segment `s`.
pub open spec fn is_given(lists: Seq<Seq<(int, Seq<u8>)>>, s: int) -> bool {
    exists|c: int| 0 <= c < lists.len() && #[trigger] has_index(lists[c], s)
}

/// The chunks that are picked for one run of the codec.
pub struct Run {
    /// How many chunks are picked.
    pub count: int,
    /// The chunk that was picked first.
    pub first: int,
    /// The chunks that are picked.
    pub picks: Set<int>,
    /// The segments that the first chunk seated.
    pub seated: Set<int>,
    /// The segments of which each of the chunks has a subshard.
    pub alive: Set<int>,
}

/// The segments that stay if a chunk is picked next.
pub open spec fn candidates(list: Seq<(int, Seq<u8>)>, done: Set<int>, run: Run) -> Set<int> {
    Set::new(
        |s: int|
            has_index(list, s) && if run.count == 0 {
                !done.contains(s)
            } else {
                run.alive.contains(s)
            },
    )
}

/// A chunk is picked if segments stay, until there are enough chunks.
pub open spec fn is_picked(list: Seq<(int, Seq<u8>)>, done: Set<int>, run: Run) -> bool {
    &&& run.count < N_SHARDS
    &&& exists|s: int| #[trigger] candidates(list, done, run).contains(s)
}

/// What is picked of the chunks below `c`.
pub open spec fn run_upto(lists: Seq<Seq<(int, Seq<u8>)>>, done: Set<int>, c: int) -> Run
    decreases c,
{
    if c <= 0 {
        Run {
            count: 0,
            first: 0,
            picks: Set::empty(),
            seated: Set::empty(),
            alive: Set::empty(),
        }
    } else {
        let before = run_upto(lists, done, c - 1);
        let stay = candidates(lists[c - 1], done, before);
        if !is_picked(lists[c - 1], done, before) {
            before
        } else if before.count == 0 {
            Run { count: 1, first: c - 1, picks: set![c - 1], seated: stay, alive: stay }
        } else {
            Run {
                count: before.count + 1,
                first: before.first,
                picks: before.picks.insert(c - 1),
                seated: before.seated,
                alive: stay,
            }
        }
    }
}

/// What is picked of all chunks.
pub open spec fn run_of(lists: Seq<Seq<(int, Seq<u8>)>>, done: Set<int>) -> Run {
    run_upto(lists, done, TOTAL_SHARDS as int)
}

/// The subshard of segment `s` that is taken of chunk `c`. If the chunk has
/// several, it is the last one where the chunk is picked first, else the first.
pub open spec fn carried(lists: Seq<Seq<(int, Seq<u8>)>>, first: int, c: int, s: int) -> Seq<u8> {
    if c == first {
        last_of(lists[c], s)
    } else {
        first_of(lists[c], s)
    }
}

/// The points `q` of the original subshards of segment `s` that are picked.
pub open spec fn given_original(
    lists: Seq<Seq<(int, Seq<u8>)>>,
    run: Run,
    s: int,
    q: int,
) -> Map<int, Point> {
    Map::new(
        |i: int| 0 <= i < N_SHARDS && run.picks.contains(i),
        |i: int| subshard_point(carried(lists, run.first, i, s), q),
    )
}

/// The points `q` of the recovery subshards of segment `s` that are picked.
pub open spec fn given_recovery(
    lists: Seq<Seq<(int, Seq<u8>)>>,
    run: Run,
    s: int,
    q: int,
) -> Map<int, Point> {
    Map::new(
        |j: int| 0 <= j && run.picks.contains(j + N_SHARDS),
        |j: int| subshard_point(carried(lists, run.first, j + N_SHARDS, s), q),
    )
}

/// Point `q` of the original subshard `a` of segment `s`, given or restored.
pub open spec fn run_point(
    lists: Seq<Seq<(int, Seq<u8>)>>,
    run: Run,
    s: int,
    q: int,
    a: int,
) -> Point {
    if run.picks.contains(a) {
        given_original(lists, run, s, q)[a]
    } else {
        restored(
            N_SHARDS as int,
            N_REDUNDANCY * N_SHARDS,
            given_original(lists, run, s, q),
            given_recovery(lists, run, s, q),
        )[a]
    }
}

/// The bytes of segment `s`.
pub open spec fn run_segment(lists: Seq<Seq<(int, Seq<u8>)>>, run: Run, s: int) -> Seq<u8> {
    Seq::new(
        SEGMENT_SIZE as nat,
        |b: int|
            {
                let p = run_point(lists, run, s, b / 2 / N_SHARDS as int, b / 2 % N_SHARDS as int);
                if b % 2 == 0 {
                    p.0
                } else {
                    p.1
                }
            },
    )
}

/// The segments below `n` that come out of a run, by ascending number.
pub open spec fn run_segments(lists: Seq<Seq<(int, Seq<u8>)>>, run: Run, n: int) -> Seq<
    (int, Seq<u8>),
>
    decreases n,
{
    if n <= 0 {
        Seq::empty()
    } else if run.alive.contains(n - 1) {
        run_segments(lists, run, n - 1).push((n - 1, run_segment(lists, run, n - 1)))
    } else {
        run_segments(lists, run, n - 1)
    }
}

/// How far decoding has come.
pub struct Progress {
    /// The segments that no later run seats.
    pub done: Set<int>,
    /// The segments that have come out, with their bytes.
    pub found: Seq<(int, Seq<u8>)>,
    /// How many runs of the codec there were.
    pub decodes: int,
}

/// A run is made at the turn of segment `s`: something is given of it, and it is
/// not done.
pub open spec fn has_turn(lists: Seq<Seq<(int, Seq<u8>)>>, done: Set<int>, s: int) -> bool {
    is_given(lists, s) && !done.contains(s)
}

/// How far decoding has come after the turns of the segments below `v`.
///
/// A run with too few chunks yields nothing, and the segments that it seated are
/// done.
pub open spec fn progress(lists: Seq<Seq<(int, Seq<u8>)>>, v: int) -> Progress
    decreases v,
{
    if v <= 0 {
        Progress { done: Set::empty(), found: Seq::empty(), decodes: 0 }
    } else {
        let before = progress(lists, v - 1);
        let run = run_of(lists, before.done);
        if !has_turn(lists, before.done, v - 1) {
            before
        } else if run.count < N_SHARDS {
            Progress { done: before.done.union(run.seated), ..before }
        } else {
            Progress {
                done: before.done.union(run.alive),
                found: before.found + run_segments(lists, run, 256),
                decodes: before.decodes + 1,
            }
        }
    }
}

/// The segments that are seated have a place in a batch.
pub open spec fn seats_fit(lists: Seq<Seq<(int, Seq<u8>)>>) -> bool {
    forall|v: int, s: int|
        #![trigger run_of(lists, progress(lists, v).done).seated.contains(s)]
        0 <= v < 256 && has_turn(lists, progress(lists, v).done, v) && run_of(
            lists,
            progress(lists, v).done,
        ).seated.contains(s) ==> s < SEGMENTS_PER_SUBSHARD_BATCH_OPTIMAL
}

/// Each segment that something is given of has a place in a batch.
pub open spec fn are_in_batch(items: Seq<(u8, ChunkIndex, &SubShard)>) -> bool {
    forall|t: int|
        0 <= t < items.len() ==> (#[trigger] items[t]).0 < SEGMENTS_PER_SUBSHARD_BATCH_OPTIMAL
}

/// Each subshard in the lists is that of its segment in `batch`.
pub open spec fn are_coded(lists: Seq<Seq<(int, Seq<u8>)>>, batch: Seq<Segment>) -> bool {
    forall|c: int, t: int|
        #![trigger lists[c][t]]
        0 <= c < lists.len() && 0 <= t < lists[c].len() ==> lists[c][t].1 == coded_subshard(
            batch_segment(batch, lists[c][t].0),
            c,
        )
}

/// Each subshard that is given is that of its segment in `batch`.
pub open spec fn are_subshards_of(
    items: Seq<(u8, ChunkIndex, &SubShard)>,
    batch: Seq<Segment>,
) -> bool {
    forall|t: int|
        0 <= t < items.len() ==> (#[trigger] items[t]).2@ == coded_subshard(
            batch_segment(batch, items[t].0 as int),
            items[t].1.0 as int,
        )
}

/// The segments that have come out are those of `batch`.
pub open spec fn are_of(found: Seq<(int, Seq<u8>)>, batch: Seq<Segment>) -> bool {
    forall|i: int|
        0 <= i < found.len() ==> (#[trigger] found[i]).1 == batch_segment(batch, found[i].0)
}

/// One subshard more in a list.
pub proof fn lemma_list_push(list: Seq<(int, Seq<u8>)>, e: (int, Seq<u8>), s: int)
    ensures
        has_index(list.push(e), s) <==> has_index(list, s) || e.0 == s,
        last_of(list.push(e), s) == if e.0 == s {
            e.1
        } else {
            last_of(list, s)
        },
        has_index(list, s) ==> first_of(list.push(e), s) == first_of(list, s),
        !has_index(list, s) ==> first_of(list.push(e), s) == e.1,
{
    let more = list.push(e);
    assert(more.drop_last() =~= list);
    assert(more[list.len() as int] == e);
    if has_index(list, s) {
        let k = choose|k: int| 0 <= k < list.len() && (#[trigger] list[k]).0 == s;
        assert(more[k].0 == s);
    }
    if has_index(more, s) && e.0 != s {
        let k = choose|k: int| 0 <= k < more.len() && (#[trigger] more[k]).0 == s;
        assert(list[k].0 == s);
    }
}

/// What holds of every run.
pub proof fn lemma_run(lists: Seq<Seq<(int, Seq<u8>)>>, done: Set<int>, c: int)
    requires
        0 <= c <= lists.len(),
    ensures
        ({
            let run = run_upto(lists, done, c);
            &&& 0 <= run.count <= N_SHARDS
            &&& run.picks.finite()
            &&& run.picks.len() == run.count
            &&& forall|p: int| #[trigger] run.picks.contains(p) ==> 0 <= p < c
            &&& forall|p: int, s: int|
                #![trigger run.picks.contains(p), run.alive.contains(s)]
                run.picks.contains(p) && run.alive.contains(s) ==> has_index(lists[p], s)
            &&& run.count > 0 ==> run.picks.contains(run.first)
            &&& forall|s: int| #[trigger] run.alive.contains(s) ==> run.seated.contains(s)
            &&& forall|s: int| #[trigger]
                run.seated.contains(s) ==> !done.contains(s) && run.count > 0 && has_index(
                    lists[run.first],
                    s,
                )
            &&& run.count > 0 ==> exists|s: int| #[trigger] run.alive.contains(s)
        }),
    decreases c,
{
    if c > 0 {
        lemma_run(lists, done, c - 1);
        let before = run_upto(lists, done, c - 1);
        let stay = candidates(lists[c - 1], done, before);
        let run = run_upto(lists, done, c);
        if is_picked(lists[c - 1], done, before) {
            let s = choose|s: int| #[trigger] stay.contains(s);
            assert(run.alive.contains(s));
            if before.count == 0 {
                assert(set![c - 1] =~= Set::empty().insert(c - 1));
            } else {
                assert(before.picks.contains(before.first));
            }
        }
    }
}

/// Once a chunk is picked, who is seated is settled.
pub proof fn lemma_seated_stays(lists: Seq<Seq<(int, Seq<u8>)>>, done: Set<int>, c: int, d: int)
    requires
        0 <= c <= d <= lists.len(),
        run_upto(lists, done, c).count > 0,
    ensures
        run_upto(lists, done, d).count > 0,
        run_upto(lists, done, d).seated == run_upto(lists, done, c).seated,
        run_upto(lists, done, d).first == run_upto(lists, done, c).first,
    decreases d,
{
    if c < d {
        lemma_seated_stays(lists, done, c, d - 1);
    }
}

/// Once there are enough chunks the run is complete.
pub proof fn lemma_run_complete(lists: Seq<Seq<(int, Seq<u8>)>>, done: Set<int>, c: int, d: int)
    requires
        0 <= c <= d <= lists.len(),
        run_upto(lists, done, c).count == N_SHARDS,
    ensures
        run_upto(lists, done, d) == run_upto(lists, done, c),
    decreases d,
{
    if c < d {
        lemma_run_complete(lists, done, c, d - 1);
    }
}

/// The first and the last subshard of a segment stand in the list.
proof fn lemma_in_list(list: Seq<(int, Seq<u8>)>, s: int)
    requires
        has_index(list, s),
    ensures
        exists|t: int| 0 <= t < list.len() && #[trigger] list[t] == (s, first_of(list, s)),
        exists|t: int| 0 <= t < list.len() && #[trigger] list[t] == (s, last_of(list, s)),
    decreases list.len(),
{
    let rest = list.drop_last();
    let last = list.len() - 1;
    let k = choose|k: int| 0 <= k < list.len() && (#[trigger] list[k]).0 == s;
    if has_index(rest, s) {
        lemma_in_list(rest, s);
        let t = choose|t: int| 0 <= t < rest.len() && #[trigger] rest[t] == (s, first_of(rest, s));
        assert(list[t] == (s, first_of(list, s)));
        if list[last].0 != s {
            let u = choose|u: int|
                0 <= u < rest.len() && #[trigger] rest[u] == (s, last_of(rest, s));
            assert(list[u] == (s, last_of(list, s)));
        } else {
            assert(list[last] == (s, last_of(list, s)));
        }
    } else {
        if k < last {
            assert(rest[k].0 == s);
        }
        assert(list[last] == (s, first_of(list, s)));
        assert(list[last] == (s, last_of(list, s)));
    }
}

/// What is taken of subshards of a batch is a subshard of the batch.
proof fn lemma_carried(
    lists: Seq<Seq<(int, Seq<u8>)>>,
    batch: Seq<Segment>,
    first: int,
    c: int,
    s: int,
)
    requires
        0 <= c < lists.len(),
        are_coded(lists, batch),
        has_index(lists[c], s),
    ensures
        carried(lists, first, c, s) == coded_subshard(batch_segment(batch, s), c),
{
    lemma_in_list(lists[c], s);
    let t = choose|t: int|
        0 <= t < lists[c].len() && #[trigger] lists[c][t] == (s, first_of(lists[c], s));
    let u = choose|u: int|
        0 <= u < lists[c].len() && #[trigger] lists[c][u] == (s, last_of(lists[c], s));
    assert(lists[c][t].1 == coded_subshard(batch_segment(batch, lists[c][t].0), c));
    assert(lists[c][u].1 == coded_subshard(batch_segment(batch, lists[c][u].0), c));
}

/// The points that a run works on are those of the batch, so what it restores is.
proof fn lemma_run_point(
    lists: Seq<Seq<(int, Seq<u8>)>>,
    done: Set<int>,
    batch: Seq<Segment>,
    s: int,
    q: int,
    a: int,
)
    requires
        lists.len() == TOTAL_SHARDS,
        are_coded(lists, batch),
        run_of(lists, done).alive.contains(s),
        0 <= q < 6,
        0 <= a < N_SHARDS,
        restores(
            N_SHARDS as int,
            N_REDUNDANCY * N_SHARDS,
            given_original(lists, run_of(lists, done), s, q),
            given_recovery(lists, run_of(lists, done), s, q),
        ),
    ensures
        run_point(lists, run_of(lists, done), s, q, a) == segment_row(
            batch_segment(batch, s),
            q,
        )[a],
{
    let run = run_of(lists, done);
    let data = batch_segment(batch, s);
    let word = segment_row(data, q);
    let original = given_original(lists, run, s, q);
    let recovery = given_recovery(lists, run, s, q);
    lemma_run(lists, done, TOTAL_SHARDS as int);
    assert forall|i: int| #[trigger] original.contains_key(i) implies original[i] == word[i] by {
        assert(run.picks.contains(i));
        lemma_carried(lists, batch, run.first, i, s);
        lemma_point_of_subshard_of(|r: int| coded_point(data, r, i), q);
    }
    assert forall|j: int| #[trigger] recovery.contains_key(j) implies recovery[j]
        == crate::codec::parity(N_SHARDS as int, N_REDUNDANCY * N_SHARDS, word)[j] by {
        let c = j + N_SHARDS;
        assert(run.picks.contains(c));
        lemma_carried(lists, batch, run.first, c, s);
        lemma_point_of_subshard_of(|r: int| coded_point(data, r, c), q);
    }
    assert(agrees(N_SHARDS as int, N_REDUNDANCY * N_SHARDS, original, recovery, word));
    if !run.picks.contains(a) {
        assert(!original.contains_key(a));
        assert(word[a] == word[a]);
    } else {
        assert(original.contains_key(a));
    }
}

/// What comes out of a run on subshards of a batch are segments of the batch.
pub proof fn lemma_run_sound(
    lists: Seq<Seq<(int, Seq<u8>)>>,
    done: Set<int>,
    batch: Seq<Segment>,
    n: int,
)
    requires
        lists.len() == TOTAL_SHARDS,
        are_coded(lists, batch),
        forall|s: int, q: int|
            #![trigger given_original(lists, run_of(lists, done), s, q)]
            run_of(lists, done).alive.contains(s) && 0 <= q < 6 ==> restores(
                N_SHARDS as int,
                N_REDUNDANCY * N_SHARDS,
                given_original(lists, run_of(lists, done), s, q),
                given_recovery(lists, run_of(lists, done), s, q),
            ),
    ensures
        are_of(run_segments(lists, run_of(lists, done), n), batch),
    decreases n,
{
    let run = run_of(lists, done);
    if n > 0 {
        lemma_run_sound(lists, done, batch, n - 1);
        let s = n - 1;
        if run.alive.contains(s) {
            let data = batch_segment(batch, s);
            let out = run_segment(lists, run, s);
            assert forall|b: int| 0 <= b < SEGMENT_SIZE implies out[b] == data[b] by {
                let q = b / 2 / 342;
                let a = b / 2 % 342;
                assert(0 <= q < 6 && 0 <= a < 342 && q * 342 + a == b / 2);
                assert(restores(
                    N_SHARDS as int,
                    N_REDUNDANCY * N_SHARDS,
                    given_original(lists, run, s, q),
                    given_recovery(lists, run, s, q),
                ));
                lemma_run_point(lists, done, batch, s, q, a);
                assert(segment_row(data, q)[a] == segment_point(data, b / 2));
            }
            assert(out =~= data);
        }
    }
}

/// The lists of subshards of a batch.
pub proof fn lemma_lists_coded(items: Seq<(u8, ChunkIndex, &SubShard)>, batch: Seq<Segment>)
    requires
        are_subshards_of(items, batch),
    ensures
        are_coded(chunk_lists(items), batch),
{
    assert forall|c: int, t: int|
        #![trigger chunk_lists(items)[c][t]]
        0 <= c < chunk_lists(items).len() && 0 <= t < chunk_lists(items)[c].len() implies
        chunk_lists(items)[c][t].1 == coded_subshard(
        batch_segment(batch, chunk_lists(items)[c][t].0),
        c,
    ) by {
        lemma_list_coded(items, batch, c);
        assert(chunk_lists(items)[c][t] == chunk_list(items, c)[t]);
    }
}

/// One list of subshards of a batch.
proof fn lemma_list_coded(items: Seq<(u8, ChunkIndex, &SubShard)>, batch: Seq<Segment>, c: int)
    requires
        are_subshards_of(items, batch),
    ensures
        forall|t: int|
            0 <= t < chunk_list(items, c).len() ==> (#[trigger] chunk_list(items, c)[t]).1
                == coded_subshard(batch_segment(batch, chunk_list(items, c)[t].0), c),
    decreases items.len(),
{
    if items.len() > 0 {
        let rest = items.drop_last();
        assert forall|t: int| 0 <= t < rest.len() implies (#[trigger] rest[t]).2@
            == coded_subshard(batch_segment(batch, rest[t].0 as int), rest[t].1.0 as int) by {
            assert(rest[t] == items[t]);
        }
        lemma_list_coded(rest, batch, c);
        let item = items[items.len() - 1];
        assert(item.2@ == coded_subshard(batch_segment(batch, item.0 as int), item.1.0 as int));
        let list = chunk_list(items, c);
        let earlier = chunk_list(rest, c);
        assert forall|t: int| 0 <= t < list.len() implies (#[trigger] list[t]).1 == coded_subshard(
            batch_segment(batch, list[t].0),
            c,
        ) by {
            if t < earlier.len() {
                assert(list[t] == earlier[t]);
            }
        }
    }
}

/// Each entry of a list comes from an item.
pub proof fn lemma_list_items(items: Seq<(u8, ChunkIndex, &SubShard)>, c: int, s: int)
    requires
        has_index(chunk_list(items, c), s),
    ensures
        exists|t: int| 0 <= t < items.len() && (#[trigger] items[t]).0 == s && items[t].1.0 == c,
    decreases items.len(),
{
    if items.len() > 0 {
        let rest = items.drop_last();
        let item = items[items.len() - 1];
        if item.1.0 == c {
            lemma_list_push(chunk_list(rest, c), (item.0 as int, item.2@), s);
        }
        if !(item.1.0 == c && item.0 == s) {
            lemma_list_items(rest, c, s);
            let t = choose|t: int|
                0 <= t < rest.len() && (#[trigger] rest[t]).0 == s && rest[t].1.0 == c;
            assert(items[t] == rest[t]);
        }
    }
}

/// Segments that have a place in a batch can be seated.
pub proof fn lemma_batch_fits(items: Seq<(u8, ChunkIndex, &SubShard)>)
    ensures
        are_in_batch(items) ==> seats_fit(chunk_lists(items)),
{
    let lists = chunk_lists(items);
    assert forall|v: int, s: int|
        #![trigger run_of(lists, progress(lists, v).done).seated.contains(s)]
        are_in_batch(items) && run_of(lists, progress(lists, v).done).seated.contains(s) implies s
        < SEGMENTS_PER_SUBSHARD_BATCH_OPTIMAL by {
        let done = progress(lists, v).done;
        lemma_run(lists, done, TOTAL_SHARDS as int);
        let first = run_of(lists, done).first;
        assert(has_index(lists[first], s));
        lemma_list_items(items, first, s);
        let t = choose|t: int|
            0 <= t < items.len() && (#[trigger] items[t]).0 == s && items[t].1.0 == first;
        assert(items[t].0 < SEGMENTS_PER_SUBSHARD_BATCH_OPTIMAL);
    }
}

} // verus!
