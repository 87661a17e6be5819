//! Coding a batch of segments into subshards.

use vstd::prelude::*;

use crate::codec;
use crate::codec::{bytes_of, encoder_setup, encoder_shards};
use crate::error::Error;
use crate::layout::{are_zero_points, column, is_zero, low_byte, point};
use crate::segment::{
    coded_point, coded_subshard, lemma_point_of_subshard_of, lemma_subshard_is_its_points,
    segment_row, subshard_point, Segment, SubShard, BATCH_SHARD_SIZE, N_REDUNDANCY, N_SHARDS,
    POINT_BYTE_SPACING, POINT_SIZE, SEGMENTS_PER_SUBSHARD_BATCH_OPTIMAL, SEGMENT_SIZE,
    SHARD_MIN_SIZE, SUBSHARD_POINTS, SUBSHARD_SIZE, TOTAL_SHARDS,
};

verus! {

/// Which point of a shard of the batch is point `q` of the subshard of segment `s`.
pub open spec fn batch_column(s: int, q: int) -> int {
    6 * s + q
}

/// The bytes of different points of a shard stand in different places, and those
/// of the next point stand next to them or, after 32 points, in the next block.
proof fn lemma_low_bytes(p: int)
    requires
        0 <= p < 96,
    ensures
        0 <= low_byte(p),
        low_byte(p) + 32 < BATCH_SHARD_SIZE,
        low_byte(p + 1) == if (low_byte(p) + 1) % 32 == 0 {
            low_byte(p) + 33
        } else {
            low_byte(p) + 1
        },
        forall|r: int|
            0 <= r < 96 && r != p ==> {
                &&& #[trigger] low_byte(r) != low_byte(p)
                &&& low_byte(r) != low_byte(p) + 32
                &&& low_byte(r) + 32 != low_byte(p)
            },
{
}

/// Writes the subshard of a segment to its place in a shard of the batch.
pub(crate) fn place_subshard(
    shard: &mut [u8; BATCH_SHARD_SIZE],
    segment_i: usize,
    subshard: &SubShard,
)
    requires
        segment_i < SEGMENTS_PER_SUBSHARD_BATCH_OPTIMAL,
    ensures
        forall|q: int|
            0 <= q < SUBSHARD_POINTS ==> point(
                final(shard)@,
                #[trigger] batch_column(segment_i as int, q),
            ) == subshard_point(subshard@, q),
        forall|p: int|
            0 <= p < 96 && !(6 * segment_i <= p < 6 * segment_i + 6) ==> #[trigger] point(
                final(shard)@,
                p,
            ) == point(old(shard)@, p),
{
    let ghost before = shard@;
    let shard_i_s: usize = segment_i * SUBSHARD_SIZE / SHARD_MIN_SIZE;
    let shard_i_r: usize = segment_i * SUBSHARD_SIZE % SHARD_MIN_SIZE;
    let mut shard_i: usize = shard_i_s * SHARD_MIN_SIZE + shard_i_r / POINT_SIZE;
    assert(shard_i == low_byte(6 * segment_i));
    for point_i in 0..SUBSHARD_POINTS
        invariant
            segment_i < 16,
            before.len() == BATCH_SHARD_SIZE,
            shard_i == low_byte(6 * segment_i + point_i),
            forall|q: int|
                0 <= q < point_i ==> point(shard@, #[trigger] batch_column(segment_i as int, q))
                    == subshard_point(subshard@, q),
            forall|p: int|
                0 <= p < 96 && !(6 * segment_i <= p < 6 * segment_i + point_i)
                    ==> #[trigger] point(shard@, p) == point(before, p),
    {
        let ghost current = shard@;
        proof {
            lemma_low_bytes(6 * segment_i + point_i);
        }
        shard[shard_i] = subshard[point_i * POINT_SIZE];
        shard[shard_i + POINT_BYTE_SPACING] = subshard[point_i * POINT_SIZE + 1];
        assert forall|p: int| 0 <= p < 96 && p != 6 * segment_i + point_i implies #[trigger] point(
            shard@,
            p,
        ) == point(current, p) by {
            lemma_low_bytes(p);
        }
        shard_i = shard_i + 1;
        if shard_i % POINT_BYTE_SPACING == 0 {
            shard_i = shard_i + POINT_BYTE_SPACING;
        }
    }
}

/// Reads the subshard of a segment from its place in a shard of the batch.
fn take_subshard(shard: &[u8], segment_i: usize) -> (subshard: SubShard)
    requires
        shard@.len() == BATCH_SHARD_SIZE,
        segment_i < SEGMENTS_PER_SUBSHARD_BATCH_OPTIMAL,
    ensures
        forall|q: int|
            0 <= q < SUBSHARD_POINTS ==> #[trigger] subshard_point(subshard@, q) == point(
                shard@,
                batch_column(segment_i as int, q),
            ),
{
    let mut subshard: SubShard = [0u8; SUBSHARD_SIZE];
    let shard_i_s: usize = segment_i * SUBSHARD_SIZE / SHARD_MIN_SIZE;
    let shard_i_r: usize = segment_i * SUBSHARD_SIZE % SHARD_MIN_SIZE;
    let mut shard_i: usize = shard_i_s * SHARD_MIN_SIZE + shard_i_r / POINT_SIZE;
    assert(shard_i == low_byte(6 * segment_i));
    for point_i in 0..SUBSHARD_POINTS
        invariant
            shard@.len() == BATCH_SHARD_SIZE,
            segment_i < 16,
            shard_i == low_byte(6 * segment_i + point_i),
            forall|q: int|
                0 <= q < point_i ==> #[trigger] subshard_point(subshard@, q) == point(
                    shard@,
                    batch_column(segment_i as int, q),
                ),
    {
        proof {
            lemma_low_bytes(6 * segment_i + point_i);
        }
        let ghost current = subshard@;
        subshard[point_i * POINT_SIZE] = shard[shard_i];
        subshard[point_i * POINT_SIZE + 1] = shard[shard_i + POINT_BYTE_SPACING];
        assert forall|q: int| 0 <= q < point_i implies #[trigger] subshard_point(subshard@, q)
            == subshard_point(current, q) by {}
        shard_i = shard_i + 1;
        if shard_i % POINT_BYTE_SPACING == 0 {
            shard_i = shard_i + POINT_BYTE_SPACING;
        }
    }
    subshard
}

/// The original subshard `shard_a` of a segment.
fn original_subshard(data: &[u8; SEGMENT_SIZE], shard_a: usize) -> (subshard: SubShard)
    requires
        shard_a < N_SHARDS,
    ensures
        subshard@ == coded_subshard(data@, shard_a as int),
{
    let mut subshard: SubShard = [0u8; SUBSHARD_SIZE];
    for point_i in 0..SUBSHARD_POINTS
        invariant
            shard_a < 342,
            forall|q: int|
                0 <= q < point_i ==> #[trigger] subshard_point(subshard@, q) == coded_point(
                    data@,
                    q,
                    shard_a as int,
                ),
    {
        let data_i: usize = (point_i * N_SHARDS) * 2 + shard_a * 2;
        assert(data_i == 2 * (point_i * 342 + shard_a));
        let ghost current = subshard@;
        if data_i < SEGMENT_SIZE {
            subshard[point_i * 2] = data[data_i];
            subshard[point_i * 2 + 1] = data[data_i + 1];
        } else {
            subshard[point_i * 2] = 0;
            subshard[point_i * 2 + 1] = 0;
        }
        assert forall|q: int| 0 <= q < point_i implies #[trigger] subshard_point(subshard@, q)
            == subshard_point(current, q) by {}
    }
    proof {
        lemma_subshard_is_its_points(
            subshard@,
            |q: int| coded_point(data@, q, shard_a as int),
        );
    }
    subshard
}

/// The bytes of segment `s` of a batch; the segments that are missing at its end
/// are zero.
pub open spec fn batch_segment(batch: Seq<Segment>, s: int) -> Seq<u8> {
    if s < batch.len() {
        batch[s].data@
    } else {
        Seq::new(SEGMENT_SIZE as nat, |b: int| 0)
    }
}

/// The segments make up a batch: they are not too many, and consecutive from
/// index zero on.
pub open spec fn is_batch(batch: Seq<Segment>) -> bool {
    &&& batch.len() <= SEGMENTS_PER_SUBSHARD_BATCH_OPTIMAL
    &&& forall|s: int| 0 <= s < batch.len() ==> (#[trigger] batch[s]).index == s
}

/// The shards hold the original subshards of the batch.
spec fn hold_batch(shards: Seq<Seq<u8>>, batch: Seq<Segment>) -> bool {
    forall|a: int, s: int, q: int|
        #![trigger point(shards[a], batch_column(s, q))]
        0 <= a < shards.len() && 0 <= s < SEGMENTS_PER_SUBSHARD_BATCH_OPTIMAL && 0 <= q
            < SUBSHARD_POINTS ==> point(shards[a], batch_column(s, q)) == coded_point(
            batch_segment(batch, s),
            q,
            a,
        )
}

/// The points of the shards at one position are a row of points of a segment.
proof fn lemma_batch_column(shards: Seq<Seq<u8>>, batch: Seq<Segment>, s: int, q: int)
    requires
        shards.len() == N_SHARDS,
        hold_batch(shards, batch),
        0 <= s < SEGMENTS_PER_SUBSHARD_BATCH_OPTIMAL,
        0 <= q < SUBSHARD_POINTS,
    ensures
        column(shards, batch_column(s, q)) == segment_row(batch_segment(batch, s), q),
{
    let left = column(shards, batch_column(s, q));
    let right = segment_row(batch_segment(batch, s), q);
    assert forall|a: int| 0 <= a < N_SHARDS implies left[a] == right[a] by {
        assert(point(shards[a], batch_column(s, q)) == coded_point(
            batch_segment(batch, s),
            q,
            a,
        ));
    }
    assert(left =~= right);
}

/// Subshard `c` of segment `s` in the result of [`SubShardEncoder::construct_chunks`].
pub open spec fn chunk_at(chunks: Seq<Box<[SubShard; TOTAL_SHARDS]>>, s: int, c: int) -> Seq<u8> {
    chunks[s]@[c]@
}

/// The original subshards of a segment of zeroes are zero.
proof fn lemma_zero_subshard(data: Seq<u8>, c: int)
    requires
        data == Seq::new(SEGMENT_SIZE as nat, |b: int| 0u8),
        0 <= c < N_SHARDS,
    ensures
        coded_subshard(data, c) == Seq::new(SUBSHARD_SIZE as nat, |b: int| 0u8),
{
    assert(coded_subshard(data, c) =~= Seq::new(SUBSHARD_SIZE as nat, |b: int| 0u8));
}

/// One shard more that holds its subshards of the batch.
proof fn lemma_hold_one_more(shards: Seq<Seq<u8>>, shard: Seq<u8>, batch: Seq<Segment>)
    requires
        hold_batch(shards, batch),
        shards.len() < N_SHARDS,
        forall|s: int, q: int|
            0 <= s < SEGMENTS_PER_SUBSHARD_BATCH_OPTIMAL && 0 <= q < SUBSHARD_POINTS ==> point(
                shard,
                #[trigger] batch_column(s, q),
            ) == if s < batch.len() {
                coded_point(batch[s].data@, q, shards.len() as int)
            } else {
                (0u8, 0u8)
            },
    ensures
        hold_batch(shards.push(shard), batch),
{
}

/// Writes the original subshards `shard_a` of the segments to the result, and to
/// the shard that they make up.
fn add_segments(
    data: &[Segment],
    shard_a: usize,
    shard: &mut [u8; BATCH_SHARD_SIZE],
    result: &mut Vec<Box<[SubShard; TOTAL_SHARDS]>>,
)
    requires
        data@.len() <= SEGMENTS_PER_SUBSHARD_BATCH_OPTIMAL,
        shard_a < N_SHARDS,
        old(result)@.len() == SEGMENTS_PER_SUBSHARD_BATCH_OPTIMAL,
    ensures
        final(result)@.len() == old(result)@.len(),
        forall|s: int, c: int|
            0 <= s < old(result)@.len() && 0 <= c < TOTAL_SHARDS ==> #[trigger] chunk_at(
                final(result)@,
                s,
                c,
            ) == if s < data@.len() && c == shard_a {
                coded_subshard(data@[s].data@, c)
            } else {
                chunk_at(old(result)@, s, c)
            },
        forall|s: int, q: int|
            0 <= s < SEGMENTS_PER_SUBSHARD_BATCH_OPTIMAL && 0 <= q < SUBSHARD_POINTS ==> point(
                final(shard)@,
                #[trigger] batch_column(s, q),
            ) == if s < data@.len() {
                coded_point(data@[s].data@, q, shard_a as int)
            } else {
                point(old(shard)@, batch_column(s, q))
            },
{
    let ghost shard_before = shard@;
    let ghost result_before = result@;
    for segment_i in 0..data.len()
        invariant
            data@.len() <= 16,
            shard_a < 342,
            result@.len() == 16,
            result_before.len() == 16,
            forall|s: int, c: int|
                0 <= s < 16 && 0 <= c < 1026 ==> #[trigger] chunk_at(result@, s, c) == if s
                    < segment_i && c == shard_a {
                    coded_subshard(data@[s].data@, c)
                } else {
                    chunk_at(result_before, s, c)
                },
            forall|s: int, q: int|
                0 <= s < 16 && 0 <= q < 6 ==> point(shard@, #[trigger] batch_column(s, q)) == if s
                    < segment_i {
                    coded_point(data@[s].data@, q, shard_a as int)
                } else {
                    point(shard_before, batch_column(s, q))
                },
    {
        let ghost current = result@;
        let ghost shard_current = shard@;
        let subshard: SubShard = original_subshard(&data[segment_i].data, shard_a);
        place_subshard(shard, segment_i, &subshard);
        result[segment_i][shard_a] = subshard;
        proof {
            assert forall|s: int, c: int| 0 <= s < 16 && 0 <= c < 1026 implies #[trigger] chunk_at(
                result@,
                s,
                c,
            ) == (if s == segment_i && c == shard_a {
                subshard@
            } else {
                chunk_at(current, s, c)
            }) by {}
            assert forall|s: int, q: int| 0 <= s < 16 && 0 <= q < 6 implies point(
                shard@,
                #[trigger] batch_column(s, q),
            ) == (if s == segment_i {
                coded_point(data@[s].data@, q, shard_a as int)
            } else {
                point(shard_current, batch_column(s, q))
            }) by {
                lemma_point_of_subshard_of(
                    |q: int| coded_point(data@[segment_i as int].data@, q, shard_a as int),
                    q,
                );
            }
        }
    }
}

/// Writes the subshards that the recovery shards are made up of to the result.
fn add_recovery(recovery: &Vec<Vec<u8>>, result: &mut Vec<Box<[SubShard; TOTAL_SHARDS]>>)
    requires
        recovery@.len() == N_REDUNDANCY * N_SHARDS,
        forall|j: int|
            0 <= j < recovery@.len() ==> (#[trigger] recovery@[j])@.len() == BATCH_SHARD_SIZE,
        old(result)@.len() == SEGMENTS_PER_SUBSHARD_BATCH_OPTIMAL,
    ensures
        final(result)@.len() == old(result)@.len(),
        forall|s: int, c: int|
            0 <= s < old(result)@.len() && 0 <= c < N_SHARDS ==> #[trigger] chunk_at(
                final(result)@,
                s,
                c,
            ) == chunk_at(old(result)@, s, c),
        forall|s: int, j: int, q: int|
            0 <= s < old(result)@.len() && 0 <= j < recovery@.len() && 0 <= q < SUBSHARD_POINTS
                ==> #[trigger] subshard_point(chunk_at(final(result)@, s, N_SHARDS + j), q)
                == point(recovery@[j]@, batch_column(s, q)),
{
    let ghost before = result@;
    for shard_a in 0..N_REDUNDANCY * N_SHARDS
        invariant
            recovery@.len() == 684,
            forall|j: int| 0 <= j < 684 ==> (#[trigger] recovery@[j])@.len() == 192,
            result@.len() == 16,
            before.len() == 16,
            forall|s: int, c: int|
                0 <= s < 16 && 0 <= c < 342 ==> #[trigger] chunk_at(result@, s, c) == chunk_at(
                    before,
                    s,
                    c,
                ),
            forall|s: int, j: int, q: int|
                0 <= s < 16 && 0 <= j < shard_a && 0 <= q < 6 ==> #[trigger] subshard_point(
                    chunk_at(result@, s, 342 + j),
                    q,
                ) == point(recovery@[j]@, batch_column(s, q)),
    {
        let ghost current = result@;
        for segment_i in 0..SEGMENTS_PER_SUBSHARD_BATCH_OPTIMAL
            invariant
                recovery@.len() == 684,
                shard_a < 684,
                recovery@[shard_a as int]@.len() == 192,
                result@.len() == 16,
                current.len() == 16,
                forall|s: int, c: int|
                    0 <= s < 16 && 0 <= c < 1026 && !(c == 342 + shard_a && s < segment_i)
                        ==> #[trigger] chunk_at(result@, s, c) == chunk_at(current, s, c),
                forall|s: int, q: int|
                    0 <= s < segment_i && 0 <= q < 6 ==> #[trigger] subshard_point(
                        chunk_at(result@, s, 342 + shard_a),
                        q,
                    ) == point(recovery@[shard_a as int]@, batch_column(s, q)),
        {
            let ghost last = result@;
            let subshard: SubShard = take_subshard(recovery[shard_a].as_slice(), segment_i);
            result[segment_i][shard_a + N_SHARDS] = subshard;
            proof {
                assert forall|s: int, c: int| 0 <= s < 16 && 0 <= c < 1026 implies
                    #[trigger] chunk_at(result@, s, c) == (if s == segment_i && c == 342
                    + shard_a {
                    subshard@
                } else {
                    chunk_at(last, s, c)
                }) by {}
            }
        }
    }
}

/// Subshard uses some temp memory, so these should be used multiple times instead
/// of allocating.
pub struct SubShardEncoder {
    encoder: reed_solomon_simd::ReedSolomonEncoder,
}

impl SubShardEncoder {
    /// The encoder of the codec is set up for batches and has got no shard.
    pub closed spec fn wf(self) -> bool {
        &&& encoder_setup(self.encoder) == (
            N_SHARDS as int,
            N_REDUNDANCY * N_SHARDS,
            BATCH_SHARD_SIZE as int,
        )
        &&& encoder_shards(self.encoder) == Seq::<Seq<u8>>::empty()
    }

    /// An encoder for batches of segments.
    pub fn new() -> (r: Result<Self, Error>)
        ensures
            r matches Ok(encoder) && encoder.wf(),
    {
        match codec::new_encoder(N_SHARDS, N_REDUNDANCY * N_SHARDS, BATCH_SHARD_SIZE) {
            Ok(encoder) => Ok(SubShardEncoder { encoder }),
            Err(_) => Err(Error::Unknown),
        }
    }

    /// Construct erasure-coded chunks.
    ///
    /// Segment input must be ordered by index and consecutive, and no more than
    /// [`SEGMENTS_PER_SUBSHARD_BATCH_OPTIMAL`]. The subshards of a whole batch
    /// are returned; those of the segments that are missing at its end are zero, as
    /// are those of any segment of zeroes.
    pub fn construct_chunks(&mut self, data: &[Segment]) -> (r: Result<
        Vec<Box<[SubShard; TOTAL_SHARDS]>>,
        Error,
    >)
        requires
            old(self).wf(),
        ensures
            final(self).wf(),
            match r {
                Ok(chunks) => {
                    &&& is_batch(data@)
                    &&& chunks@.len() == SEGMENTS_PER_SUBSHARD_BATCH_OPTIMAL
                    &&& forall|s: int, c: int|
                        0 <= s < chunks@.len() && 0 <= c < TOTAL_SHARDS ==> #[trigger] chunk_at(
                            chunks@,
                            s,
                            c,
                        ) == coded_subshard(batch_segment(data@, s), c)
                    &&& forall|s: int, c: int|
                        0 <= s < chunks@.len() && 0 <= c < TOTAL_SHARDS && is_zero(
                            batch_segment(data@, s),
                        ) ==> is_zero(#[trigger] chunk_at(chunks@, s, c))
                    &&& forall|s: int, c: int|
                        data@.len() <= s < chunks@.len() && 0 <= c < TOTAL_SHARDS ==> is_zero(
                            #[trigger] chunk_at(chunks@, s, c),
                        )
                },
                Err(e) => !is_batch(data@) && e == Error::BadPayload,
            },
    {
        if data.len() > SEGMENTS_PER_SUBSHARD_BATCH_OPTIMAL {
            return Err(Error::BadPayload);
        }
        let mut next: u32 = 0;
        for i in 0..data.len()
            invariant
                old(self).wf(),
                *self == *old(self),
                data@.len() <= 16,
                next == i,
                forall|s: int| 0 <= s < i ==> (#[trigger] data@[s]).index == s,
        {
            if data[i].index != next {
                return Err(Error::BadPayload);
            }
            next = next + 1;
        }
        let mut result: Vec<Box<[SubShard; TOTAL_SHARDS]>> =
            vec![
                Box::new([[0u8; SUBSHARD_SIZE]; TOTAL_SHARDS]);
                SEGMENTS_PER_SUBSHARD_BATCH_OPTIMAL
            ];
        let mut shard: [u8; BATCH_SHARD_SIZE] = [0u8; BATCH_SHARD_SIZE];
        let ghost batch = data@;
        let ghost zero = Seq::new(SUBSHARD_SIZE as nat, |b: int| 0u8);
        proof {
            assert forall|s: int, c: int| 0 <= s < 16 && 0 <= c < 1026 implies #[trigger] chunk_at(
                result@,
                s,
                c,
            ) == zero by {
                assert(chunk_at(result@, s, c) =~= zero);
            }
            assert forall|s: int, q: int| 0 <= s < 16 && 0 <= q < 6 implies point(
                shard@,
                #[trigger] batch_column(s, q),
            ) == (0u8, 0u8) by {
                lemma_low_bytes(batch_column(s, q));
            }
        }
        for shard_a in 0..N_SHARDS
            invariant
                batch == data@,
                is_batch(batch),
                zero == Seq::new(SUBSHARD_SIZE as nat, |b: int| 0u8),
                encoder_setup(self.encoder) == (342int, 684int, 192int),
                encoder_shards(self.encoder).len() == shard_a,
                hold_batch(encoder_shards(self.encoder), batch),
                result@.len() == 16,
                forall|s: int, c: int|
                    0 <= s < 16 && 0 <= c < shard_a ==> #[trigger] chunk_at(result@, s, c)
                        == coded_subshard(batch_segment(batch, s), c),
                forall|s: int, c: int|
                    batch.len() <= s < 16 && 0 <= c < 1026 ==> #[trigger] chunk_at(result@, s, c)
                        == zero,
                forall|s: int, q: int|
                    batch.len() <= s < 16 && 0 <= q < 6 ==> point(
                        shard@,
                        #[trigger] batch_column(s, q),
                    ) == (0u8, 0u8),
        {
            let ghost before = encoder_shards(self.encoder);
            add_segments(data, shard_a, &mut shard, &mut result);
            proof {
                assert forall|s: int| 0 <= s < 16 implies #[trigger] chunk_at(
                    result@,
                    s,
                    shard_a as int,
                ) == coded_subshard(batch_segment(batch, s), shard_a as int) by {
                    if s >= batch.len() {
                        lemma_zero_subshard(batch_segment(batch, s), shard_a as int);
                    }
                }
                lemma_hold_one_more(before, shard@, batch);
            }
            if codec::add_original_to_encoder(&mut self.encoder, &shard).is_err() {
                return Err(Error::Unknown);
            }
        }
        let ghost shards = encoder_shards(self.encoder);
        let recovery: Vec<Vec<u8>> = match codec::run_encoder(&mut self.encoder) {
            Ok(recovery) => recovery,
            Err(_) => {
                return Err(Error::Unknown);
            },
        };
        assert forall|j: int| 0 <= j < recovery@.len() implies (#[trigger] recovery@[j])@.len()
            == 192 by {
            assert(bytes_of(recovery@)[j] == recovery@[j]@);
        }
        let ghost before = result@;
        add_recovery(&recovery, &mut result);
        proof {
            assert forall|s: int, c: int| 0 <= s < 16 && 0 <= c < 1026 implies #[trigger] chunk_at(
                result@,
                s,
                c,
            ) == coded_subshard(batch_segment(batch, s), c) by {
                if c < 342 {
                    assert(chunk_at(result@, s, c) == chunk_at(before, s, c));
                } else {
                    let j = c - 342;
                    assert forall|q: int| 0 <= q < 6 implies #[trigger] subshard_point(
                        chunk_at(result@, s, c),
                        q,
                    ) == coded_point(batch_segment(batch, s), q, c) by {
                        lemma_batch_column(shards, batch, s, q);
                        assert(subshard_point(chunk_at(result@, s, 342 + j), q) == point(
                            recovery@[j]@,
                            batch_column(s, q),
                        ));
                    }
                    lemma_subshard_is_its_points(
                        chunk_at(result@, s, c),
                        |q: int| coded_point(batch_segment(batch, s), q, c),
                    );
                }
            }
            assert forall|s: int, c: int|
                0 <= s < 16 && 0 <= c < 1026 && is_zero(batch_segment(batch, s)) implies is_zero(
                #[trigger] chunk_at(result@, s, c),
            ) by {
                let data = batch_segment(batch, s);
                assert forall|q: int| 0 <= q < 6 implies #[trigger] subshard_point(
                    chunk_at(result@, s, c),
                    q,
                ) == (0u8, 0u8) by {
                    assert(are_zero_points(segment_row(data, q)));
                    if c < 342 {
                        lemma_point_of_subshard_of(|r: int| coded_point(data, r, c), q);
                    } else {
                        lemma_batch_column(shards, batch, s, q);
                        assert(subshard_point(chunk_at(result@, s, 342 + (c - 342)), q) == point(
                            recovery@[c - 342]@,
                            batch_column(s, q),
                        ));
                    }
                }
                lemma_subshard_is_its_points(chunk_at(result@, s, c), |q: int| (0u8, 0u8));
            }
        }
        Ok(result)
    }
}

} // verus!
