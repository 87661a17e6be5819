//! Segments of 4096 bytes and the subshards of 12 bytes that they are coded into.
//!
//! The bytes of a segment, two by two, are its points. They are dealt out to 342
//! original subshards, point `t` to subshard `t % 342`, so that each subshard
//! gets six of them; where the segment ends early the points are zero. The
//! subshards of up to 16 segments lie side by side in one shard of the codec.

use std::collections::BTreeMap;

use vstd::prelude::*;

use crate::codec::parity;
use crate::layout::{low_byte, point, Point, SHARD_ALIGNMENT};

verus! {

broadcast use {vstd::laws_cmp::group_laws_cmp, vstd::std_specs::btree::group_btree_axioms};

/// Fix segment size.
pub const SEGMENT_SIZE: usize = 4096;

/// Fix number of shards and subshards.
pub const N_SHARDS: usize = 342;

/// The number of times the erasure coded shards we want.
pub const N_REDUNDANCY: usize = 2;

/// The total number of shards, both original and erasure coded ones:
/// `(1 + N_REDUNDANCY) * N_SHARDS`.
pub const TOTAL_SHARDS: usize = 1026;

/// The codec requires each shard to be 64 bytes aligned.
pub const SHARD_MIN_SIZE: usize = SHARD_ALIGNMENT;

/// In shards the lower and the higher byte of each point are spaced for simd, by
/// half of [`SHARD_ALIGNMENT`].
pub const POINT_BYTE_SPACING: usize = 32;

/// Number of points in each subshard.
pub const SUBSHARD_POINTS: usize = 6;

/// Size of a point in bytes.
pub const POINT_SIZE: usize = 2;

/// Size of a subshard in bytes: `POINT_SIZE * SUBSHARD_POINTS`.
pub const SUBSHARD_SIZE: usize = 12;

/// Aligned number of full shards to process subshards.
pub const SUBSHARD_BATCH_MUL: usize = 3;

/// Size of a shard that holds the subshards of a whole batch of segments:
/// `SUBSHARD_BATCH_MUL * SHARD_MIN_SIZE`.
pub const BATCH_SHARD_SIZE: usize = 192;

/// Number of segments in an aligned batch: `BATCH_SHARD_SIZE / SUBSHARD_SIZE`.
pub const SEGMENTS_PER_SUBSHARD_BATCH_OPTIMAL: usize = 16;

/// Segment size with added padding to allow being erasure coded in batch while
/// staying on the same point indexes: `N_SHARDS * SUBSHARD_SIZE`.
pub const SEGMENT_SIZE_ALIGNED: usize = 4104;

/// Fix size segment of a larger data.
///
/// Data is padded when unaligned with the segment size.
#[derive(Clone, Debug, PartialEq, Eq)]
pub struct Segment {
    /// Fix size chunk of data.
    pub data: Box<[u8; SEGMENT_SIZE]>,
    /// The index of this segment against its full data.
    pub index: u32,
}

/// Subshard (points in sequential order).
pub type SubShard = [u8; SUBSHARD_SIZE];

/// Point `q` of a subshard.
pub open spec fn subshard_point(subshard: Seq<u8>, q: int) -> Point {
    (subshard[2 * q], subshard[2 * q + 1])
}

/// The subshard whose point `q` is `points(q)`.
pub open spec fn subshard_of(points: spec_fn(int) -> Point) -> Seq<u8> {
    Seq::new(
        SUBSHARD_SIZE as nat,
        |b: int|
            if b % 2 == 0 {
                points(b / 2).0
            } else {
                points(b / 2).1
            },
    )
}

/// Point `t` of a segment; from the end of the segment on the points are zero.
pub open spec fn segment_point(data: Seq<u8>, t: int) -> Point {
    if 2 * t < data.len() {
        (data[2 * t], data[2 * t + 1])
    } else {
        (0, 0)
    }
}

/// The points `q` of the original subshards of a segment.
pub open spec fn segment_row(data: Seq<u8>, q: int) -> Seq<Point> {
    Seq::new(N_SHARDS as nat, |a: int| segment_point(data, q * N_SHARDS + a))
}

/// Point `q` of subshard `c` of a segment: the original ones come first, then
/// the recovery ones.
pub open spec fn coded_point(data: Seq<u8>, q: int, c: int) -> Point {
    if c < N_SHARDS {
        segment_row(data, q)[c]
    } else {
        parity(
            N_SHARDS as int,
            N_REDUNDANCY * N_SHARDS,
            segment_row(data, q),
        )[c - N_SHARDS]
    }
}

/// Subshard `c` of a segment.
pub open spec fn coded_subshard(data: Seq<u8>, c: int) -> Seq<u8> {
    subshard_of(|q: int| coded_point(data, q, c))
}

/// The points of a subshard determine it.
pub proof fn lemma_subshard_is_its_points(subshard: Seq<u8>, points: spec_fn(int) -> Point)
    requires
        subshard.len() == SUBSHARD_SIZE,
        forall|q: int| 0 <= q < SUBSHARD_POINTS ==> #[trigger] subshard_point(subshard, q)
            == points(q),
    ensures
        subshard == subshard_of(points),
{
    assert forall|b: int| 0 <= b < SUBSHARD_SIZE implies subshard[b] == subshard_of(points)[b] by {
        assert(subshard_point(subshard, b / 2) == points(b / 2));
    }
    assert(subshard =~= subshard_of(points));
}

/// A subshard that is built from points has these points.
pub proof fn lemma_point_of_subshard_of(points: spec_fn(int) -> Point, q: int)
    requires
        0 <= q < SUBSHARD_POINTS,
    ensures
        subshard_point(subshard_of(points), q) == points(q),
{
    assert((2 * q + 1) / 2 == q);
}

/// The points of a segment, and with them its bytes, stand in its original
/// subshards.
pub proof fn lemma_segment_in_subshards(data: Seq<u8>, t: int)
    requires
        0 <= t < SUBSHARD_POINTS * N_SHARDS,
    ensures
        subshard_point(coded_subshard(data, t % N_SHARDS as int), t / N_SHARDS as int)
            == segment_point(data, t),
{
    let c = t % 342;
    let q = t / 342;
    assert(q * 342 + c == t && 0 <= q < 6);
    lemma_point_of_subshard_of(|r: int| coded_point(data, r, c), q);
}

/// Where a byte of the data stands: the number of its block in a shard, the
/// position of its point in the block, and the shard.
pub fn data_index_to_chunk_index(index: usize) -> (r: (usize, usize, usize))
    ensures
        r.0 == index as int / 2 / N_SHARDS as int / 32,
        r.1 == index as int / 2 / N_SHARDS as int % 32,
        r.2 == index as int / 2 % N_SHARDS as int,
{
    let shard_batch_size: usize = SHARD_MIN_SIZE * N_SHARDS;
    let a: usize = index % shard_batch_size;
    let b: usize = a % (N_SHARDS * POINT_SIZE);
    (index / shard_batch_size, a / (N_SHARDS * POINT_SIZE), b / POINT_SIZE)
}

/// The number of points in the original shards of a batch.
pub open spec fn batch_points() -> int {
    (SUBSHARD_BATCH_MUL * POINT_BYTE_SPACING) * N_SHARDS
}

/// The shard to which point `t` of a batch belongs.
pub open spec fn shard_at(t: int) -> usize {
    (t % N_SHARDS as int) as usize
}

/// Point `t` of a batch, given its original shards.
pub open spec fn batch_point(shards: Map<usize, Vec<u8>>, t: int) -> Point {
    point(shards[shard_at(t)]@, t / N_SHARDS as int)
}

/// Reading from point `first` on, [`ori_chunk_to_data`] wants the point that
/// comes `m` points later: it stops when it has `data_len` bytes, and at the end
/// of the batch, but not before it has read a point.
pub open spec fn is_wanted(first: int, data_len: Option<usize>, m: int) -> bool {
    &&& 0 <= m
    &&& m > 0 ==> {
        &&& data_len matches Some(len) ==> 2 * m < len
        &&& !(first < batch_points() <= first + m)
    }
}

/// All points up to the one that comes `m` points after `first` are in shards
/// that are there.
pub open spec fn are_there(shards: Map<usize, Vec<u8>>, first: int, m: int) -> bool {
    forall|i: int| 0 <= i < m ==> shards.contains_key(#[trigger] shard_at(first + i))
}

/// What [`ori_chunk_to_data`] reads lies inside the shards that are there and
/// fits into a segment.
pub open spec fn can_read(
    shards: Map<usize, Vec<u8>>,
    first: int,
    data_len: Option<usize>,
) -> bool {
    forall|m: int| #[trigger]
        is_wanted(first, data_len, m) && are_there(shards, first, m) ==> {
            &&& m < SEGMENT_SIZE / POINT_SIZE
            &&& shards.contains_key(shard_at(first + m)) ==> low_byte(
                (first + m) / N_SHARDS as int,
            ) + POINT_BYTE_SPACING < shards[shard_at(first + m)]@.len()
        }
}

/// The bytes that [`ori_chunk_to_data`] reads, with zeroes up to the size of a
/// segment.
pub open spec fn read_data(
    shards: Map<usize, Vec<u8>>,
    first: int,
    data_len: Option<usize>,
) -> Seq<u8> {
    Seq::new(
        SEGMENT_SIZE as nat,
        |b: int|
            if !is_wanted(first, data_len, b / 2) {
                0
            } else if b % 2 == 0 {
                batch_point(shards, first + b / 2).0
            } else {
                batch_point(shards, first + b / 2).1
            },
    )
}

/// Where the point at a place of the batch is found.
proof fn lemma_place(full_i: int, shard_i: int, shard_a: int)
    requires
        0 <= full_i,
        0 <= shard_i < POINT_BYTE_SPACING,
        0 <= shard_a < N_SHARDS,
    ensures
        ({
            let t = (full_i * 32 + shard_i) * 342 + shard_a;
            &&& shard_at(t) == shard_a
            &&& low_byte(t / N_SHARDS as int) == full_i * SHARD_MIN_SIZE + shard_i
            &&& t == batch_points() <==> full_i == SUBSHARD_BATCH_MUL && shard_i == 0 && shard_a
                == 0
        }),
{
    let row = full_i * 32 + shard_i;
    let t = row * 342 + shard_a;
    assert(t / 342 == row && t % 342 == shard_a);
    assert(row / 32 == full_i && row % 32 == shard_i);
}

/// Reads data back from the original shards of a batch, from byte `start_data`
/// of the padded segments on.
///
/// `None` if a shard is missing.
pub fn ori_chunk_to_data(
    shards: &BTreeMap<usize, Vec<u8>>,
    start_data: usize,
    data_len: Option<usize>,
) -> (r: Option<[u8; SEGMENT_SIZE]>)
    requires
        can_read(shards@, start_data as int / 2, data_len),
    ensures
        match r {
            Some(data) => {
                &&& forall|m: int| #[trigger]
                    is_wanted(start_data as int / 2, data_len, m) ==> shards@.contains_key(
                        shard_at(start_data as int / 2 + m),
                    )
                &&& data@ == read_data(shards@, start_data as int / 2, data_len)
            },
            None => exists|m: int| #[trigger]
                is_wanted(start_data as int / 2, data_len, m) && !shards@.contains_key(
                    shard_at(start_data as int / 2 + m),
                ),
        },
{
    let ghost first = start_data as int / 2;
    let ghost all = read_data(shards@, first, data_len);
    let mut data: [u8; SEGMENT_SIZE] = [0u8; SEGMENT_SIZE];
    let mut i_data: usize = 0;
    let (mut full_i, mut shard_i, mut shard_a) = data_index_to_chunk_index(start_data);
    let mut shard_i_offset: usize = full_i * SHARD_MIN_SIZE;
    let ghost mut m: int = 0;
    loop
        invariant_except_break
            is_wanted(first, data_len, m),
            first + m == (full_i * 32 + shard_i) * 342 + shard_a,
            shard_a < N_SHARDS,
            shard_i < POINT_BYTE_SPACING,
            shard_i_offset == full_i * SHARD_MIN_SIZE,
        invariant
            can_read(shards@, first, data_len),
            are_there(shards@, first, m),
            first == start_data as int / 2,
            all == read_data(shards@, first, data_len),
            i_data == 2 * m,
            0 <= m <= SEGMENT_SIZE / POINT_SIZE,
            data@.len() == SEGMENT_SIZE,
            forall|b: int| 0 <= b < i_data ==> #[trigger] data@[b] == all[b],
            forall|b: int| i_data <= b < SEGMENT_SIZE ==> #[trigger] data@[b] == 0,
        ensures
            !is_wanted(first, data_len, m),
            m > 0,
        decreases SEGMENT_SIZE - i_data,
    {
        proof {
            lemma_place(full_i as int, shard_i as int, shard_a as int);
        }
        let s: &Vec<u8> = match shards.get(&shard_a) {
            Some(s) => s,
            None => {
                return None;
            },
        };
        let l: u8 = s[shard_i_offset + shard_i];
        data[i_data] = l;
        i_data = i_data + 1;
        let r: u8 = s[shard_i_offset + shard_i + POINT_BYTE_SPACING];
        data[i_data] = r;
        i_data = i_data + 1;
        proof {
            assert((2 * m + 1) / 2 == m);
            assert(all[2 * m] == l && all[2 * m + 1] == r);
            assert(are_there(shards@, first, m + 1));
            m = m + 1;
        }
        let enough: bool = match data_len {
            Some(len) => i_data >= len,
            None => false,
        };
        if enough {
            break;
        }
        proof {
            let next = if shard_a + 1 < N_SHARDS {
                (full_i as int, shard_i as int, shard_a + 1)
            } else if shard_i + 1 < POINT_BYTE_SPACING {
                (full_i as int, shard_i + 1, 0)
            } else {
                (full_i + 1, 0, 0)
            };
            lemma_place(next.0, next.1, next.2);
        }
        shard_a = shard_a + 1;
        if shard_a % N_SHARDS == 0 {
            shard_i = shard_i + 1;
            if shard_i == POINT_BYTE_SPACING {
                shard_i = 0;
                full_i = full_i + 1;
                if full_i == SUBSHARD_BATCH_MUL {
                    break;
                }
                shard_i_offset = full_i * SHARD_MIN_SIZE;
            }
            shard_a = 0;
        }
    }
    assert(data@ =~= all);
    Some(data)
}

} // verus!
