//! How the codec reads a shard: as a row of 16-bit points, each made of a low
//! and a high byte.
//!
//! A shard is a row of blocks of 64 bytes. Each block holds 32 points, first
//! their low bytes and then their high bytes.

use vstd::prelude::*;

verus! {

/// The codec takes shards whose length is a multiple of this many bytes.
pub const SHARD_ALIGNMENT: usize = 64;

/// The low and the high byte of one point.
pub type Point = (u8, u8);

/// Where the low byte of point `p` stands. Its high byte stands 32 bytes later.
pub open spec fn low_byte(p: int) -> int {
    (p / 32) * 64 + p % 32
}

/// Point `p` of a shard.
pub open spec fn point(shard: Seq<u8>, p: int) -> Point {
    (shard[low_byte(p)], shard[low_byte(p) + 32])
}

/// Point `p` of each shard.
pub open spec fn column(shards: Seq<Seq<u8>>, p: int) -> Seq<Point> {
    Seq::new(shards.len(), |i: int| point(shards[i], p))
}

/// Point `p` of each shard that is there.
pub open spec fn column_of(shards: Map<int, Seq<u8>>, p: int) -> Map<int, Point> {
    Map::new(|i: int| shards.contains_key(i), |i: int| point(shards[i], p))
}

/// The point to which byte `b` of a shard belongs.
pub open spec fn point_at(b: int) -> int {
    (b / 64) * 32 + b % 32
}

/// The shard of `len` bytes whose point `p` is `points(p)`.
pub open spec fn shard_of(len: nat, points: spec_fn(int) -> Point) -> Seq<u8> {
    Seq::new(
        len,
        |b: int|
            if b % 64 < 32 {
                points(point_at(b)).0
            } else {
                points(point_at(b)).1
            },
    )
}

/// All bytes are zero.
pub open spec fn is_zero(bytes: Seq<u8>) -> bool {
    forall|b: int| 0 <= b < bytes.len() ==> #[trigger] bytes[b] == 0
}

/// All bytes of all shards are zero.
pub open spec fn are_zero(shards: Seq<Seq<u8>>) -> bool {
    forall|i: int| 0 <= i < shards.len() ==> is_zero(#[trigger] shards[i])
}

/// All points are zero.
pub open spec fn are_zero_points(points: Seq<Point>) -> bool {
    forall|i: int| 0 <= i < points.len() ==> #[trigger] points[i] == (0u8, 0u8)
}

/// A length that the codec takes.
pub open spec fn is_aligned(len: int) -> bool {
    &&& len > 0
    &&& len % 64 == 0
}

/// The two bytes of a point lie inside the shard.
pub proof fn lemma_low_byte(len: int, p: int)
    requires
        len % 64 == 0,
        0 <= p < len / 2,
    ensures
        0 <= low_byte(p),
        low_byte(p) + 32 < len,
        point_at(low_byte(p)) == p,
        point_at(low_byte(p) + 32) == p,
        low_byte(p) % 64 < 32,
        (low_byte(p) + 32) % 64 >= 32,
{
}

/// A shard that is built from points has these points.
pub proof fn lemma_point_of_shard_of(len: nat, points: spec_fn(int) -> Point, p: int)
    requires
        len % 64 == 0,
        0 <= p < len as int / 2,
    ensures
        point(shard_of(len, points), p) == points(p),
{
    lemma_low_byte(len as int, p);
}

/// The points of a shard determine it.
pub proof fn lemma_shard_is_its_points(shard: Seq<u8>, points: spec_fn(int) -> Point)
    requires
        shard.len() % 64 == 0,
        forall|p: int| 0 <= p < shard.len() as int / 2 ==> #[trigger] point(shard, p) == points(p),
    ensures
        shard == shard_of(shard.len(), points),
{
    let len = shard.len() as int;
    assert forall|b: int| 0 <= b < len implies shard[b] == shard_of(len as nat, points)[b] by {
        let p = point_at(b);
        assert(0 <= p < len / 2);
        assert(point(shard, p) == points(p));
        if b % 64 < 32 {
            assert(low_byte(p) == b);
        } else {
            assert(low_byte(p) + 32 == b);
        }
    }
    assert(shard =~= shard_of(len as nat, points));
}

/// A shard is zero if its points are.
pub proof fn lemma_zero_shard(shard: Seq<u8>)
    requires
        shard.len() % 64 == 0,
        forall|p: int| 0 <= p < shard.len() as int / 2 ==> #[trigger] point(shard, p) == (0u8, 0u8),
    ensures
        is_zero(shard),
{
    lemma_shard_is_its_points(shard, |p: int| (0u8, 0u8));
}

} // verus!
