use std::collections::BTreeMap;

use erasure_coding::segment::{
    data_index_to_chunk_index, ori_chunk_to_data, N_SHARDS, SEGMENTS_PER_SUBSHARD_BATCH_OPTIMAL,
    SEGMENT_SIZE, SUBSHARD_SIZE, TOTAL_SHARDS,
};
use erasure_coding::{ChunkIndex, Error, Segment, SubShard, SubShardDecoder, SubShardEncoder};
use rand::{rngs::SmallRng, Rng, SeedableRng};

#[test]
fn test_segments() {
    for count in [1, 2, 4, 5, 10, 16] {
        test_sc(count);
    }
}

fn test_sc(nb_seg: usize) {
    let mut rng = SmallRng::from_seed([0; 32]);
    let segments: Vec<_> = (0..nb_seg)
        .map(|s| {
            let mut se = [0u8; SEGMENT_SIZE];
            rng.fill::<_>(&mut se[..]);

            Segment { data: Box::new(se), index: s as u32 }
        })
        .collect();

    let mut encoder = SubShardEncoder::new().unwrap();
    let mut decoder = SubShardDecoder::new().unwrap();
    let chunks = encoder.construct_chunks(&segments).unwrap();

    for i_seg in 0..nb_seg {
        let mut it = (&chunks[i_seg][0..N_SHARDS / 3])
            .iter()
            .enumerate()
            .map(|(i, c)| (i_seg as u8, ChunkIndex(i as u16), c))
            .chain(
                (&chunks[i_seg][N_SHARDS..N_SHARDS + N_SHARDS / 3])
                    .iter()
                    .enumerate()
                    .map(|(i, c)| (i_seg as u8, ChunkIndex(i as u16 + N_SHARDS as u16), c)),
            )
            .chain(
                (&chunks[i_seg][N_SHARDS * 2..N_SHARDS * 2 + N_SHARDS / 3])
                    .iter()
                    .enumerate()
                    .map(|(i, c)| (i_seg as u8, ChunkIndex(i as u16 + N_SHARDS as u16 * 2), c)),
            );
        let (s, i) = decoder.reconstruct(&mut it).unwrap();
        assert_eq!(i, 1);
        assert_eq!((i_seg as u8, segments[i_seg].clone()), s[0]);
    }
    // try batching 2 subchunk
    if nb_seg < 2 {
        return;
    }
    let i_seg1 = 0;
    let i_seg2 = nb_seg / 2;

    let it1 = (&chunks[i_seg1][0..N_SHARDS / 3])
        .iter()
        .enumerate()
        .map(|(i, c)| (i_seg1 as u8, ChunkIndex(i as u16), c))
        .chain(
            (&chunks[i_seg1][N_SHARDS..N_SHARDS + N_SHARDS / 3])
                .iter()
                .enumerate()
                .map(|(i, c)| (i_seg1 as u8, ChunkIndex(i as u16 + N_SHARDS as u16), c)),
        )
        .chain(
            (&chunks[i_seg1][N_SHARDS * 2..N_SHARDS * 2 + N_SHARDS / 3])
                .iter()
                .enumerate()
                .map(|(i, c)| (i_seg1 as u8, ChunkIndex(i as u16 + N_SHARDS as u16 * 2), c)),
        );
    let it2 = (&chunks[i_seg2][0..N_SHARDS / 3])
        .iter()
        .enumerate()
        .map(|(i, c)| (i_seg2 as u8, ChunkIndex(i as u16), c))
        .chain(
            (&chunks[i_seg2][N_SHARDS..N_SHARDS + N_SHARDS / 3])
                .iter()
                .enumerate()
                .map(|(i, c)| (i_seg2 as u8, ChunkIndex(i as u16 + N_SHARDS as u16), c)),
        )
        .chain(
            (&chunks[i_seg2][N_SHARDS * 2..N_SHARDS * 2 + N_SHARDS / 3])
                .iter()
                .enumerate()
                .map(|(i, c)| (i_seg2 as u8, ChunkIndex(i as u16 + N_SHARDS as u16 * 2), c)),
        );

    let (s, i) = decoder.reconstruct(&mut it1.chain(it2)).unwrap();
    assert_eq!(i, 1); // all chunk ix are aligned so can be processed at once.
    assert_eq!((i_seg1 as u8, segments[i_seg1].clone()), s[0]);
    assert_eq!((i_seg2 as u8, segments[i_seg2].clone()), s[1]);

    let it1 = (&chunks[i_seg1][0..N_SHARDS / 3])
        .iter()
        .enumerate()
        .map(|(i, c)| (i_seg1 as u8, ChunkIndex(i as u16), c))
        .chain(
            (&chunks[i_seg1][N_SHARDS..N_SHARDS + N_SHARDS / 3])
                .iter()
                .enumerate()
                .map(|(i, c)| (i_seg1 as u8, ChunkIndex(i as u16 + N_SHARDS as u16), c)),
        )
        .chain(
            (&chunks[i_seg1][N_SHARDS * 2..N_SHARDS * 2 + N_SHARDS / 3])
                .iter()
                .enumerate()
                .map(|(i, c)| (i_seg1 as u8, ChunkIndex(i as u16 + N_SHARDS as u16 * 2), c)),
        );

    // unaligned a batch of chunks
    let it3 = (&chunks[i_seg2][0 + 1..N_SHARDS / 3 + 1])
        .iter()
        .enumerate()
        .map(|(i, c)| (i_seg2 as u8, ChunkIndex(i as u16 + 1), c))
        .chain(
            (&chunks[i_seg2][N_SHARDS..N_SHARDS + N_SHARDS / 3])
                .iter()
                .enumerate()
                .map(|(i, c)| (i_seg2 as u8, ChunkIndex(i as u16 + N_SHARDS as u16), c)),
        )
        .chain(
            (&chunks[i_seg2][N_SHARDS * 2..N_SHARDS * 2 + N_SHARDS / 3])
                .iter()
                .enumerate()
                .map(|(i, c)| (i_seg2 as u8, ChunkIndex(i as u16 + N_SHARDS as u16 * 2), c)),
        );
    let (s, i) = decoder.reconstruct(&mut it1.chain(it3)).unwrap();
    assert_eq!(i, 2); // not all chunk ix are aligned
    assert_eq!((i_seg1 as u8, segments[i_seg1].clone()), s[0]);
    assert_eq!((i_seg2 as u8, segments[i_seg2].clone()), s[1]);
}

fn sample_segments(count: usize) -> Vec<Segment> {
    (0..count)
        .map(|s| {
            let mut data = [0u8; SEGMENT_SIZE];
            for (i, b) in data.iter_mut().enumerate() {
                *b = ((i * 7 + s * 31) % 255 + 1) as u8;
            }
            Segment { data: Box::new(data), index: s as u32 }
        })
        .collect()
}

fn given<'a>(
    chunks: &'a [Box<[SubShard; TOTAL_SHARDS]>],
    segment: usize,
    indexes: std::ops::Range<usize>,
) -> Vec<(u8, ChunkIndex, &'a SubShard)> {
    indexes.map(|c| (segment as u8, ChunkIndex(c as u16), &chunks[segment][c])).collect()
}

#[test]
fn bytes_are_dealt_out_to_the_shards() {
    assert_eq!(data_index_to_chunk_index(0), (0, 0, 0));
    assert_eq!(data_index_to_chunk_index(1), (0, 0, 0));
    assert_eq!(data_index_to_chunk_index(3), (0, 0, 1));
    assert_eq!(data_index_to_chunk_index(683), (0, 0, 341));
    assert_eq!(data_index_to_chunk_index(684), (0, 1, 0));
    assert_eq!(data_index_to_chunk_index(684 * 32), (1, 0, 0));
    assert_eq!(data_index_to_chunk_index(684 * 70 + 11), (2, 6, 5));
}

#[test]
fn data_is_read_back_from_the_shards() {
    let mut shards: BTreeMap<usize, Vec<u8>> = BTreeMap::new();
    for a in 0..N_SHARDS {
        // Low bytes in the first half of the block, high bytes in the second.
        let mut shard = vec![(a % 200) as u8; 64];
        shard[32..].fill(201);
        shards.insert(a, shard);
    }
    let data = ori_chunk_to_data(&shards, 0, Some(1000)).unwrap();
    assert_eq!(data[..4], [0, 201, 1, 201]);
    assert_eq!(data[682..686], [141, 201, 0, 201]);
    assert_eq!(data[998..1002], [157, 201, 0, 0]);
    // From an odd byte on the point that it belongs to is read.
    let data = ori_chunk_to_data(&shards, 11, Some(3)).unwrap();
    assert_eq!(data[..6], [5, 201, 6, 201, 0, 0]);
    // A point is read even if nothing is asked for.
    let data = ori_chunk_to_data(&shards, 0, Some(0)).unwrap();
    assert_eq!(data[..4], [0, 201, 0, 0]);
    shards.remove(&3);
    assert_eq!(ori_chunk_to_data(&shards, 0, Some(8)), None);
    assert!(ori_chunk_to_data(&shards, 0, Some(6)).is_some());
}

#[test]
fn reading_stops_at_the_end_of_the_batch() {
    let mut shards: BTreeMap<usize, Vec<u8>> = BTreeMap::new();
    for a in 0..N_SHARDS {
        shards.insert(a, vec![9; 192]);
    }
    let last = (32 * 3 * N_SHARDS - 2) * 2;
    let data = ori_chunk_to_data(&shards, last, None).unwrap();
    assert_eq!(data[..6], [9, 9, 9, 9, 0, 0]);
}

#[test]
fn segments_that_are_no_batch_are_refused() {
    let mut encoder = SubShardEncoder::new().unwrap();
    let segments = sample_segments(SEGMENTS_PER_SUBSHARD_BATCH_OPTIMAL + 1);
    assert!(matches!(encoder.construct_chunks(&segments), Err(Error::BadPayload)));
    assert!(matches!(encoder.construct_chunks(&segments[1..3]), Err(Error::BadPayload)));
    let mut swapped = segments[..3].to_vec();
    swapped.swap(1, 2);
    assert!(matches!(encoder.construct_chunks(&swapped), Err(Error::BadPayload)));
    assert!(encoder.construct_chunks(&segments[..16]).is_ok());
}

#[test]
fn original_subshards_hold_the_segment() {
    let segments = sample_segments(3);
    let mut encoder = SubShardEncoder::new().unwrap();
    let chunks = encoder.construct_chunks(&segments).unwrap();
    assert_eq!(chunks.len(), SEGMENTS_PER_SUBSHARD_BATCH_OPTIMAL);
    for (s, segment) in segments.iter().enumerate() {
        for c in 0..N_SHARDS {
            for b in 0..SUBSHARD_SIZE {
                let at = (b / 2) * 2 * N_SHARDS + 2 * c + b % 2;
                let byte = if at < SEGMENT_SIZE { segment.data[at] } else { 0 };
                assert_eq!(chunks[s][c][b], byte);
            }
        }
        assert!(chunks[s][N_SHARDS..].iter().all(|c| c.iter().any(|&b| b != 0)));
    }
    // The segments that are missing are zero, and so is what is coded of them.
    assert!(chunks[3..].iter().all(|s| s.iter().all(|c| c.iter().all(|&b| b == 0))));
}

#[test]
fn subshards_do_not_depend_on_the_other_segments() {
    let segments = sample_segments(16);
    let mut encoder = SubShardEncoder::new().unwrap();
    let all = encoder.construct_chunks(&segments).unwrap();
    let some = encoder.construct_chunks(&segments[..5]).unwrap();
    assert!(all[..5] == some[..5]);
}

#[test]
fn segments_of_zeroes_are_coded_as_zeroes() {
    let mut segments = sample_segments(16);
    segments[9].data = Box::new([0u8; SEGMENT_SIZE]);
    let chunks = SubShardEncoder::new().unwrap().construct_chunks(&segments).unwrap();
    assert!(chunks[9].iter().all(|c| c.iter().all(|&b| b == 0)));
    for s in [8, 10] {
        assert!(chunks[s].iter().all(|c| c.iter().any(|&b| b != 0)));
    }
}

#[test]
fn all_recovery_subshards_restore_a_batch_at_once() {
    let segments = sample_segments(16);
    let chunks = SubShardEncoder::new().unwrap().construct_chunks(&segments).unwrap();
    let mut items = Vec::new();
    for s in (0..16).rev() {
        items.extend(given(&chunks, s, 600..1026));
    }
    let mut it = items.into_iter();
    let (found, runs) = SubShardDecoder::new().unwrap().reconstruct(&mut it).unwrap();
    assert_eq!(runs, 1);
    let expected: Vec<(u8, Segment)> =
        segments.into_iter().enumerate().map(|(s, segment)| (s as u8, segment)).collect();
    assert_eq!(found, expected);
    assert!(it.next().is_none());
}

#[test]
fn too_few_subshards_restore_nothing() {
    let segments = sample_segments(2);
    let chunks = SubShardEncoder::new().unwrap().construct_chunks(&segments).unwrap();
    let mut decoder = SubShardDecoder::new().unwrap();
    let few = given(&chunks, 0, 100..441);
    let (found, runs) = decoder.reconstruct(&mut few.clone().into_iter()).unwrap();
    assert!(found.is_empty());
    assert_eq!(runs, 0);
    // Another segment that has enough still comes out.
    let mut items = few;
    items.extend(given(&chunks, 1, 101..443));
    let (found, runs) = decoder.reconstruct(&mut items.into_iter()).unwrap();
    assert_eq!(found, vec![(1, segments[1].clone())]);
    assert_eq!(runs, 1);
    // One subshard given twice counts once.
    let mut twice = given(&chunks, 0, 100..441);
    twice.extend(given(&chunks, 0, 100..101));
    let (found, _) = decoder.reconstruct(&mut twice.into_iter()).unwrap();
    assert!(found.is_empty());
    let (found, runs) = decoder.reconstruct(&mut std::iter::empty()).unwrap();
    assert!(found.is_empty());
    assert_eq!(runs, 0);
}

#[test]
fn a_segment_whose_turn_goes_to_another_is_left_out() {
    let segments = sample_segments(2);
    let chunks = SubShardEncoder::new().unwrap().construct_chunks(&segments).unwrap();
    let mut decoder = SubShardDecoder::new().unwrap();
    let mut items = given(&chunks, 0, 1..343);
    items.extend(given(&chunks, 1, 0..342));
    let (found, runs) = decoder.reconstruct(&mut items.into_iter()).unwrap();
    assert_eq!(found, vec![(1, segments[1].clone())]);
    assert_eq!(runs, 1);
    // In the order of their first chunks both come out.
    let mut items = given(&chunks, 0, 0..342);
    items.extend(given(&chunks, 1, 1..343));
    let (found, runs) = decoder.reconstruct(&mut items.into_iter()).unwrap();
    assert_eq!(found, vec![(0, segments[0].clone()), (1, segments[1].clone())]);
    assert_eq!(runs, 2);
}

#[test]
fn of_several_subshards_one_is_taken() {
    let segments = sample_segments(1);
    let chunks = SubShardEncoder::new().unwrap().construct_chunks(&segments).unwrap();
    let mut decoder = SubShardDecoder::new().unwrap();
    let wrong: SubShard = [0u8; SUBSHARD_SIZE];
    // Of the first chunk the last one.
    let mut items = vec![(0u8, ChunkIndex(0), &wrong)];
    items.extend(given(&chunks, 0, 0..342));
    let (found, _) = decoder.reconstruct(&mut items.into_iter()).unwrap();
    assert_eq!(found, vec![(0, segments[0].clone())]);
    // Of the other chunks the first one.
    let mut items = given(&chunks, 0, 0..342);
    items.push((0u8, ChunkIndex(5), &wrong));
    let (found, _) = decoder.reconstruct(&mut items.into_iter()).unwrap();
    assert_eq!(found, vec![(0, segments[0].clone())]);
    let mut items = vec![(0u8, ChunkIndex(5), &wrong)];
    items.extend(given(&chunks, 0, 0..342));
    let (found, _) = decoder.reconstruct(&mut items.into_iter()).unwrap();
    assert_eq!(found[0].1.data[10..12], [0, 0]);
}

#[test]
fn segments_beyond_the_batch_that_take_no_place_do_no_harm() {
    let segments = sample_segments(2);
    let chunks = SubShardEncoder::new().unwrap().construct_chunks(&segments).unwrap();
    let mut decoder = SubShardDecoder::new().unwrap();
    // Two turns go to the segments 1 and 0, so that none is left for segment 16.
    let items = vec![
        (0u8, ChunkIndex(1), &chunks[0][1]),
        (1u8, ChunkIndex(0), &chunks[1][0]),
        (16u8, ChunkIndex(2), &chunks[0][2]),
    ];
    let (found, runs) = decoder.reconstruct(&mut items.into_iter()).unwrap();
    assert!(found.is_empty());
    assert_eq!(runs, 0);
}

#[test]
fn segments_beyond_the_batch_cannot_be_seated() {
    let segments = sample_segments(2);
    let chunks = SubShardEncoder::new().unwrap().construct_chunks(&segments).unwrap();
    let mut decoder = SubShardDecoder::new().unwrap();
    let alone = vec![(16u8, ChunkIndex(2), &chunks[0][2])];
    let mut it = alone.into_iter();
    assert_eq!(decoder.try_reconstruct(&mut it), Ok(None));
    assert!(it.next().is_none());
    // Seated beside a segment that has a place, or after it.
    let mut items = given(&chunks, 0, 0..342);
    items.push((255u8, ChunkIndex(0), &chunks[0][0]));
    assert_eq!(decoder.try_reconstruct(&mut items.into_iter()), Ok(None));
    let mut items = given(&chunks, 0, 0..342);
    items.push((16u8, ChunkIndex(400), &chunks[0][400]));
    assert_eq!(decoder.try_reconstruct(&mut items.into_iter()), Ok(None));
    // A segment that is never seated is passed over.
    let items = vec![
        (0u8, ChunkIndex(1), &chunks[0][1]),
        (1u8, ChunkIndex(0), &chunks[1][0]),
        (16u8, ChunkIndex(2), &chunks[0][2]),
    ];
    assert_eq!(decoder.try_reconstruct(&mut items.into_iter()), Ok(Some((vec![], 0))));
    // The decoder is as good as before.
    let items = given(&chunks, 1, 342..684);
    let found = decoder.try_reconstruct(&mut items.into_iter());
    assert_eq!(found, Ok(Some((vec![(1, segments[1].clone())], 1))));
}
