use std::collections::HashMap;

use erasure_coding::chunks::{
    construct_chunks_arena, construct_chunks_default, make_original_shard, make_original_shards,
    make_original_shards_arena, next_aligned, shard_bytes,
};
use erasure_coding::{
    construct_chunks, reconstruct, reconstruct_from_systematic, recovery_threshold,
    systematic_recovery_threshold, ChunkIndex, ErasureChunk, Error, MAX_CHUNKS,
};
use quickcheck::{Arbitrary, Gen, QuickCheck};
use rand::{seq::SliceRandom, Rng, SeedableRng};

#[derive(Clone, Debug)]
struct ArbitraryAvailableData(Vec<u8>);

impl Arbitrary for ArbitraryAvailableData {
    fn arbitrary(g: &mut Gen) -> Self {
        // Limit the POV len to 16KiB, otherwise the test will take forever
        let data_len = (u32::arbitrary(g) % (16 * 1024)).max(2);

        let data = (0..data_len).map(|_| u8::arbitrary(g)).collect();

        ArbitraryAvailableData(data)
    }
}

fn check_systematic_round_trip(available_data: ArbitraryAvailableData, n_chunks: u16) {
    let threshold = systematic_recovery_threshold(n_chunks).unwrap();
    let data_len = available_data.0.len();
    let chunks = construct_chunks(n_chunks, &available_data.0, None).unwrap();
    let reconstructed: Vec<u8> = reconstruct_from_systematic(
        n_chunks,
        chunks.len(),
        &mut chunks.iter().take(threshold as usize).map(Vec::as_slice),
        data_len,
    )
    .unwrap();
    assert_eq!(reconstructed, available_data.0);
}

fn check_round_trip(available_data: ArbitraryAvailableData, n_chunks: u16) {
    let data_len = available_data.0.len();
    let threshold = recovery_threshold(n_chunks).unwrap();
    let chunks = construct_chunks(n_chunks, &available_data.0, None).unwrap();
    let map: HashMap<ChunkIndex, Vec<u8>> = chunks
        .into_iter()
        .enumerate()
        .map(|(i, v)| (ChunkIndex::from(i as u16), v))
        .collect();
    let some_chunks = map.into_iter().take(threshold as usize);
    let reconstructed: Vec<u8> = reconstruct(n_chunks, some_chunks, data_len).unwrap();
    assert_eq!(reconstructed, available_data.0);
}

// A hundred runs for each property. Most of them have the largest number of chunks,
// which takes most of a second without optimisation, so they are dealt out to
// several tests.
fn systematic_round_trips(runs: u64) {
    fn property(available_data: ArbitraryAvailableData, n_chunks: u16) {
        let n_chunks = n_chunks.max(1).min(MAX_CHUNKS);
        check_systematic_round_trip(available_data, n_chunks);
    }

    QuickCheck::new().tests(runs).quickcheck(property as fn(ArbitraryAvailableData, u16))
}

fn round_trips(runs: u64) {
    fn property(available_data: ArbitraryAvailableData, n_chunks: u16) {
        let n_chunks = n_chunks.max(1).min(MAX_CHUNKS);
        check_round_trip(available_data, n_chunks);
    }

    QuickCheck::new().tests(runs).quickcheck(property as fn(ArbitraryAvailableData, u16))
}

#[test]
fn round_trip_systematic_works() {
    systematic_round_trips(25);
}

#[test]
fn round_trip_systematic_works_second_part() {
    systematic_round_trips(25);
}

#[test]
fn round_trip_systematic_works_third_part() {
    systematic_round_trips(25);
}

#[test]
fn round_trip_systematic_works_fourth_part() {
    systematic_round_trips(25);
}

#[test]
fn round_trip_works() {
    round_trips(10);
}

#[test]
fn round_trip_works_second_part() {
    round_trips(10);
}

#[test]
fn round_trip_works_third_part() {
    round_trips(10);
}

#[test]
fn round_trip_works_fourth_part() {
    round_trips(10);
}

#[test]
fn round_trip_works_fifth_part() {
    round_trips(10);
}

#[test]
fn round_trip_works_sixth_part() {
    round_trips(10);
}

#[test]
fn round_trip_works_seventh_part() {
    round_trips(10);
}

#[test]
fn round_trip_works_eighth_part() {
    round_trips(10);
}

#[test]
fn round_trip_works_ninth_part() {
    round_trips(10);
}

#[test]
fn round_trip_works_tenth_part() {
    round_trips(10);
}

#[test]
fn round_trip_systematic_works_with_fewer_chunks() {
    fn property(available_data: ArbitraryAvailableData, n_chunks: u16) {
        check_systematic_round_trip(available_data, n_chunks % 1000 + 1);
    }

    QuickCheck::new().quickcheck(property as fn(ArbitraryAvailableData, u16))
}

#[test]
fn round_trip_works_with_fewer_chunks() {
    fn property(available_data: ArbitraryAvailableData, n_chunks: u16) {
        check_round_trip(available_data, n_chunks % 1000 + 1);
    }

    QuickCheck::new().quickcheck(property as fn(ArbitraryAvailableData, u16))
}

fn stress_test(data_sizes: &[usize], chunk_configs: &[u16]) {
    for data_size in data_sizes.iter() {
        println!("Testing data size: {} bytes", data_size);

        for &n_chunks in chunk_configs.iter() {
            // Skip too large configurations for small data
            if *data_size < 1000 && n_chunks > 64 {
                continue;
            }

            println!("  Testing with {} chunks", n_chunks);

            // Generate random data with fixed seed for reproducibility
            let mut rng =
                rand::rngs::SmallRng::seed_from_u64((*data_size as u64) ^ (n_chunks as u64));
            let original_data: Vec<u8> = (0..*data_size).map(|_| rng.gen()).collect();

            // Encode data
            let chunks = construct_chunks(n_chunks, &original_data, None).unwrap();
            assert_eq!(chunks.len(), n_chunks as usize);

            // Get minimum threshold for recovery
            let threshold = recovery_threshold(n_chunks).unwrap() as usize;

            // Create indices of all chunks
            let mut chunk_indices: Vec<usize> = (0..n_chunks as usize).collect();

            // Shuffle indices
            chunk_indices.shuffle(&mut rng);

            // Take only threshold chunks (minimum required amount)
            let selected_indices = &chunk_indices[..threshold];

            // Create map with selected chunks
            let available_chunks: HashMap<ChunkIndex, Vec<u8>> = selected_indices
                .iter()
                .map(|&idx| (ChunkIndex(idx as u16), chunks[idx].clone()))
                .collect();

            println!(
                "    Using {} chunks out of {} (threshold: {})",
                available_chunks.len(),
                n_chunks,
                threshold
            );

            // Recover data from available chunks
            let reconstructed =
                reconstruct(n_chunks, available_chunks.into_iter(), original_data.len()).unwrap();

            // Verify that reconstructed data matches original
            assert_eq!(
                reconstructed.len(),
                original_data.len(),
                "Reconstructed data length mismatch for size {} with {} chunks",
                data_size,
                n_chunks
            );

            assert_eq!(
                reconstructed, original_data,
                "Reconstructed data does not match original for size {} with {} chunks",
                data_size, n_chunks
            );
        }

        println!("  ✓ All chunk configurations passed for size {}", data_size);
    }

    println!("✓ All stress tests passed!");
}

// One run with millions of bytes takes seconds, so larger sizes have tests of their
// own.
#[test]
fn stress_test_various_sizes_with_random_chunk_loss() {
    // Data sizes for testing
    let data_sizes = vec![10, 1000, 10_000, 100_000, 1_000_000];

    // Various chunk configurations for testing
    let chunk_configs = vec![16, 64, 256, 1024];

    stress_test(&data_sizes, &chunk_configs);
}

#[test]
fn stress_test_ten_million_bytes_in_16_chunks() {
    stress_test(&[10_000_000], &[16]);
}

#[test]
fn stress_test_ten_million_bytes_in_64_chunks() {
    stress_test(&[10_000_000], &[64]);
}

#[test]
fn stress_test_ten_million_bytes_in_256_chunks() {
    stress_test(&[10_000_000], &[256]);
}

#[test]
fn stress_test_ten_million_bytes_in_1024_chunks() {
    stress_test(&[10_000_000], &[1024]);
}

#[test]
fn stress_test_twenty_million_bytes_in_16_chunks() {
    stress_test(&[20_000_000], &[16]);
}

#[test]
fn stress_test_twenty_million_bytes_in_64_chunks() {
    stress_test(&[20_000_000], &[64]);
}

#[test]
fn stress_test_fifty_million_bytes_in_4_chunks() {
    stress_test(&[50_000_000], &[4]);
}

#[test]
fn stress_test_fifty_million_bytes_in_6_chunks() {
    stress_test(&[50_000_000], &[6]);
}

// Restoring fifty million bytes from any of many chunks takes too long without
// optimisation, so here they come back from the chunks that hold them.
#[test]
fn fifty_million_bytes_come_back_from_their_first_chunks() {
    let data_size: usize = 50_000_000;
    let n_chunks: u16 = 16;
    let mut rng = rand::rngs::SmallRng::seed_from_u64((data_size as u64) ^ (n_chunks as u64));
    let mut original_data = vec![0u8; data_size];
    rng.fill(&mut original_data[..]);
    let chunks = construct_chunks(n_chunks, &original_data, None).unwrap();
    assert_eq!(chunks.len(), n_chunks as usize);
    let reconstructed = reconstruct_from_systematic(
        n_chunks,
        chunks.len(),
        &mut chunks.iter().map(Vec::as_slice),
        data_size,
    )
    .unwrap();
    assert!(reconstructed == original_data);
    let first = chunks.into_iter().enumerate().take(6).map(|(i, c)| (ChunkIndex(i as u16), c));
    assert!(reconstruct(n_chunks, first, data_size).unwrap() == original_data);
}

fn sample(len: usize) -> Vec<u8> {
    (0..len).map(|i| (i * 31 % 251) as u8 + 1).collect()
}

fn indexed(chunks: &[Vec<u8>], indexes: &[usize]) -> std::vec::IntoIter<(ChunkIndex, Vec<u8>)> {
    let picked: Vec<(ChunkIndex, Vec<u8>)> =
        indexes.iter().map(|&i| (ChunkIndex(i as u16), chunks[i].clone())).collect();
    picked.into_iter()
}

#[test]
fn threshold_is_a_third_rounded_up() {
    let expected = [(1, 1), (2, 1), (3, 1), (4, 2), (6, 2), (7, 3), (10, 4), (342, 114)];
    for (n, k) in expected {
        assert_eq!(recovery_threshold(n), Ok(k));
        assert_eq!(systematic_recovery_threshold(n), Ok(k));
    }
    assert_eq!(recovery_threshold(MAX_CHUNKS), Ok(5462));
    assert_eq!(recovery_threshold(0), Err(Error::NotEnoughTotalChunks));
    assert_eq!(recovery_threshold(MAX_CHUNKS + 1), Err(Error::TooManyTotalChunks));
    assert_eq!(systematic_recovery_threshold(u16::MAX), Err(Error::TooManyTotalChunks));
}

#[test]
fn chunk_index_moves_on() {
    let mut index = ChunkIndex::from(7);
    index.add_assign(5);
    assert_eq!(index, ChunkIndex(12));
    assert!(ChunkIndex(3) < index);
}

#[test]
fn erasure_chunks_compare_by_their_parts() {
    let chunk = ErasureChunk { chunk: vec![1, 2], index: ChunkIndex(4), proof: vec![9u8] };
    assert_eq!(chunk.clone(), chunk);
    assert_ne!(ErasureChunk { index: ChunkIndex(5), ..chunk.clone() }, chunk);
}

#[test]
fn shard_lengths_are_aligned() {
    assert_eq!(next_aligned(0, 64), 0);
    assert_eq!(next_aligned(1, 64), 64);
    assert_eq!(next_aligned(64, 64), 64);
    assert_eq!(next_aligned(65, 10), 70);
    assert_eq!(shard_bytes(4, 1), 64);
    assert_eq!(shard_bytes(4, 256), 64);
    assert_eq!(shard_bytes(4, 257), 128);
    assert_eq!(shard_bytes(1, 1000), 1024);
}

#[test]
fn shards_are_cut_out_and_padded() {
    let data = [1, 2, 3, 4, 5];
    assert_eq!(make_original_shard(&data, 0, 2), vec![1, 2]);
    assert_eq!(make_original_shard(&data, 2, 2), vec![5, 0]);
    assert_eq!(make_original_shard(&data, 3, 2), vec![0, 0]);
    assert_eq!(make_original_shard(&data, 0, 8), vec![1, 2, 3, 4, 5, 0, 0, 0]);
}

#[test]
fn both_splitters_make_the_same_shards() {
    for k in [1, 2, 7] {
        for len in [1, 63, 64, 65, 1000] {
            let data = sample(len);
            let shards = make_original_shards(k, &data);
            assert_eq!(shards, make_original_shards_arena(k, &data, shard_bytes(k, len)));
            assert_eq!(shards.len(), k as usize);
            assert_eq!(shards.concat()[..len], data[..]);
        }
    }
}

#[test]
fn one_chunk_is_the_data() {
    let data = sample(77);
    let chunks = construct_chunks(1, &data, None).unwrap();
    assert_eq!(chunks, vec![data.clone()]);
    assert_eq!(reconstruct(1, indexed(&chunks, &[0]), 77), Ok(data.clone()));
    assert_eq!(reconstruct(1, indexed(&chunks, &[0]), 5), Ok(data[..5].to_vec()));
    assert_eq!(reconstruct(1, indexed(&chunks, &[0]), 100), Ok(data.clone()));
    assert_eq!(reconstruct(1, indexed(&chunks, &[]), 77), Err(Error::NotEnoughChunks));
}

#[test]
fn zeroes_are_coded_as_zeroes() {
    for n_chunks in [1, 2, 3, 7, 16, 100, 1000, 16384] {
        let chunks = construct_chunks(n_chunks, &[0u8; 5000], None).unwrap();
        assert_eq!(chunks.len(), n_chunks as usize);
        assert!(chunks.iter().all(|c| c.iter().all(|&b| b == 0)));
        // Anything else leaves its mark.
        let mut data = [0u8; 5000];
        data[1234] = 1;
        let chunks = construct_chunks(n_chunks, &data, None).unwrap();
        assert!(chunks.last().unwrap().iter().any(|&b| b != 0));
    }
}

#[test]
fn first_chunks_hold_the_data() {
    let data = sample(300);
    let chunks = construct_chunks(10, &data, None).unwrap();
    assert_eq!(chunks.len(), 10);
    assert!(chunks.iter().all(|chunk| chunk.len() == 128));
    let mut joined: Vec<u8> = chunks[..4].concat();
    assert!(joined[300..].iter().all(|&b| b == 0));
    joined.truncate(300);
    assert_eq!(joined, data);
    // The recovery chunks of data that is not zero are not zero either.
    assert!(chunks[4..].iter().all(|chunk| chunk.iter().any(|&b| b != 0)));
}

#[test]
fn data_that_cannot_be_coded_is_refused() {
    assert_eq!(construct_chunks(10, &[], None), Err(Error::BadPayload));
    assert_eq!(construct_chunks(0, &[], None), Err(Error::BadPayload));
    assert_eq!(construct_chunks(0, &[1], None), Err(Error::NotEnoughTotalChunks));
    assert_eq!(construct_chunks(MAX_CHUNKS + 1, &[1], None), Err(Error::TooManyTotalChunks));
}

#[test]
fn splitting_by_way_of_one_buffer_makes_the_same_chunks() {
    for n in [2, 3, 10, 50] {
        for len in [1, 64, 1000, 4096] {
            let data = sample(len);
            assert_eq!(construct_chunks_arena(n, &data), construct_chunks(n, &data, None));
        }
    }
    for n in [0, 1, MAX_CHUNKS + 1] {
        assert_eq!(construct_chunks_arena(n, &[1]), construct_chunks_default(n, &[1]));
    }
    assert_eq!(construct_chunks_arena(0, &[1]), Err(Error::NotEnoughTotalChunks));
    // The codec makes no chunk without recovery chunks.
    assert_eq!(construct_chunks_arena(1, &[1]), Err(Error::Unknown));
    assert_eq!(construct_chunks_arena(MAX_CHUNKS + 1, &[1]), Err(Error::TooManyTotalChunks));
}

#[test]
fn any_threshold_of_chunks_gives_back_the_data() {
    let data = sample(1000);
    let chunks = construct_chunks(10, &data, None).unwrap();
    for picked in [[0, 1, 2, 3], [3, 2, 1, 0], [6, 7, 8, 9], [9, 0, 5, 2], [1, 4, 3, 8]] {
        assert_eq!(reconstruct(10, indexed(&chunks, &picked), 1000), Ok(data.clone()));
    }
    let all: Vec<usize> = (0..10).collect();
    assert_eq!(reconstruct(10, indexed(&chunks, &all), 1000), Ok(data));
}

#[test]
fn output_is_cut_to_the_length_asked_for() {
    let data = sample(1000);
    let chunks = construct_chunks(10, &data, None).unwrap();
    assert_eq!(reconstruct(10, indexed(&chunks, &[9, 1, 7, 4]), 10), Ok(data[..10].to_vec()));
    let padded = reconstruct(10, indexed(&chunks, &[9, 1, 7, 4]), 5000).unwrap();
    assert_eq!(padded.len(), 4 * 256);
    assert_eq!(padded[..1000], data[..]);
    assert!(padded[1000..].iter().all(|&b| b == 0));
}

#[test]
fn chunks_that_do_not_fit_together_are_refused() {
    let data = sample(1000);
    let chunks = construct_chunks(10, &data, None).unwrap();
    assert_eq!(
        reconstruct(10, indexed(&chunks, &[0, 1, 9]), 1000),
        Err(Error::NotEnoughChunks)
    );
    assert_eq!(
        reconstruct(10, indexed(&chunks, &[0, 1, 2]), 1000),
        Err(Error::NotEnoughChunks)
    );
    // Two recovery chunks with one index.
    assert_eq!(reconstruct(10, indexed(&chunks, &[0, 1, 9, 9]), 1000), Err(Error::Unknown));
    // Two original chunks with one index.
    assert_eq!(reconstruct(10, indexed(&chunks, &[0, 0, 8, 9]), 1000), Err(Error::Unknown));
    // An index that no chunk has.
    let beyond = indexed(&chunks, &[0, 1, 2]).chain([(ChunkIndex(10), chunks[9].clone())]);
    assert_eq!(reconstruct(10, beyond, 1000), Err(Error::Unknown));
    // A chunk of another length.
    let longer = indexed(&chunks, &[0, 1, 8]).chain([(ChunkIndex(9), vec![0; 64])]);
    assert_eq!(reconstruct(10, longer, 1000), Err(Error::NonUniformChunks));
    // A length that no shard has.
    let odd: Vec<(ChunkIndex, Vec<u8>)> =
        (4..8u16).map(|i| (ChunkIndex(i), vec![0; 63])).collect();
    assert_eq!(reconstruct(10, odd.into_iter(), 10), Err(Error::UnalignedChunk));
    assert_eq!(
        reconstruct(0, indexed(&chunks, &[0]), 10),
        Err(Error::NotEnoughTotalChunks)
    );
    assert_eq!(
        reconstruct(MAX_CHUNKS + 1, indexed(&chunks, &[0]), 10),
        Err(Error::TooManyTotalChunks)
    );
}

#[test]
fn original_chunks_alone_are_joined() {
    // Without a recovery chunk the codec has nothing to do.
    let chunks = vec![vec![1u8, 2], vec![3], vec![4, 5, 6], vec![]];
    assert_eq!(reconstruct(10, indexed(&chunks, &[2, 0, 3, 1]), 100), Ok(vec![1, 2, 3, 4, 5, 6]));
    assert_eq!(reconstruct(10, indexed(&chunks, &[2, 0, 3, 1]), 2), Ok(vec![1, 2]));
    // Each of them has to be there.
    assert_eq!(
        reconstruct(10, indexed(&chunks, &[0, 0, 1, 2]), 100),
        Err(Error::NotEnoughChunks)
    );
    let chunks = construct_chunks(4, &sample(100), None).unwrap();
    assert_eq!(reconstruct(4, indexed(&chunks, &[0, 0]), 100), Err(Error::NotEnoughChunks));
}

#[test]
fn systematic_chunks_give_back_the_data() {
    let data = sample(1000);
    let chunks = construct_chunks(10, &data, None).unwrap();
    let mut all = chunks.iter().map(Vec::as_slice);
    assert_eq!(reconstruct_from_systematic(10, 10, &mut all, 1000), Ok(data.clone()));
    // Only the chunks that are needed are taken.
    assert_eq!(all.next(), Some(chunks[4].as_slice()));
    let mut first = chunks.iter().map(Vec::as_slice);
    let padded = reconstruct_from_systematic(10, 4, &mut first, 2000).unwrap();
    assert_eq!(padded[..1000], data[..]);
    assert!(padded[1000..].iter().all(|&b| b == 0));
    assert_eq!(padded.len(), 2000);
}

#[test]
fn systematic_chunks_that_do_not_fit_together_are_refused() {
    let whole = vec![7u8; 64];
    let odd = vec![7u8; 63];
    let longer = vec![7u8; 128];
    let read = |len: usize, chunks: &[&[u8]]| {
        reconstruct_from_systematic(10, len, &mut chunks.to_vec().into_iter(), 256)
    };
    assert_eq!(read(3, &[&whole, &whole, &whole]), Err(Error::NotEnoughChunks));
    assert_eq!(read(4, &[&odd, &odd, &odd, &odd]), Err(Error::UnalignedChunk));
    assert_eq!(read(4, &[&whole, &longer, &whole, &whole]), Err(Error::NonUniformChunks));
    assert_eq!(read(4, &[&whole, &whole, &whole, &[]]), Err(Error::NonUniformChunks));
    assert_eq!(read(4, &[&whole, &whole, &whole, &whole]), Ok(vec![7; 256]));
    // Empty chunks at the start are passed over.
    let mut late = vec![7; 64];
    late.resize(256, 0);
    assert_eq!(read(4, &[&[], &[], &[], &whole]), Ok(late));
    // A last chunk on which none follows may have any length.
    let mut last = vec![7; 63];
    last.resize(256, 0);
    assert_eq!(read(4, &[&[], &[], &[], &odd]), Ok(last));
    // The iterator has to yield as many chunks as are needed, whatever their number
    // is said to be.
    assert_eq!(read(4, &[&whole, &whole, &whole]), Err(Error::NotEnoughChunks));
    assert_eq!(read(4, &[&[]]), Err(Error::NotEnoughChunks));
    assert_eq!(read(4, &[]), Err(Error::NotEnoughChunks));
    assert_eq!(read(4, &[&odd]), Err(Error::UnalignedChunk));
    assert_eq!(read(4, &[&whole, &longer]), Err(Error::NonUniformChunks));
    assert_eq!(
        reconstruct_from_systematic(0, 4, &mut [whole.as_slice()].into_iter(), 1),
        Err(Error::NotEnoughTotalChunks)
    );
    assert_eq!(
        reconstruct_from_systematic(MAX_CHUNKS + 1, 4, &mut [whole.as_slice()].into_iter(), 1),
        Err(Error::TooManyTotalChunks)
    );
}

#[test]
fn one_systematic_chunk_is_cut() {
    let data = sample(10);
    let mut chunks = [data.as_slice()].into_iter();
    assert_eq!(reconstruct_from_systematic(3, 1, &mut chunks, 4), Ok(data[..4].to_vec()));
    let mut none = std::iter::empty::<&[u8]>();
    assert_eq!(
        reconstruct_from_systematic(3, 1, &mut none, 3),
        Err(Error::NotEnoughChunks)
    );
}
