use erasure_coding::chunks::make_original_shards;
use erasure_coding::parallel::{
    cached_thread_pool, construct_chunks_on_pool, default_thread_count, get_thread_pool, keep_pool,
    make_original_shards_parallel, requested_threads,
};
use erasure_coding::{
    construct_chunks, construct_chunks_parallel, Error, ThreadPoolCache, MAX_CHUNKS,
};

#[test]
fn test_thread_pool_configurations() {
    let data = vec![1u8; 1024];
    let n_chunks = 16;
    let mut cache: Option<ThreadPoolCache> = None;
    let all_cores = 6;

    // Test with None - should use default (half of cores)
    let chunks = construct_chunks_parallel(n_chunks, &data, None, &mut cache, all_cores).unwrap();
    assert_eq!(chunks.len(), n_chunks as usize);

    // Test with Some(0) - should use all available cores
    let chunks =
        construct_chunks_parallel(n_chunks, &data, Some(0), &mut cache, all_cores).unwrap();
    assert_eq!(chunks.len(), n_chunks as usize);

    // Verify that pool was created with all cores
    let pool = get_thread_pool(&mut cache, Some(0), all_cores).unwrap();
    assert_eq!(
        pool.current_num_threads(),
        all_cores,
        "Thread pool with num_threads=0 should use all logical cores"
    );

    // Test with Some(2) - should use exactly 2 threads
    let chunks =
        construct_chunks_parallel(n_chunks, &data, Some(2), &mut cache, all_cores).unwrap();
    assert_eq!(chunks.len(), n_chunks as usize);

    let pool = get_thread_pool(&mut cache, Some(2), all_cores).unwrap();
    assert_eq!(
        pool.current_num_threads(),
        2,
        "Thread pool with num_threads=2 should use exactly 2 threads"
    );

    // Test with Some(4) - should use exactly 4 threads
    let chunks =
        construct_chunks_parallel(n_chunks, &data, Some(4), &mut cache, all_cores).unwrap();
    assert_eq!(chunks.len(), n_chunks as usize);

    let pool = get_thread_pool(&mut cache, Some(4), all_cores).unwrap();
    assert_eq!(
        pool.current_num_threads(),
        4,
        "Thread pool with num_threads=4 should use exactly 4 threads"
    );

    println!("✓ Thread pool configuration test passed!");
}

#[test]
fn default_is_half_of_the_cores() {
    assert_eq!(default_thread_count(1), 1);
    assert_eq!(default_thread_count(2), 1);
    assert_eq!(default_thread_count(3), 1);
    assert_eq!(default_thread_count(8), 4);
    assert_eq!(requested_threads(None, 8), 4);
    assert_eq!(requested_threads(Some(0), 8), 8);
    assert_eq!(requested_threads(Some(3), 8), 3);
}

#[test]
fn pool_is_kept_for_the_same_number_of_threads() {
    let mut cache: Option<ThreadPoolCache> = None;
    assert!(cached_thread_pool(&cache, 2).is_none());
    let first = get_thread_pool(&mut cache, Some(2), 8).unwrap();
    let again = get_thread_pool(&mut cache, None, 4).unwrap();
    assert!(std::sync::Arc::ptr_eq(&first, &again));
    assert!(cached_thread_pool(&cache, 3).is_none());
    let other = get_thread_pool(&mut cache, Some(0), 3).unwrap();
    assert!(!std::sync::Arc::ptr_eq(&first, &other));
    assert_eq!(other.current_num_threads(), 3);
    assert!(cached_thread_pool(&cache, 2).is_none());
    let kept = cached_thread_pool(&cache, 3).unwrap();
    assert!(std::sync::Arc::ptr_eq(&kept, &other));
}

#[test]
fn a_pool_that_was_built_is_kept() {
    let mut cache: Option<ThreadPoolCache> = None;
    let built = rayon::ThreadPoolBuilder::new().num_threads(3).build();
    let pool = keep_pool(&mut cache, 3, built).unwrap();
    assert_eq!(pool.current_num_threads(), 3);
    assert!(std::sync::Arc::ptr_eq(&cached_thread_pool(&cache, 3).unwrap(), &pool));
    // Nothing can be built where the threads cannot be started.
    let failed = rayon::ThreadPoolBuilder::new()
        .num_threads(1)
        .spawn_handler(|_| Err(std::io::Error::other("no threads")))
        .build();
    assert!(matches!(keep_pool(&mut cache, 5, failed), Err(Error::Unknown)));
    assert!(std::sync::Arc::ptr_eq(&cached_thread_pool(&cache, 3).unwrap(), &pool));
    assert!(cached_thread_pool(&cache, 5).is_none());
}

#[test]
fn many_threads_are_either_all_started_or_none() {
    // How many threads can be started depends on the machine.
    let mut cache: Option<ThreadPoolCache> = None;
    match get_thread_pool(&mut cache, Some(300), 2) {
        Ok(pool) => assert_eq!(pool.current_num_threads(), 300),
        Err(e) => {
            assert_eq!(e, Error::Unknown);
            assert!(cache.is_none());
        }
    }
}

#[test]
fn chunks_do_not_depend_on_the_threads() {
    let data: Vec<u8> = (0..5000u32).map(|i| (i * 13 % 256) as u8).collect();
    let expected = construct_chunks(20, &data, None);
    let mut cache: Option<ThreadPoolCache> = None;
    for threads in [None, Some(0), Some(1), Some(5)] {
        assert_eq!(construct_chunks_parallel(20, &data, threads, &mut cache, 3), expected);
    }
    let pool = get_thread_pool(&mut cache, Some(2), 3).unwrap();
    assert_eq!(construct_chunks_on_pool(&pool, 20, &data), expected);
    assert_eq!(make_original_shards_parallel(&pool, 7, &data), make_original_shards(7, &data));
    assert_eq!(construct_chunks_on_pool(&pool, 1, &data), Ok(vec![data.clone()]));
    assert_eq!(construct_chunks_on_pool(&pool, 20, &[]), Err(Error::BadPayload));
    assert_eq!(construct_chunks_on_pool(&pool, 0, &data), Err(Error::NotEnoughTotalChunks));
}

#[test]
fn no_pool_is_made_where_none_is_needed() {
    let mut cache: Option<ThreadPoolCache> = None;
    assert_eq!(
        construct_chunks_parallel(16, &[], None, &mut cache, 2),
        Err(Error::BadPayload)
    );
    assert_eq!(
        construct_chunks_parallel(0, &[1], None, &mut cache, 2),
        Err(Error::NotEnoughTotalChunks)
    );
    assert_eq!(
        construct_chunks_parallel(MAX_CHUNKS + 1, &[1], None, &mut cache, 2),
        Err(Error::TooManyTotalChunks)
    );
    assert_eq!(construct_chunks_parallel(1, &[5], None, &mut cache, 2), Ok(vec![vec![5]]));
    assert!(cache.is_none());
}
