//! Making the shards on a thread pool.

use std::sync::Arc;

use rayon::iter::{IntoParallelIterator, ParallelIterator};
use vstd::prelude::*;

use crate::chunks::{
    append_recovery, chunks_outcome, coding_fits, construct_chunks, construct_outcome,
    is_chunk_count, lemma_coding_fits, lemma_original_shards, lemma_shard_len, make_original_shard,
    make_original_shards, original_shard, original_shards, shard_bytes, shard_len,
    systematic_recovery_threshold, MAX_CHUNKS,
};
use crate::codec::{bytes_of, lemma_same_bytes};
use crate::error::Error;
use crate::layout::{are_zero, is_zero};

verus! {

/// How many threads a thread pool runs.
pub uninterp spec fn pool_threads(pool: rayon::ThreadPool) -> int;

/// A thread pool of `rayon`.
#[verifier::external_type_specification]
#[verifier::external_body]
pub struct ExThreadPool(rayon::ThreadPool);

/// The reason for which `rayon` could not build a thread pool.
#[verifier::external_type_specification]
#[verifier::external_body]
pub struct ExThreadPoolBuildError(rayon::ThreadPoolBuildError);

/// The largest number of threads that `rayon` supports in one pool.
pub open spec fn thread_limit() -> int {
    if usize::BITS == 64 {
        65535
    } else {
        255
    }
}

/// The pool runs `num_threads` threads, or as many as `rayon` supports in one pool
/// if that is fewer.
pub open spec fn runs_threads(pool: rayon::ThreadPool, num_threads: int) -> bool {
    pool_threads(pool) == if num_threads <= thread_limit() {
        num_threads
    } else {
        thread_limit()
    }
}

/// `ThreadPoolBuilder::build` on a builder with `num_threads` set.
///
/// Claimed: the pool runs that many threads, or the largest number that `rayon`
/// supports. Whether the threads can be started depends on the machine.
#[verifier::external_body]
fn build_pool(num_threads: usize) -> (r: Result<rayon::ThreadPool, rayon::ThreadPoolBuildError>)
    requires
        num_threads > 0,
    ensures
        r matches Ok(pool) ==> pool_threads(pool) == (if num_threads <= thread_limit() {
            num_threads as int
        } else {
            thread_limit()
        }),
{
    rayon::ThreadPoolBuilder::new().num_threads(num_threads).build()
}

/// `built` is what `rayon` answered when it was asked for a pool with that many
/// threads.
pub closed spec fn is_built(
    threads: int,
    built: Result<rayon::ThreadPool, rayon::ThreadPoolBuildError>,
) -> bool {
    call_ensures(build_pool, (threads as usize,), built)
}

/// `rayon` could not build a pool with that many threads.
pub open spec fn is_refused(threads: int) -> bool {
    exists|e: rayon::ThreadPoolBuildError| #[trigger] is_built(threads, Err(e))
}

/// Nothing but a call of `rayon` with that number of threads gives an answer.
proof fn lemma_is_built(
    threads: usize,
    built: Result<rayon::ThreadPool, rayon::ThreadPoolBuildError>,
)
    requires
        is_built(threads as int, built),
    ensures
        call_ensures(build_pool, (threads,), built),
{
}

/// `ThreadPool::install` on a parallel iterator over `0..count` that maps each
/// number by `f` and is collected into a vector.
///
/// Claimed: what `f` made of each number stands in the vector, in the order of
/// the numbers.
#[verifier::external_body]
fn map_on_pool<F>(pool: &rayon::ThreadPool, count: usize, f: F) -> (shards: Vec<Vec<u8>>) where
    F: Fn(usize) -> Vec<u8> + Sync + Send,

    requires
        forall|i: usize| i < count ==> #[trigger] call_requires(f, (i,)),
    ensures
        shards@.len() == count,
        forall|i: usize| i < count ==> call_ensures(f, (i,), #[trigger] shards@[i as int]),
{
    pool.install(|| (0..count).into_par_iter().map(f).collect())
}

/// The number of threads that is used by default: half of the cores.
pub fn default_thread_count(logical_cores: usize) -> (r: usize)
    ensures
        r == if logical_cores < 2 {
            1
        } else {
            logical_cores / 2
        },
{
    let half: usize = logical_cores / 2;
    if half > 1 {
        half
    } else {
        1
    }
}

/// The number of threads that is asked for by `num_threads`.
pub open spec fn threads_for(num_threads: Option<usize>, logical_cores: int) -> int {
    match num_threads {
        None => if logical_cores < 2 {
            1
        } else {
            logical_cores / 2
        },
        Some(0) => logical_cores,
        Some(n) => n as int,
    }
}

/// The number of threads to use:
///   - `None` - use default (half of available cores)
///   - `Some(0)` - use all available cores
///   - `Some(n)` - use exactly n threads
pub fn requested_threads(num_threads: Option<usize>, logical_cores: usize) -> (r: usize)
    ensures
        r == threads_for(num_threads, logical_cores as int),
{
    match num_threads {
        None => default_thread_count(logical_cores),
        Some(0) => logical_cores,
        Some(n) => n,
    }
}

/// A thread pool, kept for the next operation that asks for as many threads.
pub struct ThreadPoolCache {
    /// The pool.
    pub pool: Arc<rayon::ThreadPool>,
    /// The number of threads that was asked for.
    pub num_threads: usize,
}

/// The pool that is kept runs as many threads as were asked for.
pub open spec fn is_consistent(cache: Option<ThreadPoolCache>) -> bool {
    cache matches Some(cached) ==> runs_threads(*cached.pool, cached.num_threads as int)
}

/// The pool that is kept, if it was made for that many threads.
pub open spec fn kept_pool(cache: Option<ThreadPoolCache>, threads: int) -> Option<
    Arc<rayon::ThreadPool>,
> {
    match cache {
        Some(cached) => if cached.num_threads == threads {
            Some(cached.pool)
        } else {
            None
        },
        None => None,
    }
}

/// Looks up a pool with the specified number of threads.
pub fn cached_thread_pool(cache: &Option<ThreadPoolCache>, threads: usize) -> (r: Option<
    Arc<rayon::ThreadPool>,
>)
    ensures
        r == kept_pool(*cache, threads as int),
{
    match cache {
        Some(cached) => if cached.num_threads == threads {
            Some(Arc::clone(&cached.pool))
        } else {
            None
        },
        None => None,
    }
}

/// The pool is found just when one is kept for that many threads.
pub proof fn lemma_cached_thread_pool(
    cache: &Option<ThreadPoolCache>,
    threads: usize,
    r: Option<Arc<rayon::ThreadPool>>,
)
    requires
        call_ensures(cached_thread_pool, (cache, threads), r),
    ensures
        r is Some <==> *cache is Some && (*cache)->Some_0.num_threads == threads,
        r matches Some(pool) ==> pool == (*cache)->Some_0.pool,
{
}

/// What is handed out when a pool with that many threads is asked for, and what the
/// cache is then: the pool that is kept if it was made for as many, else a new one
/// that takes its place. If none can be created the cache stays as it was.
pub open spec fn is_given_pool(
    before: Option<ThreadPoolCache>,
    after: Option<ThreadPoolCache>,
    threads: int,
    r: Result<Arc<rayon::ThreadPool>, Error>,
) -> bool {
    match kept_pool(before, threads) {
        Some(kept) => r == Ok::<Arc<rayon::ThreadPool>, Error>(kept) && after == before,
        None => match r {
            Ok(pool) => {
                &&& runs_threads(*pool, threads)
                &&& after == Some(ThreadPoolCache { pool, num_threads: threads as usize })
            },
            Err(e) => e == Error::Unknown && after == before,
        },
    }
}

/// Puts a pool that was built for `threads` threads into the cache and hands it out.
/// If building it failed the cache stays as it was.
pub fn keep_pool(
    cache: &mut Option<ThreadPoolCache>,
    threads: usize,
    built: Result<rayon::ThreadPool, rayon::ThreadPoolBuildError>,
) -> (r: Result<Arc<rayon::ThreadPool>, Error>)
    ensures
        match built {
            Ok(pool) => {
                &&& r is Ok
                &&& *r->Ok_0 == pool
                &&& *final(cache) == Some(ThreadPoolCache { pool: r->Ok_0, num_threads: threads })
            },
            Err(_) => {
                &&& r == Err::<Arc<rayon::ThreadPool>, Error>(Error::Unknown)
                &&& *final(cache) == *old(cache)
            },
        },
{
    match built {
        Ok(pool) => {
            let new_cache = ThreadPoolCache { pool: Arc::new(pool), num_threads: threads };
            let result = Arc::clone(&new_cache.pool);
            *cache = Some(new_cache);
            Ok(result)
        },
        Err(_) => Err(Error::Unknown),
    }
}

/// Get or create a thread pool with the specified number of threads.
///
/// If the requested number of threads differs from that of the cached pool, a new
/// pool is created and takes its place. If it cannot be created the cache stays as
/// it was.
pub fn get_thread_pool(
    cache: &mut Option<ThreadPoolCache>,
    num_threads: Option<usize>,
    logical_cores: usize,
) -> (r: Result<Arc<rayon::ThreadPool>, Error>)
    requires
        logical_cores > 0,
        is_consistent(*old(cache)),
    ensures
        is_consistent(*final(cache)),
        is_given_pool(
            *old(cache),
            *final(cache),
            threads_for(num_threads, logical_cores as int),
            r,
        ),
        r matches Ok(pool) ==> runs_threads(
            *pool,
            threads_for(num_threads, logical_cores as int),
        ),
        kept_pool(*old(cache), threads_for(num_threads, logical_cores as int)) is None ==> exists|
            built: Result<rayon::ThreadPool, rayon::ThreadPoolBuildError>,
        | #[trigger]
            is_built(threads_for(num_threads, logical_cores as int), built) && (match built {
                Ok(pool) => r is Ok && *r->Ok_0 == pool,
                Err(_) => r is Err,
            }),
{
    let threads: usize = requested_threads(num_threads, logical_cores);
    if let Some(pool) = cached_thread_pool(cache, threads) {
        return Ok(pool);
    }
    let build = build_pool;
    let built = build(threads);
    assert(is_built(threads as int, built));
    keep_pool(cache, threads, built)
}

/// The number of threads is the one that is asked for; zero stands for all cores. By
/// default it is half of the cores, rounded down, but at least one.
pub proof fn lemma_requested_threads(num_threads: Option<usize>, logical_cores: usize, r: usize)
    requires
        call_ensures(requested_threads, (num_threads, logical_cores), r),
    ensures
        num_threads matches Some(n) ==> n > 0 ==> r == n,
        num_threads matches Some(n) ==> n == 0 ==> r == logical_cores,
        num_threads is None ==> r >= 1 && (r > 1 ==> 2 * r <= logical_cores) && logical_cores < 2
            * r + 2,
{
}

/// Half of the cores, rounded down, but at least one.
pub proof fn lemma_default_thread_count(logical_cores: usize, r: usize)
    requires
        call_ensures(default_thread_count, (logical_cores,), r),
    ensures
        r >= 1,
        r > 1 ==> 2 * r <= logical_cores,
        logical_cores < 2 * r + 2,
{
}

/// A pool that is kept for as many threads as are asked for is handed out. Else `rayon`
/// is asked for one with that many threads: the new pool is handed out and kept. There
/// is no error but that of `rayon`, and then the cache stays as it was.
pub proof fn lemma_pool_request(
    cache: &mut Option<ThreadPoolCache>,
    num_threads: Option<usize>,
    logical_cores: usize,
    threads: usize,
    r: Result<Arc<rayon::ThreadPool>, Error>,
)
    requires
        call_ensures(get_thread_pool, (cache, num_threads, logical_cores), r),
        call_ensures(requested_threads, (num_threads, logical_cores), threads),
    ensures
        *old(cache) matches Some(kept) ==> kept.num_threads == threads ==> r == Ok::<
            Arc<rayon::ThreadPool>,
            Error,
        >(kept.pool) && *final(cache) == *old(cache),
        (*old(cache) matches Some(kept) ==> kept.num_threads != threads) ==> exists|
            built: Result<rayon::ThreadPool, rayon::ThreadPoolBuildError>,
        | #[trigger]
            is_built(threads as int, built) && (match built {
                Ok(pool) => {
                    &&& r is Ok && *r->Ok_0 == pool
                    &&& *final(cache) is Some && *(*final(cache))->Some_0.pool == pool
                    &&& (*final(cache))->Some_0.num_threads == threads
                    &&& threads <= 255 || (usize::BITS == 64 && threads <= 65535)
                        ==> pool_threads(pool) == threads
                },
                Err(_) => {
                    &&& r == Err::<Arc<rayon::ThreadPool>, Error>(Error::Unknown)
                    &&& *final(cache) == *old(cache)
                },
            }),
{
    let threads_int = threads_for(num_threads, logical_cores as int);
    assert(threads_int == threads);
    if kept_pool(*old(cache), threads as int) is None {
        let built = choose|built: Result<rayon::ThreadPool, rayon::ThreadPoolBuildError>|
            #[trigger]
            is_built(threads as int, built) && (match built {
                Ok(pool) => r is Ok && *r->Ok_0 == pool,
                Err(_) => r is Err,
            });
        lemma_is_built(threads, built);
    }
}

/// Of two requests one after the other, the second gets the pool of the first if
/// both ask for as many threads, however they say it. Else a new pool is made for
/// it, with as many threads as it asks for.
pub proof fn lemma_pool_reuse(
    start: Option<ThreadPoolCache>,
    middle: Option<ThreadPoolCache>,
    end: Option<ThreadPoolCache>,
    a: Option<usize>,
    b: Option<usize>,
    logical_cores: usize,
    first: Arc<rayon::ThreadPool>,
    second: Arc<rayon::ThreadPool>,
)
    requires
        logical_cores > 0,
        is_consistent(start),
        is_given_pool(start, middle, threads_for(a, logical_cores as int), Ok(first)),
        is_given_pool(middle, end, threads_for(b, logical_cores as int), Ok(second)),
    ensures
        threads_for(a, logical_cores as int) == threads_for(b, logical_cores as int) ==> second
            == first && end == middle,
        threads_for(a, logical_cores as int) != threads_for(b, logical_cores as int) ==> {
            &&& kept_pool(middle, threads_for(b, logical_cores as int)) is None
            &&& runs_threads(*second, threads_for(b, logical_cores as int))
            &&& second == first ==> threads_for(a, logical_cores as int) > thread_limit()
                || threads_for(b, logical_cores as int) > thread_limit()
        },
{
}

/// Splits the data into shards, each made by a thread of the pool.
pub fn make_original_shards_parallel(
    pool: &rayon::ThreadPool,
    original_count: u16,
    data: &[u8],
) -> (shards: Vec<Vec<u8>>)
    requires
        original_count > 0,
        data@.len() > 0,
        data@.len() + original_count <= usize::MAX,
        original_count * shard_len(original_count as int, data@.len() as int) + 64 <= usize::MAX,
    ensures
        bytes_of(shards@) == original_shards(original_count as int, data@),
{
    let ghost len = shard_len(original_count as int, data@.len() as int);
    proof {
        lemma_shard_len(original_count as int, data@.len() as int);
    }
    let shard_bytes: usize = shard_bytes(original_count, data.len());
    let count: usize = original_count as usize;
    let make = |i: usize| -> (shard: Vec<u8>)
        requires
            (i + 1) * shard_bytes <= usize::MAX,
        ensures
            shard@ == original_shard(data@, i as int, shard_bytes as int),
        { make_original_shard(data, i, shard_bytes) };
    assert forall|i: usize| i < count implies #[trigger] call_requires(make, (i,)) by {
        assert((i + 1) * len <= count * len) by (nonlinear_arith)
            requires
                i + 1 <= count,
                0 < len,
        ;
    }
    let shards = map_on_pool(pool, count, make);
    assert forall|j: int| 0 <= j < count implies (#[trigger] shards@[j])@ == original_shard(
        data@,
        j,
        len,
    ) by {
        let i = j as usize;
        assert(call_ensures(make, (i,), shards@[i as int]));
    }
    assert(bytes_of(shards@) =~= original_shards(original_count as int, data@));
    shards
}

/// The shards do not depend on the thread pool that makes them, nor on whether there
/// is one.
pub proof fn lemma_shards_do_not_depend_on_threads(
    pool: &rayon::ThreadPool,
    other: &rayon::ThreadPool,
    original_count: u16,
    data: &[u8],
    made: Vec<Vec<u8>>,
    also_made: Vec<Vec<u8>>,
    made_in_turn: Vec<Vec<u8>>,
)
    requires
        call_ensures(make_original_shards_parallel, (pool, original_count, data), made),
        call_ensures(make_original_shards_parallel, (other, original_count, data), also_made),
        call_ensures(make_original_shards, (original_count, data), made_in_turn),
    ensures
        bytes_of(made@) == bytes_of(also_made@),
        bytes_of(made@) == bytes_of(made_in_turn@),
{
}

/// Construct erasure-coded chunks on a thread pool.
///
/// The chunks and the errors are the same as those of [`construct_chunks`].
pub fn construct_chunks_on_pool(pool: &rayon::ThreadPool, n_chunks: u16, data: &[u8]) -> (r: Result<
    Vec<Vec<u8>>,
    Error,
>)
    requires
        2 <= n_chunks <= MAX_CHUNKS ==> coding_fits(n_chunks as int, data@.len() as int),
    ensures
        chunks_outcome(r) == construct_outcome(n_chunks as int, data@),
        r matches Ok(chunks) ==> is_zero(data@) ==> are_zero(bytes_of(chunks@)),
{
    if data.is_empty() || n_chunks == 1 {
        return construct_chunks(n_chunks, data, None);
    }
    let systematic: u16 = match systematic_recovery_threshold(n_chunks) {
        Ok(k) => k,
        Err(e) => {
            return Err(e);
        },
    };
    proof {
        lemma_coding_fits(n_chunks as int, data@.len() as int);
    }
    let original = make_original_shards_parallel(pool, systematic, data);
    proof {
        lemma_original_shards(n_chunks as int, data@, original@);
    }
    append_recovery((n_chunks - systematic) as usize, original)
}

/// A thread pool is needed to make the chunks: the data can be coded, and into more
/// than one chunk.
pub open spec fn needs_pool(n: int, data: Seq<u8>) -> bool {
    &&& data.len() > 0
    &&& is_chunk_count(n)
    &&& n > 1
}

/// Construct erasure-coded chunks on a thread pool with the specified number of
/// threads, the cached one if it has as many.
///
/// The chunks are the same as those of [`construct_chunks`], whatever the number
/// of threads is. Where a pool is needed and cannot be created,
/// [`Error::Unknown`] is returned.
pub fn construct_chunks_parallel(
    n_chunks: u16,
    data: &[u8],
    num_threads: Option<usize>,
    cache: &mut Option<ThreadPoolCache>,
    logical_cores: usize,
) -> (r: Result<Vec<Vec<u8>>, Error>)
    requires
        logical_cores > 0,
        is_consistent(*old(cache)),
        2 <= n_chunks <= MAX_CHUNKS ==> coding_fits(n_chunks as int, data@.len() as int),
    ensures
        is_consistent(*final(cache)),
        if needs_pool(n_chunks as int, data@) {
            exists|p: Result<Arc<rayon::ThreadPool>, Error>| #[trigger]
                is_given_pool(
                    *old(cache),
                    *final(cache),
                    threads_for(num_threads, logical_cores as int),
                    p,
                ) && chunks_outcome(r) == (match p {
                    Ok(_) => construct_outcome(n_chunks as int, data@),
                    Err(e) => Err(e),
                })
        } else {
            chunks_outcome(r) == construct_outcome(n_chunks as int, data@) && *final(cache)
                == *old(cache)
        },
        r matches Ok(chunks) ==> is_zero(data@) ==> are_zero(bytes_of(chunks@)),
        chunks_outcome(r) == construct_outcome(n_chunks as int, data@) || (is_refused(
            threads_for(num_threads, logical_cores as int),
        ) && kept_pool(*old(cache), threads_for(num_threads, logical_cores as int)) is None && r
            == Err::<Vec<Vec<u8>>, Error>(Error::Unknown) && *final(cache) == *old(cache)),
{
    if data.is_empty() || n_chunks == 1 {
        return construct_chunks(n_chunks, data, num_threads);
    }
    if let Err(e) = systematic_recovery_threshold(n_chunks) {
        return Err(e);
    }
    let given = get_thread_pool(cache, num_threads, logical_cores);
    assert(is_given_pool(
        *old(cache),
        *cache,
        threads_for(num_threads, logical_cores as int),
        given,
    ));
    proof {
        let threads = threads_for(num_threads, logical_cores as int);
        if given is Err {
            let built = choose|built: Result<rayon::ThreadPool, rayon::ThreadPoolBuildError>|
                #[trigger]
                is_built(threads, built) && (match built {
                    Ok(pool) => given is Ok && *given->Ok_0 == pool,
                    Err(_) => given is Err,
                });
            assert(built is Err && is_built(threads, Err(built->Err_0)));
        }
    }
    match given {
        Ok(pool) => construct_chunks_on_pool(&pool, n_chunks, data),
        Err(e) => Err(e),
    }
}

/// Chunks made on a pool are those made without one, and so are the errors.
pub proof fn lemma_pool_chunks(
    pool: &rayon::ThreadPool,
    n_chunks: u16,
    data: &[u8],
    num_threads: Option<usize>,
    on_pool: Result<Vec<Vec<u8>>, Error>,
    r: Result<Vec<Vec<u8>>, Error>,
)
    requires
        call_ensures(construct_chunks_on_pool, (pool, n_chunks, data), on_pool),
        call_ensures(construct_chunks, (n_chunks, data, num_threads), r),
    ensures
        on_pool is Ok <==> r is Ok,
        on_pool matches Err(e) ==> r == Err::<Vec<Vec<u8>>, Error>(e),
        on_pool matches Ok(chunks) ==> {
            &&& chunks@.len() == r->Ok_0@.len()
            &&& forall|i: int| 0 <= i < chunks@.len() ==> (#[trigger] chunks@[i])@ == r->Ok_0@[i]@
        },
{
    if on_pool is Ok {
        lemma_same_bytes(on_pool->Ok_0@, r->Ok_0@);
    }
}

/// Whatever the number of threads, the chunks and the errors are those of
/// [`construct_chunks`], unless no pool was kept for as many threads and `rayon`
/// could not build one. A pool that was needed is kept.
pub proof fn lemma_parallel_chunks(
    n_chunks: u16,
    data: &[u8],
    num_threads: Option<usize>,
    cache: &mut Option<ThreadPoolCache>,
    logical_cores: usize,
    threads: usize,
    parallel: Result<Vec<Vec<u8>>, Error>,
    r: Result<Vec<Vec<u8>>, Error>,
)
    requires
        call_ensures(
            construct_chunks_parallel,
            (n_chunks, data, num_threads, cache, logical_cores),
            parallel,
        ),
        call_ensures(requested_threads, (num_threads, logical_cores), threads),
        call_ensures(construct_chunks, (n_chunks, data, num_threads), r),
    ensures
        parallel matches Ok(chunks) ==> {
            &&& r is Ok
            &&& chunks@.len() == r->Ok_0@.len()
            &&& forall|i: int| 0 <= i < chunks@.len() ==> (#[trigger] chunks@[i])@ == r->Ok_0@[i]@
        },
        parallel matches Err(e) ==> r == Err::<Vec<Vec<u8>>, Error>(e) || {
            &&& e == Error::Unknown
            &&& exists|e: rayon::ThreadPoolBuildError| #[trigger] is_built(threads as int, Err(e))
            &&& *old(cache) matches Some(kept) ==> kept.num_threads != threads
            &&& *final(cache) == *old(cache)
        },
        data@.len() == 0 || n_chunks <= 1 || n_chunks > 16384 ==> *final(cache) == *old(cache),
        *old(cache) matches Some(kept) ==> kept.num_threads == threads ==> *final(cache) == *old(
            cache,
        ),
        parallel is Ok && n_chunks > 1 ==> {
            &&& *final(cache) is Some
            &&& (*final(cache))->Some_0.num_threads == threads
        },
        parallel is Ok && *final(cache) != *old(cache) ==> {
            &&& *final(cache) is Some
            &&& (*final(cache))->Some_0.num_threads == threads
            &&& threads <= 255 || (usize::BITS == 64 && threads <= 65535) ==> pool_threads(
                *(*final(cache))->Some_0.pool,
            ) == threads
        },
{
    if parallel is Ok {
        lemma_same_bytes(parallel->Ok_0@, r->Ok_0@);
    }
}

} // verus!
