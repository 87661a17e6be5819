//! What holds of every call that puts data together from the chunks that hold it.

use vstd::prelude::*;
use vstd::std_specs::iter::IteratorSpec;

use crate::chunks::{coded_chunks, construct_chunks, threshold};
use crate::codec::bytes_of;
use crate::error::Error;
use crate::reconstruct::{outcome, resized};
use crate::reconstruct_laws::lemma_concat_is_flatten;
use crate::round_trip::lemma_coded_chunks;
use crate::systematic::{
    at_most_chunks, lemma_first_other, lemma_systematic_round_trip, reconstruct_from_systematic,
    slice_bytes, systematic_taken,
};

verus! {

/// The first third of the chunks, rounded up, gives back the data, cut off or followed by
/// zeroes up to the length asked for. No further chunk is looked at.
pub proof fn lemma_first_chunks_give_back_data<'a, I: Iterator<Item = &'a [u8]>>(
    n_chunks: u16,
    data: &[u8],
    num_threads: Option<usize>,
    chunks: Vec<Vec<u8>>,
    systematic_len: usize,
    given: &mut I,
    data_len: usize,
    r: Result<Vec<u8>, Error>,
    k: int,
)
    requires
        call_ensures(construct_chunks, (n_chunks, data, num_threads), Ok(chunks)),
        call_ensures(
            reconstruct_from_systematic::<I>,
            (n_chunks, systematic_len, given, data_len),
            r,
        ),
        n_chunks <= 3 * k < n_chunks + 3,
        systematic_len >= k,
        (*old(given)).remaining().len() >= k,
        forall|i: int|
            0 <= i < k ==> (#[trigger] (*old(given)).remaining()[i])@ == chunks@[i]@,
    ensures
        r is Ok,
        data_len == data@.len() ==> r->Ok_0@ == data@,
        r->Ok_0@.len() == data_len,
        forall|b: int|
            0 <= b < data_len ==> #[trigger] r->Ok_0@[b] == (if b < data@.len() {
                data@[b]
            } else {
                0
            }),
        (*final(given)).remaining() == (*old(given)).remaining().skip(k),
{
    let n = n_chunks as int;
    let items = (*old(given)).remaining();
    let all = slice_bytes(items);
    let coded = coded_chunks(n, data@);
    assert(k == threshold(n));
    if n > 1 {
        lemma_coded_chunks(n, data@);
    }
    assert(bytes_of(chunks@) == coded);
    assert forall|i: int| 0 <= i < k implies all[i] == coded[i] by {
        assert(items[i]@ == chunks@[i]@);
        assert(bytes_of(chunks@)[i] == chunks@[i]@);
    }
    assert(all.take(k) =~= coded.take(k));
    lemma_systematic_round_trip(n, systematic_len as int, all, data@, data_len as int);
    assert(outcome(r) == Ok::<Seq<u8>, Error>(resized(data@, data_len as int)));
    assert(systematic_taken(n, systematic_len as int, all) == k);
}

/// A number of chunks that is not one of 1 to 16384 is refused, and so are too few chunks
/// by the number that is given. No chunk is looked at.
pub proof fn lemma_systematic_counts<'a, I: Iterator<Item = &'a [u8]>>(
    n_chunks: u16,
    systematic_len: usize,
    given: &mut I,
    data_len: usize,
    r: Result<Vec<u8>, Error>,
)
    requires
        call_ensures(
            reconstruct_from_systematic::<I>,
            (n_chunks, systematic_len, given, data_len),
            r,
        ),
    ensures
        n_chunks == 0 ==> r == Err::<Vec<u8>, Error>(Error::NotEnoughTotalChunks),
        n_chunks > 16384 ==> r == Err::<Vec<u8>, Error>(Error::TooManyTotalChunks),
        1 <= n_chunks <= 16384 && 3 * systematic_len < n_chunks ==> r == Err::<Vec<u8>, Error>(
            Error::NotEnoughChunks,
        ),
        n_chunks == 0 || n_chunks > 16384 || 3 * systematic_len < n_chunks ==> (
        *final(given)).remaining() == (*old(given)).remaining(),
{
    assert((*old(given)).remaining().skip(0) =~= (*old(given)).remaining());
}

/// What comes of the first `k` chunks, `k` being a third of all, or of fewer if there are
/// no more. The first of them that is not empty, number `first`, must have a length that
/// is a multiple of 64, unless it is the last of the `k`. All after it must have its
/// length; `odd` is the number of the first that has not. There must be `k` of them. Then
/// they are joined, and cut off or followed by zeroes up to the length asked for.
pub proof fn lemma_systematic_chunks<'a, I: Iterator<Item = &'a [u8]>>(
    n_chunks: u16,
    systematic_len: usize,
    given: &mut I,
    data_len: usize,
    r: Result<Vec<u8>, Error>,
    k: int,
    used: int,
    first: int,
    odd: int,
)
    requires
        call_ensures(
            reconstruct_from_systematic::<I>,
            (n_chunks, systematic_len, given, data_len),
            r,
        ),
        1 <= n_chunks <= 16384,
        n_chunks <= 3 * k < n_chunks + 3,
        systematic_len >= k,
        used == if (*old(given)).remaining().len() < k {
            (*old(given)).remaining().len() as int
        } else {
            k
        },
        0 <= first <= odd <= used,
        forall|t: int|
            0 <= t < first ==> (#[trigger] (*old(given)).remaining()[t])@.len() == 0,
        first < used ==> (*old(given)).remaining()[first]@.len() > 0,
        forall|t: int|
            first <= t < odd ==> (#[trigger] (*old(given)).remaining()[t])@.len() == (*old(
                given,
            )).remaining()[first]@.len(),
        odd < used ==> (*old(given)).remaining()[odd]@.len() != (*old(
            given,
        )).remaining()[first]@.len(),
    ensures
        ({
            let items = (*old(given)).remaining();
            let rest = (*final(given)).remaining();
            let unaligned = first < used && first + 1 != k && items[first]@.len() % 64 != 0;
            let joined = Seq::new(k as nat, |i: int| items[i]@).flatten();
            &&& unaligned ==> r == Err::<Vec<u8>, Error>(Error::UnalignedChunk) && rest
                == items.skip(first + 1)
            &&& !unaligned && odd < used ==> r == Err::<Vec<u8>, Error>(Error::NonUniformChunks)
                && rest == items.skip(odd + 1)
            &&& !unaligned && odd == used && used < k ==> r == Err::<Vec<u8>, Error>(
                Error::NotEnoughChunks,
            ) && rest == items.skip(used)
            &&& !unaligned && odd == k ==> {
                &&& r is Ok
                &&& r->Ok_0@.len() == data_len
                &&& forall|b: int|
                    0 <= b < data_len ==> #[trigger] r->Ok_0@[b] == (if b < joined.len() {
                        joined[b]
                    } else {
                        0
                    })
                &&& rest == items.skip(k)
            }
        }),
{
    let n = n_chunks as int;
    let items = (*old(given)).remaining();
    let all = slice_bytes(items);
    assert(k == threshold(n));
    let chunks = at_most_chunks(all, k);
    assert(chunks.len() == used);
    assert forall|t: int| 0 <= t < used implies #[trigger] chunks[t] == items[t]@ by {}
    assert forall|t: int| 0 <= t < first implies (#[trigger] chunks[t]).len() == 0 by {
        assert(items[t]@.len() == 0);
    }
    lemma_first_other(chunks, 0, 0, first);
    if first < used {
        let len = chunks[first].len() as int;
        assert forall|t: int| first <= t < odd implies (#[trigger] chunks[t]).len() == len by {
            assert(items[t]@.len() == len);
        }
        lemma_first_other(chunks, first, len, odd);
    }
    if odd == k {
        let ordered = Seq::new(k as nat, |i: int| items[i]@);
        assert(ordered =~= chunks);
        lemma_concat_is_flatten(chunks);
    }
}

} // verus!
