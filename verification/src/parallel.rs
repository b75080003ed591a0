//! Work on the chunks of a slice, handed to the thread pool.

use rayon::iter::{IndexedParallelIterator, ParallelIterator};
use rayon::slice::ParallelSlice;
use vstd::prelude::*;

verus! {

/// Where the chunk with the number `i` ends.
pub open spec fn chunk_end(len: int, size: int, i: int) -> int {
    if (i + 1) * size < len {
        (i + 1) * size
    } else {
        len
    }
}

/// Whether `c` is the chunk with the number `i`: `size` items, or what is left
/// of them at the end.
pub open spec fn is_chunk<T>(items: Seq<T>, size: int, i: int, c: Seq<T>) -> bool {
    &&& 0 <= i
    &&& i * size < items.len()
    &&& c == items.subrange(i * size, chunk_end(items.len() as int, size, i))
}

/// How many chunks there are.
pub open spec fn chunk_count(len: int, size: int) -> int {
    (len + size - 1) / size
}

/// Whether `f` can give `r` for the chunk with the number `i`.
pub open spec fn made_from_chunk<T, R, F: Fn(usize, &[T]) -> R>(
    items: Seq<T>,
    size: int,
    f: F,
    i: int,
    r: R,
) -> bool {
    exists|c: &[T]|
        #[trigger] is_chunk(items, size, i, c@) && call_ensures(f, (i as usize, c), r)
}

/// `ParallelSlice::par_chunks`, numbered by `enumerate`, mapped by `map` and
/// gathered by `collect` into a vector: `f` is called once on each chunk with
/// its number, and the results stand in the order of the chunks.
/// `par_chunks` panics on a chunk size of zero.
#[verifier::external_body]
pub(crate) fn map_chunks<T: Sync, R: Send, F: Fn(usize, &[T]) -> R + Sync + Send>(
    items: &[T],
    size: usize,
    f: F,
) -> (r: Vec<R>)
    requires
        size > 0,
        forall|i: usize, c: &[T]|
            is_chunk(items@, size as int, i as int, c@) ==> call_requires(f, (i, c)),
    ensures
        r@.len() == chunk_count(items@.len() as int, size as int),
        forall|i: int|
            0 <= i < r@.len() ==> made_from_chunk(
                items@,
                size as int,
                f,
                i,
                #[trigger] r@[i],
            ),
{
    items.par_chunks(size).enumerate().map(|(i, c)| f(i, c)).collect()
}

} // verus!
