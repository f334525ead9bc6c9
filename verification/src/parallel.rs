//! Work handed to the thread pool.

use plonky2_maybe_rayon::{MaybeParChunks, ParallelIterator};
use vstd::prelude::*;

verus! {

/// Calls `plonky2_maybe_rayon::join`, which runs both operations, possibly at the same time,
/// and returns what each of them returned.
#[verifier::external_body]
pub(crate) fn join<A, B, RA, RB>(oper_a: A, oper_b: B) -> (r: (RA, RB)) where
    A: FnOnce() -> RA + Send,
    B: FnOnce() -> RB + Send,
    RA: Send,
    RB: Send,

    requires
        oper_a.requires(()),
        oper_b.requires(()),
    ensures
        oper_a.ensures((), r.0),
        oper_b.ensures((), r.1),
{
    plonky2_maybe_rayon::join(oper_a, oper_b)
}

/// The `index`-th of the consecutive runs of `chunk_size` items.
pub open spec fn chunk_at<T>(items: Seq<T>, chunk_size: int, index: int) -> Seq<T> {
    items.subrange(index * chunk_size, (index + 1) * chunk_size)
}

/// Calls `MaybeParChunks::par_chunks_exact` of `plonky2_maybe_rayon`, maps `op` over the chunks
/// and collects the results: as many as there are whole chunks of `chunk_size` items, in the
/// order of the chunks, each one returned by `op` on its chunk.
#[verifier::external_body]
pub(crate) fn map_chunks_exact<T, R, G>(items: &[T], chunk_size: usize, op: G) -> (r: Vec<R>) where
    T: Sync,
    R: Send,
    G: Fn(&[T]) -> R + Send + Sync,

    requires
        chunk_size > 0,
        forall|chunk: &[T], i: int|
            0 <= i < items@.len() as int / chunk_size as int && chunk@ == #[trigger] chunk_at(
                items@,
                chunk_size as int,
                i,
            ) ==> #[trigger] op.requires((chunk,)),
    ensures
        r@.len() == items@.len() as int / chunk_size as int,
        forall|i: int|
            0 <= i < r@.len() ==> exists|chunk: &[T]|
                chunk@ == chunk_at(items@, chunk_size as int, i) && #[trigger] op.ensures(
                    (chunk,),
                    #[trigger] r@[i],
                ),
{
    items.par_chunks_exact(chunk_size).map(op).collect()
}

} // verus!
