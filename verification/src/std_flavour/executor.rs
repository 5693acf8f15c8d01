//! The verified steps of the parallel map: fan-out plan, worker body, fan-in.
//!
//! A parallel map runs in three steps. [`split_for_workers`] cuts the input
//! into the chunks that the workers will own. Each worker calls
//! [`map_chunk`] on its chunk. [`collect_results`] takes what the workers
//! handed over, in chunk order, and either concatenates it or reports the
//! first worker that failed. Creating the workers and waiting for them is
//! left to the caller; whatever the order in which the workers finish, the
//! result is fixed by the order of the chunks alone.

use crate::std_flavour::chunker::{
    chunk_views, lemma_partition_concat, partition, slice_into_chunks,
};
use crate::std_flavour::error::ParallelError;
use vstd::prelude::*;

verus! {

/// The number of items up to which the input stays in one chunk.
pub const THRESHOLD_CHUNK_SIZE: usize = 10;

/// The largest number of workers, and so of chunks, for one call.
pub const MAX_THREAD_COUNT: usize = 10;

/// The chunks that the workers of one call own, in order.
pub open spec fn worker_chunks<T>(input: Seq<T>) -> Seq<Seq<T>> {
    partition(input, THRESHOLD_CHUNK_SIZE as nat, MAX_THREAD_COUNT as nat)
}

/// `output` is what `func` can return for the items of `input`, one by one
/// and in the same order.
pub open spec fn is_mapped<T, R, F: FnMut(T) -> R>(func: F, input: Seq<T>, output: Seq<R>) -> bool {
    &&& output.len() == input.len()
    &&& forall|i: int|
        0 <= i < input.len() ==> call_ensures(func, (input[i],), #[trigger] output[i])
}

/// `func` is deterministic and returns `f(x)` for every `x`.
pub open spec fn computes<T, R, F: FnMut(T) -> R>(func: F, f: spec_fn(T) -> R) -> bool {
    forall|x: T, y: R| #[trigger] call_ensures(func, (x,), y) ==> y == f(x)
}

/// What each worker handed over; nothing for a worker that failed.
pub open spec fn worker_outputs<R>(outcomes: Seq<Option<Vec<R>>>) -> Seq<Seq<R>> {
    outcomes.map_values(
        |outcome: Option<Vec<R>>|
            match outcome {
                Some(part) => part@,
                None => Seq::empty(),
            },
    )
}

/// Every worker handed over its results.
pub open spec fn all_delivered<R>(outcomes: Seq<Option<Vec<R>>>) -> bool {
    forall|k: int| 0 <= k < outcomes.len() ==> (#[trigger] outcomes[k]) is Some
}

/// The worker at position `k` failed and every worker before it delivered.
pub open spec fn is_first_failure<R>(outcomes: Seq<Option<Vec<R>>>, k: int) -> bool {
    &&& 0 <= k < outcomes.len()
    &&& outcomes[k] is None
    &&& forall|j: int| 0 <= j < k ==> (#[trigger] outcomes[j]) is Some
}

/// Cuts `data` into the chunks for the workers of one call, with the fixed
/// configuration [`THRESHOLD_CHUNK_SIZE`] and [`MAX_THREAD_COUNT`].
///
/// There are at most [`MAX_THREAD_COUNT`] chunks, none for empty `data`, and
/// concatenated in order they are `data`.
pub fn split_for_workers<T>(data: Vec<T>) -> (chunks: Vec<Vec<T>>)
    ensures
        chunk_views(chunks@) == worker_chunks(data@),
        chunk_views(chunks@).flatten() == data@,
        chunks@.len() <= MAX_THREAD_COUNT,
        data@.len() == 0 <==> chunks@.len() == 0,
{
    match slice_into_chunks(data, THRESHOLD_CHUNK_SIZE, MAX_THREAD_COUNT) {
        Ok(chunks) => chunks,
        // The fixed configuration is valid, so there is no error to pass on.
        Err(_) => Vec::new(),
    }
}

/// The work of one worker: applies `func` to each item of `chunk`, from the
/// first to the last, and returns the results in the same order.
pub fn map_chunk<T, R, F: FnMut(T) -> R>(chunk: Vec<T>, func: F) -> (output: Vec<R>)
    requires
        forall|i: int| 0 <= i < chunk@.len() ==> call_requires(func, (#[trigger] chunk@[i],)),
    ensures
        is_mapped(func, chunk@, output@),
{
    let mut worker = func;
    let ghost items = chunk@;
    let mut output: Vec<R> = Vec::with_capacity(chunk.len());
    for item in rest: chunk.into_iter()
        invariant
            rest.seq() == items,
            worker == func,
            forall|i: int| 0 <= i < items.len() ==> call_requires(func, (#[trigger] items[i],)),
            is_mapped(func, items.take(rest.index()), output@),
    {
        let mapped = worker(item);
        output.push(mapped);
    }
    assert(items.take(items.len() as int) =~= items);
    output
}

/// Joins what the workers handed over, all or nothing.
///
/// `outcomes` holds one entry per worker, in chunk order: the worker's
/// results, or `None` if the worker failed. If every worker delivered, the
/// result is the concatenation of their results in that order. Otherwise it
/// is a [`ParallelError::WorkerFailure`] that names the first position, in
/// chunk order, at which a worker failed; the results of the others are
/// dropped.
pub fn collect_results<R>(outcomes: Vec<Option<Vec<R>>>) -> (result: Result<Vec<R>, ParallelError>)
    ensures
        match result {
            Ok(output) => all_delivered(outcomes@) && output@ == worker_outputs(
                outcomes@,
            ).flatten(),
            Err(error) => error matches ParallelError::WorkerFailure { chunk }
                && is_first_failure(outcomes@, chunk as int),
        },
{
    let ghost all = outcomes@;
    let workers: usize = outcomes.len();
    let mut output: Vec<R> = Vec::new();
    let mut chunk: usize = 0;
    for outcome in rest: outcomes.into_iter()
        invariant
            rest.seq() == all,
            all.len() == workers,
            chunk == rest.index(),
            all_delivered(all.take(rest.index())),
            output@ == worker_outputs(all.take(rest.index())).flatten(),
    {
        match outcome {
            Some(mut part) => {
                proof {
                    let seen = all.take(rest.index());
                    assert(all.take(rest.index() + 1) =~= seen.push(outcome));
                    assert(worker_outputs(seen.push(outcome)) =~= worker_outputs(seen).push(
                        part@,
                    ));
                    worker_outputs(seen).lemma_flatten_push(part@);
                }
                output.append(&mut part);
            },
            None => {
                assert(is_first_failure(all, chunk as int)) by {
                    assert forall|j: int| 0 <= j < chunk implies (#[trigger] all[j]) is Some by {
                        assert(all.take(rest.index())[j] == all[j]);
                    }
                }
                return Err(ParallelError::WorkerFailure { chunk });
            },
        }
        chunk = chunk + 1;
    }
    assert(all.take(all.len() as int) =~= all);
    Ok(output)
}

/// What a deterministic function returns is fixed by its arguments: the
/// results of `func` for `input` are `f` applied item by item.
pub proof fn lemma_mapped_by_function<T, R, F: FnMut(T) -> R>(
    func: F,
    f: spec_fn(T) -> R,
    input: Seq<T>,
    output: Seq<R>,
)
    requires
        computes(func, f),
        is_mapped(func, input, output),
    ensures
        output == input.map_values(f),
{
    assert(output =~= input.map_values(f));
}

/// Mapping chunk by chunk and then concatenating gives what concatenating
/// and then mapping gives.
pub proof fn lemma_map_distributes_over_concat<T, R>(chunks: Seq<Seq<T>>, f: spec_fn(T) -> R)
    ensures
        chunks.map_values(|chunk: Seq<T>| chunk.map_values(f)).flatten() == chunks.flatten().map_values(
            f,
        ),
    decreases chunks.len(),
{
    let per_chunk = |chunk: Seq<T>| chunk.map_values(f);
    if chunks.len() == 0 {
        assert(chunks.map_values(per_chunk).flatten() =~= chunks.flatten().map_values(f));
    } else {
        let front = chunks.drop_last();
        let back = chunks.last();
        lemma_map_distributes_over_concat(front, f);
        assert(chunks =~= front.push(back));
        assert(chunks.map_values(per_chunk) =~= front.map_values(per_chunk).push(
            back.map_values(f),
        ));
        front.lemma_flatten_push(back);
        front.map_values(per_chunk).lemma_flatten_push(back.map_values(f));
        assert((front.flatten() + back).map_values(f) =~= front.flatten().map_values(f)
            + back.map_values(f));
    }
}

/// Order preservation: a parallel map with a deterministic function gives
/// what applying the function to every item in the order of the input gives.
///
/// `outputs` holds what the workers returned, in chunk order; worker `k`
/// ran `workers[k]`, its own copy of the mapping function, over chunk `k` of
/// `input`. If every copy computes `f`, the concatenation of `outputs`, which
/// is what [`collect_results`] returns for them, is `f` applied to `input`
/// item by item, whichever worker finished first.
pub proof fn lemma_order_preservation<T, R, F: FnMut(T) -> R>(
    f: spec_fn(T) -> R,
    workers: Seq<F>,
    input: Seq<T>,
    outputs: Seq<Seq<R>>,
)
    requires
        workers.len() == worker_chunks(input).len(),
        outputs.len() == worker_chunks(input).len(),
        forall|k: int| 0 <= k < workers.len() ==> computes(#[trigger] workers[k], f),
        forall|k: int|
            0 <= k < workers.len() ==> is_mapped(
                workers[k],
                worker_chunks(input)[k],
                #[trigger] outputs[k],
            ),
    ensures
        outputs.flatten() == input.map_values(f),
{
    let chunks = worker_chunks(input);
    assert forall|k: int| 0 <= k < chunks.len() implies #[trigger] outputs[k]
        == chunks[k].map_values(f) by {
        lemma_mapped_by_function(workers[k], f, chunks[k], outputs[k]);
    }
    assert(outputs =~= chunks.map_values(|chunk: Seq<T>| chunk.map_values(f)));
    lemma_map_distributes_over_concat(chunks, f);
    lemma_partition_concat(input, THRESHOLD_CHUNK_SIZE as nat, MAX_THREAD_COUNT as nat);
}

} // verus!
