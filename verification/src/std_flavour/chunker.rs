//! Splitting a sequence into a bounded number of balanced, contiguous chunks.
//!
//! The model is stated on `Seq`: [`partition`] says which chunks a sequence
//! falls into for a given threshold and maximum chunk count, and the lemmas
//! below it say what follows for every input. [`slice_into_chunks`] is the
//! executable function, proved to return exactly the model's chunks.

use crate::std_flavour::arith::{
    ceil_div, div_ceil, lemma_ceil_div_covers, lemma_ceil_div_split, lemma_ceil_div_unique,
};
use crate::std_flavour::error::ParallelError;
use vstd::prelude::*;
use vstd::std_specs::iter::IteratorSpec;

verus! {

/// How many chunks the policy aims for: one chunk while the sequence holds
/// fewer than `threshold` items, then one per `threshold` items, but never
/// more than `max_chunk_count`.
pub open spec fn chunk_count(len: nat, threshold: nat, max_chunk_count: nat) -> nat
    recommends
        threshold > 0,
        max_chunk_count > 0,
{
    let raw = len / threshold;
    if raw == 0 {
        1
    } else if raw > max_chunk_count {
        max_chunk_count
    } else {
        raw
    }
}

/// The number of items in every chunk but, possibly, the last.
pub open spec fn chunk_size(len: nat, threshold: nat, max_chunk_count: nat) -> nat
    recommends
        threshold > 0,
        max_chunk_count > 0,
{
    ceil_div(len, chunk_count(len, threshold, max_chunk_count))
}

/// The `k`-th run of `size` consecutive items of `s`, cut off at the end of `s`.
pub open spec fn chunk_at<T>(s: Seq<T>, size: nat, k: int) -> Seq<T>
    recommends
        0 <= k,
{
    let start = k * size;
    let end = if start + size < s.len() {
        start + size
    } else {
        s.len() as int
    };
    s.subrange(start, end)
}

/// `s` cut from left to right into runs of `size` items; the last run holds
/// what is left. An empty sequence has no chunks.
pub open spec fn chunks_of<T>(s: Seq<T>, size: nat) -> Seq<Seq<T>>
    recommends
        s.len() > 0 ==> size > 0,
{
    if s.len() == 0 {
        Seq::empty()
    } else {
        Seq::new(ceil_div(s.len(), size), |k: int| chunk_at(s, size, k))
    }
}

/// The chunks of `s` under a minimum chunk size `threshold` and an upper
/// bound `max_chunk_count` on their number.
pub open spec fn partition<T>(s: Seq<T>, threshold: nat, max_chunk_count: nat) -> Seq<Seq<T>>
    recommends
        threshold > 0,
        max_chunk_count > 0,
{
    chunks_of(s, chunk_size(s.len(), threshold, max_chunk_count))
}

/// The contents of a vector of chunks, chunk by chunk.
pub open spec fn chunk_views<T>(chunks: Seq<Vec<T>>) -> Seq<Seq<T>> {
    chunks.map_values(|c: Vec<T>| c@)
}

/// The aimed-for chunk count is at least one and at most the maximum, and
/// chunks of `chunk_size` items are non-empty for a non-empty sequence.
pub proof fn lemma_chunk_count_bounds(len: nat, threshold: nat, max_chunk_count: nat)
    requires
        threshold > 0,
        max_chunk_count > 0,
    ensures
        1 <= chunk_count(len, threshold, max_chunk_count) <= max_chunk_count,
        chunk_count(len, threshold, max_chunk_count) <= len || len / threshold == 0,
        len > 0 ==> 1 <= chunk_size(len, threshold, max_chunk_count) <= len,
        len == 0 ==> chunk_size(len, threshold, max_chunk_count) == 0,
{
    let count = chunk_count(len, threshold, max_chunk_count);
    assert(len / threshold <= len) by (nonlinear_arith)
        requires
            threshold > 0,
    ;
    lemma_ceil_div_split(len, count);
}

/// Where the `k`-th of the `ceil_div(len, size)` runs of `size` items begins
/// and ends within `len` items.
proof fn lemma_run_bounds(len: nat, size: nat, k: int)
    requires
        size > 0,
        len > 0,
        0 <= k < ceil_div(len, size),
    ensures
        0 <= k * size < len,
        k < ceil_div(len, size) - 1 ==> k * size + size < len,
        k == ceil_div(len, size) - 1 ==> k * size + size >= len,
{
    let c = ceil_div(len, size);
    lemma_ceil_div_covers(len, size);
    assert(0 <= k * size <= (c - 1) * size) by (nonlinear_arith)
        requires
            0 <= k <= c - 1,
            size > 0,
    ;
    if k < c - 1 {
        assert(k * size + size <= (c - 1) * size) by (nonlinear_arith)
            requires
                0 <= k < c - 1,
                size > 0,
        ;
    } else {
        assert(k * size + size == c * size) by (nonlinear_arith)
            requires
                k == c - 1,
        ;
    }
}

/// Where the chunks of `s` begin and end: all but the last hold `size`
/// items, the last holds between one and `size`, and there are
/// `ceil_div(s.len(), size)` of them.
pub proof fn lemma_chunks_of_shape<T>(s: Seq<T>, size: nat)
    requires
        size > 0,
    ensures
        s.len() == 0 ==> chunks_of(s, size).len() == 0,
        s.len() > 0 ==> chunks_of(s, size).len() == ceil_div(s.len(), size) >= 1,
        forall|k: int|
            0 <= k < chunks_of(s, size).len() - 1 ==> (#[trigger] chunks_of(s, size)[k]).len()
                == size,
        s.len() > 0 ==> 1 <= chunks_of(s, size).last().len() <= size,
        s.len() > 0 ==> chunks_of(s, size).last().len() == s.len() - (chunks_of(s, size).len() - 1)
            * size,
        forall|k: int|
            0 <= k < chunks_of(s, size).len() ==> #[trigger] chunks_of(s, size)[k] == s.subrange(
                k * size,
                k * size + chunks_of(s, size)[k].len(),
            ),
{
    let n = s.len();
    let chunks = chunks_of(s, size);
    if n > 0 {
        let c = ceil_div(n, size);
        lemma_ceil_div_split(n, size);
        assert forall|k: int| 0 <= k < chunks.len() - 1 implies (#[trigger] chunks[k]).len()
            == size by {
            lemma_run_bounds(n, size, k);
        }
        assert(1 <= chunks.last().len() <= size && chunks.last().len() == n - (c - 1) * size) by {
            lemma_run_bounds(n, size, c - 1);
        }
        assert forall|k: int| 0 <= k < chunks.len() implies #[trigger] chunks[k] == s.subrange(
            k * size,
            k * size + chunks[k].len(),
        ) by {
            lemma_run_bounds(n, size, k);
        }
    }
}

/// The first `k` chunks of `s`, concatenated, are the items of `s` that
/// come before the `k`-th chunk.
proof fn lemma_chunks_prefix_concat<T>(s: Seq<T>, size: nat, k: int)
    requires
        size > 0,
        0 <= k <= chunks_of(s, size).len(),
    ensures
        k * size < s.len() ==> chunks_of(s, size).take(k).flatten() == s.take(k * size),
        k * size >= s.len() ==> chunks_of(s, size).take(k).flatten() == s,
    decreases k,
{
    let n = s.len();
    let chunks = chunks_of(s, size);
    if k == 0 {
        assert(chunks.take(0) =~= Seq::<Seq<T>>::empty());
        assert(s.take(0) =~= Seq::<T>::empty());
        assert(n == 0 ==> s =~= Seq::<T>::empty());
    } else {
        let start = (k - 1) * size;
        lemma_chunks_prefix_concat(s, size, k - 1);
        lemma_run_bounds(n, size, k - 1);
        assert(k * size == start + size) by (nonlinear_arith)
            requires
                start == (k - 1) * size,
        ;
        assert(chunks.take(k) =~= chunks.take(k - 1).push(chunks[k - 1]));
        chunks.take(k - 1).lemma_flatten_push(chunks[k - 1]);
        if start + size < n {
            assert(s.take(start) + s.subrange(start, start + size) =~= s.take(start + size));
        } else {
            assert(s.take(start) + s.subrange(start, n as int) =~= s);
        }
    }
}

/// Cutting a sequence into runs loses nothing: the chunks, concatenated in
/// order, are the sequence.
pub proof fn lemma_chunks_of_concat<T>(s: Seq<T>, size: nat)
    requires
        size > 0,
    ensures
        chunks_of(s, size).flatten() == s,
{
    let chunks = chunks_of(s, size);
    lemma_chunks_prefix_concat(s, size, chunks.len() as int);
    assert(chunks.take(chunks.len() as int) =~= chunks);
    if s.len() > 0 {
        lemma_ceil_div_covers(s.len(), size);
    }
}

/// Partition law: the chunks of a sequence, concatenated in order, are the
/// sequence itself, item for item.
pub proof fn lemma_partition_concat<T>(s: Seq<T>, threshold: nat, max_chunk_count: nat)
    requires
        threshold > 0,
        max_chunk_count > 0,
    ensures
        partition(s, threshold, max_chunk_count).flatten() == s,
{
    lemma_chunk_count_bounds(s.len(), threshold, max_chunk_count);
    if s.len() > 0 {
        lemma_chunks_of_concat(s, chunk_size(s.len(), threshold, max_chunk_count));
    } else {
        assert(s =~= Seq::<T>::empty());
    }
}

/// Chunk-count bound: an empty sequence has no chunks; a non-empty one has
/// at least one chunk, no more than the policy aims for, and so no more than
/// `max_chunk_count`.
pub proof fn lemma_partition_count<T>(s: Seq<T>, threshold: nat, max_chunk_count: nat)
    requires
        threshold > 0,
        max_chunk_count > 0,
    ensures
        s.len() == 0 ==> partition(s, threshold, max_chunk_count).len() == 0,
        s.len() > 0 ==> 1 <= partition(s, threshold, max_chunk_count).len() <= chunk_count(
            s.len(),
            threshold,
            max_chunk_count,
        ) <= max_chunk_count,
{
    let n = s.len();
    let count = chunk_count(n, threshold, max_chunk_count);
    let size = chunk_size(n, threshold, max_chunk_count);
    lemma_chunk_count_bounds(n, threshold, max_chunk_count);
    if n > 0 {
        let emitted = ceil_div(n, size);
        lemma_chunks_of_shape(s, size);
        lemma_ceil_div_covers(n, count);
        lemma_ceil_div_covers(n, size);
        if emitted > count {
            assert(count * size <= (emitted - 1) * size) by (nonlinear_arith)
                requires
                    count <= emitted - 1,
                    size > 0,
            ;
            assert(count * size == size * count) by (nonlinear_arith);
        }
    }
}

/// Single-chunk rule: a non-empty sequence shorter than the threshold is
/// its own single chunk, whatever the maximum chunk count.
pub proof fn lemma_partition_single<T>(s: Seq<T>, threshold: nat, max_chunk_count: nat)
    requires
        threshold > 0,
        max_chunk_count > 0,
        s.len() > 0,
        s.len() / threshold == 0,
    ensures
        partition(s, threshold, max_chunk_count) == seq![s],
{
    let n = s.len();
    lemma_ceil_div_unique(n, 1, n);
    assert(1 * n == n && 0 * n == 0) by (nonlinear_arith);
    lemma_ceil_div_unique(n, n, 1);
    assert(chunk_at(s, n, 0) =~= s);
    assert(partition(s, threshold, max_chunk_count) =~= seq![s]);
}

/// Saturation rule: where the sequence holds more than `max_chunk_count`
/// thresholds, chunks hold `ceil_div(s.len(), max_chunk_count)` items, all
/// but the last exactly and the last at least one, and their number is
/// `max_chunk_count` exactly when that many chunks are needed to hold the
/// sequence.
pub proof fn lemma_partition_saturated_shape<T>(s: Seq<T>, threshold: nat, max_chunk_count: nat)
    requires
        threshold > 0,
        max_chunk_count > 0,
        s.len() / threshold > max_chunk_count,
    ensures
        chunk_size(s.len(), threshold, max_chunk_count) == ceil_div(s.len(), max_chunk_count),
        1 <= partition(s, threshold, max_chunk_count).len() <= max_chunk_count,
        partition(s, threshold, max_chunk_count).len() == max_chunk_count <==> (max_chunk_count
            - 1) * ceil_div(s.len(), max_chunk_count) < s.len(),
        forall|k: int|
            0 <= k < partition(s, threshold, max_chunk_count).len() - 1 ==> (
            #[trigger] partition(s, threshold, max_chunk_count)[k]).len() == ceil_div(
                s.len(),
                max_chunk_count,
            ),
        1 <= partition(s, threshold, max_chunk_count).last().len() <= ceil_div(
            s.len(),
            max_chunk_count,
        ),
{
    let n = s.len();
    let size = ceil_div(n, max_chunk_count);
    let emitted = ceil_div(n, size);
    assert(n > 0) by (nonlinear_arith)
        requires
            n / threshold > 0,
            threshold > 0,
    ;
    lemma_chunk_count_bounds(n, threshold, max_chunk_count);
    lemma_partition_count(s, threshold, max_chunk_count);
    lemma_chunks_of_shape(s, size);
    lemma_ceil_div_covers(n, size);
    lemma_ceil_div_covers(n, max_chunk_count);
    assert(size * max_chunk_count == max_chunk_count * size) by (nonlinear_arith);
    if (max_chunk_count - 1) * size < n {
        lemma_ceil_div_unique(n, size, max_chunk_count);
    }
}

/// Saturation rule, for the sequences that need every chunk: where the
/// sequence holds more than `max_chunk_count` thresholds and
/// `max_chunk_count - 1` chunks cannot hold it, there are exactly
/// `max_chunk_count` chunks, each of `ceil_div(s.len(), max_chunk_count)`
/// items except the last, which may hold fewer.
pub proof fn lemma_partition_saturated<T>(s: Seq<T>, threshold: nat, max_chunk_count: nat)
    requires
        threshold > 0,
        max_chunk_count > 0,
        s.len() / threshold > max_chunk_count,
        (max_chunk_count - 1) * ceil_div(s.len(), max_chunk_count) < s.len(),
    ensures
        partition(s, threshold, max_chunk_count).len() == max_chunk_count,
        forall|k: int|
            0 <= k < max_chunk_count - 1 ==> (#[trigger] partition(
                s,
                threshold,
                max_chunk_count,
            )[k]).len() == ceil_div(s.len(), max_chunk_count),
        1 <= partition(s, threshold, max_chunk_count)[max_chunk_count - 1].len() <= ceil_div(
            s.len(),
            max_chunk_count,
        ),
{
    lemma_partition_saturated_shape(s, threshold, max_chunk_count);
}

/// Splits `data` into chunks, consuming it.
///
/// The fewer the items, the fewer the chunks: up to `chunk_threshold` items
/// stay in one chunk, more are spread over one chunk per threshold, and once
/// that would take more than `max_chunk_count` chunks the chunks grow
/// instead. Chunks are contiguous and in the order of `data`; all hold the
/// same number of items but the last, which may hold fewer. Empty `data`
/// gives no chunks.
///
/// Fails with [`ParallelError::ConfigurationError`], before it looks at
/// `data`, exactly when `chunk_threshold` or `max_chunk_count` is zero.
pub fn slice_into_chunks<T>(data: Vec<T>, chunk_threshold: usize, max_chunk_count: usize) -> (result:
    Result<Vec<Vec<T>>, ParallelError>)
    ensures
        result is Err <==> chunk_threshold == 0 || max_chunk_count == 0,
        result matches Err(e) ==> e == ParallelError::ConfigurationError,
        result matches Ok(chunks) ==> {
            &&& chunk_views(chunks@) == partition(
                data@,
                chunk_threshold as nat,
                max_chunk_count as nat,
            )
            &&& chunk_views(chunks@).flatten() == data@
            &&& data@.len() == 0 ==> chunks@.len() == 0
            &&& data@.len() > 0 ==> 1 <= chunks@.len() <= max_chunk_count
            &&& forall|k: int|
                0 <= k < chunks@.len() - 1 ==> (#[trigger] chunks@[k])@.len() == chunk_size(
                    data@.len(),
                    chunk_threshold as nat,
                    max_chunk_count as nat,
                )
            &&& chunks@.len() > 0 ==> 1 <= chunks@.last()@.len() <= chunk_size(
                data@.len(),
                chunk_threshold as nat,
                max_chunk_count as nat,
            )
            &&& data@.len() > 0 && data@.len() / (chunk_threshold as nat) == 0 ==> chunk_views(
                chunks@,
            ) == seq![data@]
            &&& data@.len() / (chunk_threshold as nat) > max_chunk_count ==> {
                &&& chunk_size(data@.len(), chunk_threshold as nat, max_chunk_count as nat)
                    == ceil_div(data@.len(), max_chunk_count as nat)
                &&& chunks@.len() == max_chunk_count <==> (max_chunk_count - 1) * ceil_div(
                    data@.len(),
                    max_chunk_count as nat,
                ) < data@.len()
            }
        },
{
    if chunk_threshold == 0 || max_chunk_count == 0 {
        return Err(ParallelError::ConfigurationError);
    }
    let len: usize = data.len();
    let raw: usize = len / chunk_threshold;
    let count: usize = if raw == 0 {
        1
    } else if raw > max_chunk_count {
        max_chunk_count
    } else {
        raw
    };
    let size: usize = div_ceil(len, count);
    let ghost items = data@;
    proof {
        lemma_chunk_count_bounds(len as nat, chunk_threshold as nat, max_chunk_count as nat);
        lemma_partition_count(items, chunk_threshold as nat, max_chunk_count as nat);
        lemma_partition_concat(items, chunk_threshold as nat, max_chunk_count as nat);
        if len > 0 && raw == 0 {
            lemma_partition_single(items, chunk_threshold as nat, max_chunk_count as nat);
        }
        if raw > max_chunk_count {
            lemma_partition_saturated_shape(items, chunk_threshold as nat, max_chunk_count as nat);
        }
    }
    let mut result: Vec<Vec<T>> = Vec::new();
    let mut chunk: Vec<T> = Vec::with_capacity(size);
    for item in rest: data.into_iter()
        invariant
            rest.seq() == items,
            len == items.len(),
            len > 0 ==> size > 0,
            chunk@.len() <= size,
            rest.index() > 0 ==> chunk@.len() >= 1,
            rest.index() == result@.len() * size + chunk@.len(),
            result@.len() <= rest.index(),
            chunk@ == items.subrange(result@.len() * size, rest.index()),
            forall|k: int|
                0 <= k < result@.len() ==> (#[trigger] result@[k])@ == chunk_at(
                    items,
                    size as nat,
                    k,
                ),
    {
        if chunk.len() == size {
            proof {
                assert(chunk@ =~= chunk_at(items, size as nat, result@.len() as int));
                assert((result@.len() + 1) * size == result@.len() * size + size)
                    by (nonlinear_arith);
                assert(result@.len() <= result@.len() * size) by (nonlinear_arith)
                    requires
                        size >= 1,
                ;
            }
            result.push(chunk);
            chunk = Vec::with_capacity(size);
        }
        chunk.push(item);
        assert(chunk@ =~= items.subrange(result@.len() * size, rest.index() + 1));
    }
    if chunk.len() > 0 {
        proof {
            let filled = result@.len();
            assert(chunk@ =~= chunk_at(items, size as nat, filled as int));
            assert((filled + 1) * size == filled * size + size) by (nonlinear_arith);
            assert((filled + 1 - 1) * size == filled * size) by (nonlinear_arith);
            lemma_ceil_div_unique(len as nat, size as nat, filled + 1);
        }
        result.push(chunk);
    }
    proof {
        assert(chunk_views(result@) =~= chunks_of(items, size as nat));
        if len > 0 {
            lemma_chunks_of_shape(items, size as nat);
            assert forall|k: int| 0 <= k < result@.len() - 1 implies (#[trigger] result@[k])@.len()
                == size by {
                assert(chunk_views(result@)[k] == result@[k]@);
            }
            assert(chunk_views(result@).last() == result@.last()@);
        }
    }
    Ok(result)
}

} // verus!
