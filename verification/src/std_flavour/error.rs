//! The ways in which chunking and parallel mapping can fail.

use vstd::prelude::*;

verus! {

/// Why a call did not produce its result.
///
/// A bad call and a failing mapping function are told apart: the first is
/// a `ConfigurationError`, the second a `WorkerFailure`.
#[derive(Debug, Clone, Copy, PartialEq, Eq, Structural)]
pub enum ParallelError {
    /// The chunk threshold or the maximum chunk count was zero.
    ConfigurationError,
    /// The worker that owned the chunk at position `chunk` (counted from
    /// zero, in chunk order) ended without handing over its results.
    WorkerFailure { chunk: usize },
}

} // verus!
