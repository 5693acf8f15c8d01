//! Thread-per-chunk flavour built on the standard library's threads.
//!
//! The chunking policy lives in [`chunker`], the steps of the parallel map
//! that run before, inside and after the worker threads in [`executor`].

pub mod arith;
pub mod chunker;
pub mod error;
pub mod executor;

pub use self::arith::div_ceil;
pub use self::chunker::slice_into_chunks;
pub use self::error::ParallelError;
pub use self::executor::{
    collect_results, map_chunk, split_for_workers, MAX_THREAD_COUNT, THRESHOLD_CHUNK_SIZE,
};
