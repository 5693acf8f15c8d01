//! Order-preserving parallel map over owned vectors.
//!
//! The crate splits a vector into a bounded number of balanced chunks,
//! maps every chunk on a worker thread of its own and concatenates the
//! per-chunk results in chunk order.

pub mod std_flavour;
