//! Read path of a transactional key-value storage adapter.
//!
//! The adapter sits between a logical data model (values, bitmap indexes,
//! counters) and a flat, sort-ordered byte-string key space. It encodes
//! logical keys into order-preserving byte strings, reassembles values that
//! were split into chunks because the backend caps single-value size,
//! aggregates per-document presence keys into compressed bitmaps, and offers
//! ordered range iteration with early termination.
//!
//! All reads go through a point-in-time [`store::Snapshot`], so a multi
//! round-trip operation (chunk reassembly, bitmap aggregation) observes one
//! consistent state.
use vstd::prelude::*;

pub mod codec;
pub mod order;
pub mod store;
pub mod chunks;
pub mod bitmap;
pub mod counter;
pub mod iterate;
pub mod protocol;

verus! {

/// Error taxonomy of the read path.
///
/// Absence of data is never an error: it is reported as `None` or zero by the
/// individual operations.
#[derive(Clone, Copy, Debug, PartialEq, Eq, Structural)]
pub enum ReadError {
    /// A failure reported by the backend client (connectivity, conflict).
    Backend,
    /// A fixed-width decode met a payload of the wrong length.
    Deserialization,
    /// A caller-supplied row handler reported an error during iteration.
    Callback,
}

} // verus!
