//! A capacity-bounded cache that coalesces duplicate loads.
//!
//! The library holds the decisions of the cache: a counter of load permits,
//! a recency tracker that picks eviction victims, and the cache store that
//! owns the resident table, the per-key stampede guards and the
//! get-or-load protocol. Locking and blocking are left to the caller, which
//! holds each of these behind its own lock.
pub mod limiter;
pub mod recency;
pub mod store;
