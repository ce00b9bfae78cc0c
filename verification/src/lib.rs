//! Parallel remote-command execution core: host-expression expansion,
//! order-preserving deduplication, order-restoring concurrent resolution,
//! bounded-concurrency batch coordination, and per-host output blocking.

pub mod coordinator;
pub mod dedup;
pub mod display;
pub mod expand;
pub mod matcher;
pub mod numbers;
pub mod presenter;
pub mod resolve;
pub mod util;
