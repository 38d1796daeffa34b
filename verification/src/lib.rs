//! Project-wide registry of runnable tasks, aggregated from registered
//! sources, deduplicated by origin path and listed in a deterministic,
//! optionally recency-biased order.

pub mod order;
pub mod tasks;
pub mod sorting;
pub mod history;
pub mod inventory;
pub mod laws;
