//! A small embedded key-value store: string keys map to versioned string
//! values, with per-store metrics (update/write timestamps, size) and
//! persistence through a textual snapshot that round-trips exactly.

pub mod basic;
pub mod entry;
pub mod kvmap;
pub mod snapshot;
pub mod store;

mod clock;
