//! A bounded-concurrency task engine over a rotating, validated pool of
//! network proxy endpoints: harvesting and deduplicating candidate
//! endpoints, round-robin rotation, per-job retry bookkeeping, admission
//! accounting, and line-delimited result records.

pub mod descriptor;
pub mod harvest;
pub mod pool;
pub mod record;
pub mod scheduler;
pub mod text;
pub mod validate;
