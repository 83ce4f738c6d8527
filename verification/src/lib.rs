//! An incremental-computation engine: consumer functions are declared as
//! queries over mutable inputs, their results are memoized, and when an
//! input changes only the queries actually affected are recomputed.
//!
//! The engine is a single shared `Database` holding a revision clock, a
//! flat registry of ingredients (inputs, memoized functions, accumulators),
//! the per-key memo tables, and the runtime state used for dependency
//! recording, cycle detection and cooperative cancellation.  Cancellation
//! is surfaced as a `Result` so that an aborted computation unwinds by
//! ordinary error propagation and commits no partial memo.

pub mod support;
pub mod expr;
pub mod storage;
pub mod runtime;
pub mod database;
pub mod registry;
pub mod fetch;
pub mod inspect;
