//! Small value types shared by the whole engine: the revision counter,
//! durability levels, dependency edges and the error taxonomy.

use vstd::prelude::*;

verus! {

/// A monotonically increasing counter identifying the current "world
/// state".  Every mutation of an input advances it; it never decreases.
#[derive(Clone, Copy, PartialEq, Eq, Structural, Debug)]
pub struct Revision {
    pub number: u64,
}

impl Revision {
    /// The revision before any input has ever been written.
    pub fn start() -> (r: Revision)
        ensures
            r.number == 0,
    {
        Revision { number: 0 }
    }

    /// The next revision, used when a write advances the clock.
    pub fn next(self) -> (r: Revision)
        requires
            self.number < u64::MAX,
        ensures
            r.number == self.number + 1,
    {
        Revision { number: self.number + 1 }
    }
}

/// Coarse classification of how often an input is expected to change.
/// A memo records the least durable of its dependencies, which lets
/// verification be skipped entirely while no input of that durability
/// (or less durable) has been written.
#[derive(Clone, Copy, PartialEq, Eq, Structural, Debug)]
pub enum Durability {
    Low,
    Medium,
    High,
}

impl Durability {
    /// Numeric rank used to compare durabilities: higher rank means the
    /// value is expected to change less often.
    pub open spec fn rank(self) -> int {
        match self {
            Durability::Low => 0,
            Durability::Medium => 1,
            Durability::High => 2,
        }
    }

    /// Executable form of `rank`.
    pub fn rank_value(self) -> (r: u8)
        ensures
            r as int == self.rank(),
    {
        match self {
            Durability::Low => 0,
            Durability::Medium => 1,
            Durability::High => 2,
        }
    }
}

/// The least durable of two classifications.
pub fn min_durability(a: Durability, b: Durability) -> (r: Durability)
    ensures
        r.rank() == if a.rank() <= b.rank() {
            a.rank()
        } else {
            b.rank()
        },
{
    if a.rank_value() <= b.rank_value() {
        a
    } else {
        b
    }
}

/// One recorded dependency of a memoized computation: the ingredient and
/// key that were read, and the revision at which the value read had last
/// changed at the time of the read.
#[derive(Clone, Copy, PartialEq, Eq, Structural, Debug)]
pub struct Edge {
    pub ingredient: usize,
    pub key: u64,
    pub changed_at: Revision,
}

/// Per-query policy for resolving a self-referential computation.
#[derive(Clone, Copy, PartialEq, Eq, Structural, Debug)]
pub enum CyclePolicy {
    /// Abort the whole computation path with a diagnostic chain.
    Panic,
    /// Substitute the given recovery value for the re-entrant fetch.
    Fallback(u64),
}

/// Why a fetch produced no value.  Cooperative cancellation and cycle
/// aborts propagate as errors rather than panics, so an unwinding
/// computation pops every active frame and commits no partial memo.
#[derive(Clone, PartialEq, Eq, Debug)]
pub enum QueryError {
    /// A query re-entered its own (ingredient, key) frame; the chain lists
    /// the active pairs from the first occurrence to the re-entry.
    Cycle(Vec<(usize, u64)>),
    /// A pending write requested cancellation; the result is simply
    /// unavailable this revision and the caller may retry afterwards.
    Cancelled,
    /// A query body read an input that has never been set.
    InputNotSet { ingredient: usize, key: u64 },
}

/// What one fetch hands back to the frame that requested it: the value,
/// the revision at which that value last changed, and how durable it is.
#[derive(Clone, Copy, PartialEq, Eq, Structural, Debug)]
pub struct FetchOutcome {
    pub value: u64,
    pub changed_at: Revision,
    pub durability: Durability,
}

} // verus!
