//! Runtime state: the revision clock, the cooperative cancellation flag
//! and the active-query stack used for cycle detection and dependency
//! recording.

use vstd::prelude::*;

verus! {

use crate::support::{Revision, Durability, Edge};

/// One active computation: the query being computed and everything the
/// computation has read or emitted so far.
pub struct Frame {
    pub ingredient: usize,
    pub key: u64,
    /// Dependency edges recorded by nested reads, in read order.
    pub deps: Vec<Edge>,
    /// (accumulator, value) pairs emitted so far, in push order,
    /// including those of transitively invoked queries.
    pub log: Vec<(usize, u64)>,
    /// Set when the computation read outside the tracked graph.
    pub untracked: bool,
    /// The least durable dependency read so far.
    pub durability: Durability,
}

/// The runtime owns the revision clock, the cancellation flag and the
/// active-query stack.  In this verified core the stack belongs to the
/// single thread driving the database; concurrent snapshots share the
/// storage through an outer reader/writer discipline and each carry a
/// stack of their own.
pub struct Runtime {
    pub revision: Revision,
    /// Set by a pending write; every fetch checks it and unwinds with
    /// `QueryError::Cancelled` when it is set.
    pub cancel_pending: bool,
    pub stack: Vec<Frame>,
    /// The last revision at which an input of low durability was written.
    pub changed_low: Revision,
    /// The same for medium durability.
    pub changed_medium: Revision,
    /// The same for high durability.
    pub changed_high: Revision,
}

impl Runtime {
    /// The revision at or after which an input at least as durable as
    /// `d` may last have been written.  A memo whose dependencies are all
    /// at least as durable as `d` and which was verified at or after this
    /// revision needs no further verification.
    pub open spec fn last_relevant_change(self, d: Durability) -> int {
        match d {
            Durability::High => self.changed_high.number as int,
            Durability::Medium => max_int(
                self.changed_medium.number as int,
                self.changed_high.number as int,
            ),
            Durability::Low => max_int(
                self.changed_low.number as int,
                max_int(self.changed_medium.number as int, self.changed_high.number as int),
            ),
        }
    }
}

pub open spec fn max_int(a: int, b: int) -> int {
    if a >= b {
        a
    } else {
        b
    }
}

/// True when some active frame is computing exactly this pair; pushing
/// the pair again would be a cycle.
pub open spec fn stack_has_pair(stack: Seq<Frame>, ingredient: usize, key: u64) -> bool {
    exists|i: int|
        0 <= i < stack.len() && (#[trigger] stack[i]).ingredient == ingredient && stack[i].key
            == key
}

} // verus!
