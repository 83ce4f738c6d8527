//! Per-ingredient storage: input cells, memos and the slot table that
//! the registry addresses by stable index.

use vstd::prelude::*;
use std::collections::HashMap;

verus! {

use crate::support::{Revision, Durability, Edge};
use crate::expr::QueryDef;

/// The stored state of one input key: the last value written, the
/// revision of that write, and the durability the writer declared.
#[derive(Clone, Copy, PartialEq, Eq, Structural, Debug)]
pub struct InputCell {
    pub value: u64,
    pub changed_at: Revision,
    pub durability: Durability,
}

/// The per-key record of a memoized query: the last computed value and
/// the bookkeeping that decides whether it may be reused.
#[verifier::ext_equal]
#[derive(Clone, Debug)]
pub struct Memo {
    /// The last computed (or directly set) result.
    pub value: u64,
    /// The revision at which correctness of `value` was last confirmed.
    pub verified_at: Revision,
    /// The revision at which `value` last actually differed from its
    /// predecessor; backdating keeps it below `verified_at`.
    pub changed_at: Revision,
    /// The least durable dependency read while computing `value`.
    pub durability: Durability,
    /// The dependency edges recorded, in read order, by the computation
    /// that produced `value`.
    pub deps: Vec<Edge>,
    /// True when the computation read outside the tracked graph; such a
    /// memo is never backdated and is recomputed every revision.
    pub untracked: bool,
    /// Every (accumulator, value) pair emitted while computing `value`,
    /// including by transitively invoked queries, in push order.
    pub log: Vec<(usize, u64)>,
    /// How many times the query body has been executed for this key;
    /// a reused or backdated memo keeps the old count.
    pub executions: u64,
}

/// The mathematical content of a memo: the same record with its lists
/// abstracted to sequences, used by contracts to compare memos that
/// were built independently.
#[verifier::ext_equal]
pub ghost struct MemoModel {
    pub value: u64,
    pub verified_at: Revision,
    pub changed_at: Revision,
    pub durability: Durability,
    pub deps: Seq<Edge>,
    pub untracked: bool,
    pub log: Seq<(usize, u64)>,
    pub executions: u64,
}

impl View for Memo {
    type V = MemoModel;

    open spec fn view(&self) -> MemoModel {
        MemoModel {
            value: self.value,
            verified_at: self.verified_at,
            changed_at: self.changed_at,
            durability: self.durability,
            deps: self.deps@,
            untracked: self.untracked,
            log: self.log@,
            executions: self.executions,
        }
    }
}

/// Storage of one memoized query: its configuration, its memo table and
/// nothing else.
pub struct FunctionStore {
    pub def: QueryDef,
    pub memos: HashMap<u64, Memo>,
}

/// Storage of one input ingredient: a table of cells keyed by argument.
pub struct InputStore {
    pub cells: HashMap<u64, InputCell>,
}

/// One slot of the flat ingredient table.  An accumulator needs no
/// storage of its own: emitted values live in the memos of the queries
/// that emitted them.
pub enum Slot {
    Input(InputStore),
    Function(FunctionStore),
    Accumulator,
}

} // verus!
