//! Read-only views into the database: the stored input values and the
//! memo bookkeeping that tests and tools observe (execution counters,
//! recorded dependency edges, backdating revisions).

use vstd::prelude::*;

verus! {

use crate::storage::Slot;
use crate::database::Database;

broadcast use vstd::std_specs::hash::group_hash_axioms;

impl Database {
    /// How many ingredients have been registered.
    pub fn ingredient_count(&self) -> (r: usize)
        ensures
            r as int == self.slot_count(),
    {
        self.slots.len()
    }

    /// Whether this index addresses an input ingredient.
    pub fn is_input_slot(&self, s: usize) -> (r: bool)
        ensures
            r == self.is_input(s as int),
    {
        if s < self.slots.len() {
            matches!(&self.slots[s], Slot::Input(_))
        } else {
            false
        }
    }

    /// Whether this index addresses a memoized query.
    pub fn is_function_slot(&self, s: usize) -> (r: bool)
        ensures
            r == self.is_function(s as int),
    {
        if s < self.slots.len() {
            matches!(&self.slots[s], Slot::Function(_))
        } else {
            false
        }
    }

    /// Whether this index addresses an accumulator.
    pub fn is_accumulator_slot(&self, s: usize) -> (r: bool)
        ensures
            r == self.is_accumulator(s as int),
    {
        if s < self.slots.len() {
            matches!(&self.slots[s], Slot::Accumulator)
        } else {
            false
        }
    }

    /// How many queries are being computed right now on this handle's
    /// active stack.
    pub fn active_query_depth(&self) -> (r: usize)
        ensures
            r as int == self.runtime.stack@.len(),
    {
        self.runtime.stack.len()
    }

    /// The last value written to an input cell, if it was ever set.
    pub fn input_value(&self, slot: usize, key: u64) -> (r: Option<u64>)
        requires
            self.wf(),
            self.is_input(slot as int),
        ensures
            match self.cell_of(slot as int, key) {
                Some(c) => r == Some(c.value),
                None => r is None,
            },
    {
        match &self.slots[slot] {
            Slot::Input(store) => match store.cells.get(&key) {
                Some(c) => Some(c.value),
                None => None,
            },
            _ => None,
        }
    }

    /// The memoized value stored for this key, fresh or stale.
    pub fn memo_value(&self, slot: usize, key: u64) -> (r: Option<u64>)
        requires
            self.wf(),
            self.is_function(slot as int),
        ensures
            match self.memo_of(slot as int, key) {
                Some(m) => r == Some(m.value),
                None => r is None,
            },
    {
        match &self.slots[slot] {
            Slot::Function(fs) => match fs.memos.get(&key) {
                Some(m) => Some(m.value),
                None => None,
            },
            _ => None,
        }
    }

    /// How many times the query body has been executed for this key.
    pub fn execution_count(&self, slot: usize, key: u64) -> (r: Option<u64>)
        requires
            self.wf(),
            self.is_function(slot as int),
        ensures
            match self.memo_of(slot as int, key) {
                Some(m) => r == Some(m.executions),
                None => r is None,
            },
    {
        match &self.slots[slot] {
            Slot::Function(fs) => match fs.memos.get(&key) {
                Some(m) => Some(m.executions),
                None => None,
            },
            _ => None,
        }
    }

    /// The revision at which the memoized value last actually changed.
    pub fn memo_changed_at(&self, slot: usize, key: u64) -> (r: Option<u64>)
        requires
            self.wf(),
            self.is_function(slot as int),
        ensures
            match self.memo_of(slot as int, key) {
                Some(m) => r == Some(m.changed_at.number),
                None => r is None,
            },
    {
        match &self.slots[slot] {
            Slot::Function(fs) => match fs.memos.get(&key) {
                Some(m) => Some(m.changed_at.number),
                None => None,
            },
            _ => None,
        }
    }

    /// The revision at which the memo was last confirmed correct.
    pub fn memo_verified_at(&self, slot: usize, key: u64) -> (r: Option<u64>)
        requires
            self.wf(),
            self.is_function(slot as int),
        ensures
            match self.memo_of(slot as int, key) {
                Some(m) => r == Some(m.verified_at.number),
                None => r is None,
            },
    {
        match &self.slots[slot] {
            Slot::Function(fs) => match fs.memos.get(&key) {
                Some(m) => Some(m.verified_at.number),
                None => None,
            },
            _ => None,
        }
    }

    /// How many dependency edges the last computation of this key
    /// recorded.
    pub fn dependency_count(&self, slot: usize, key: u64) -> (r: Option<usize>)
        requires
            self.wf(),
            self.is_function(slot as int),
        ensures
            match self.memo_of(slot as int, key) {
                Some(m) => r == Some(m.deps.len() as usize) && m.deps@.len() == m.deps.len(),
                None => r is None,
            },
    {
        match &self.slots[slot] {
            Slot::Function(fs) => match fs.memos.get(&key) {
                Some(m) => Some(m.deps.len()),
                None => None,
            },
            _ => None,
        }
    }
}

} // verus!
