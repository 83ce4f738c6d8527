//! The database: the aggregate of the revision clock, the runtime state
//! and the flat, index-addressed ingredient table.  All handles of one
//! logical database share this state; a snapshot handle restricts itself
//! to read-only queries and a single writer advances the revision.

use vstd::prelude::*;

verus! {

use crate::support::{Revision, Durability, Edge, QueryError};
use crate::expr::{Expr, QueryDef};
use crate::storage::{Memo, InputCell, Slot, InputStore};
use crate::runtime::{Frame, Runtime, stack_has_pair};

broadcast use vstd::std_specs::hash::group_hash_axioms;

/// The slot holds an input ingredient.
pub open spec fn input_at(slots: Seq<Slot>, s: int) -> bool {
    0 <= s < slots.len() && slots[s] is Input
}

/// The slot holds a memoized query.
pub open spec fn function_at(slots: Seq<Slot>, s: int) -> bool {
    0 <= s < slots.len() && slots[s] is Function
}

/// The slot holds an accumulator.
pub open spec fn accumulator_at(slots: Seq<Slot>, s: int) -> bool {
    0 <= s < slots.len() && slots[s] is Accumulator
}

/// A dependency edge points at an input or at another query.
pub open spec fn edge_ok(slots: Seq<Slot>, e: Edge) -> bool {
    input_at(slots, e.ingredient as int) || function_at(slots, e.ingredient as int)
}

/// A query body only addresses slots of the right kind.
pub open spec fn body_ok(slots: Seq<Slot>, e: Expr) -> bool
    decreases e,
{
    match e {
        Expr::Literal(_) => true,
        Expr::Input(s, _) => input_at(slots, s as int),
        Expr::Fetch(s, _) => function_at(slots, s as int),
        Expr::Sum(a, b) => body_ok(slots, *a) && body_ok(slots, *b),
        Expr::Emit(s, e2) => accumulator_at(slots, s as int) && body_ok(slots, *e2),
        Expr::UntrackedRead(_) => true,
    }
}

/// A memo's bookkeeping is within the clock and its edges addressable.
pub open spec fn memo_ok(slots: Seq<Slot>, rev: int, m: Memo) -> bool {
    &&& m.changed_at.number <= m.verified_at.number
    &&& m.verified_at.number as int <= rev
    &&& forall|i: int| 0 <= i < m.deps@.len() ==> edge_ok(slots, #[trigger] m.deps@[i])
}

/// An active frame belongs to a query slot and has recorded only
/// addressable edges.
pub open spec fn frame_ok(slots: Seq<Slot>, f: Frame) -> bool {
    &&& function_at(slots, f.ingredient as int)
    &&& forall|i: int| 0 <= i < f.deps@.len() ==> edge_ok(slots, #[trigger] f.deps@[i])
}

pub struct Database {
    pub runtime: Runtime,
    pub slots: Vec<Slot>,
}

/// Well-formedness carries over to a state with the same ingredient
/// table and revision, as long as every active frame is still sound.
pub(crate) proof fn lemma_wf_same_storage(pre: Database, post: Database)
    requires
        pre.wf(),
        post.slots == pre.slots,
        post.runtime.revision == pre.runtime.revision,
        forall|i: int|
            0 <= i < post.runtime.stack@.len() ==> frame_ok(
                post.slots@,
                #[trigger] post.runtime.stack@[i],
            ),
    ensures
        post.wf(),
{
    assert forall|s: int| #[trigger] function_at(post.slots@, s) implies body_ok(
        post.slots@,
        post.def_of(s).body,
    ) by {
        assert(function_at(pre.slots@, s));
        assert(post.def_of(s) == pre.def_of(s));
    }
    assert forall|s: int, k: u64| function_at(post.slots@, s) implies match #[trigger] post.memo_of(
        s,
        k,
    ) {
        Some(m) => memo_ok(post.slots@, post.rev(), m),
        None => true,
    } by {
        assert(post.memo_of(s, k) == pre.memo_of(s, k));
    }
    assert forall|s: int, k: u64| input_at(post.slots@, s) implies match #[trigger] post.cell_of(
        s,
        k,
    ) {
        Some(c) => c.changed_at.number as int <= post.rev(),
        None => true,
    } by {
        assert(post.cell_of(s, k) == pre.cell_of(s, k));
    }
}

impl Database {
    /// The current revision as a plain number.
    pub open spec fn rev(self) -> int {
        self.runtime.revision.number as int
    }

    pub open spec fn slot_count(self) -> int {
        self.slots@.len() as int
    }

    pub open spec fn is_function(self, s: int) -> bool {
        function_at(self.slots@, s)
    }

    pub open spec fn is_input(self, s: int) -> bool {
        input_at(self.slots@, s)
    }

    pub open spec fn is_accumulator(self, s: int) -> bool {
        accumulator_at(self.slots@, s)
    }

    /// The configuration of the query stored in a function slot.
    pub open spec fn def_of(self, s: int) -> QueryDef {
        self.slots@[s]->Function_0.def
    }

    /// The memo table of a function slot, as a map.
    pub open spec fn memos_of(self, s: int) -> Map<u64, Memo> {
        self.slots@[s]->Function_0.memos@
    }

    /// The cell table of an input slot, as a map.
    pub open spec fn cells_of(self, s: int) -> Map<u64, InputCell> {
        self.slots@[s]->Input_0.cells@
    }

    pub open spec fn memo_of(self, s: int, k: u64) -> Option<Memo> {
        if self.memos_of(s).contains_key(k) {
            Some(self.memos_of(s)[k])
        } else {
            None
        }
    }

    pub open spec fn cell_of(self, s: int, k: u64) -> Option<InputCell> {
        if self.cells_of(s).contains_key(k) {
            Some(self.cells_of(s)[k])
        } else {
            None
        }
    }

    /// A memo needing no work at all: verified at the current revision.
    pub open spec fn memo_fresh(self, s: int, k: u64) -> bool {
        self.is_function(s) && match self.memo_of(s, k) {
            Some(m) => m.verified_at.number as int == self.rev(),
            None => false,
        }
    }

    /// Well-formedness of the whole database: every stored body addresses
    /// slots of the right kind, every memo's bookkeeping is within the
    /// clock and its edges are addressable, and every active frame
    /// belongs to a query slot.
    pub open spec fn wf(self) -> bool {
        &&& forall|s: int| #[trigger]
            function_at(self.slots@, s) ==> body_ok(self.slots@, self.def_of(s).body)
        &&& forall|s: int, k: u64|
            function_at(self.slots@, s) ==> match #[trigger] self.memo_of(s, k) {
                Some(m) => memo_ok(self.slots@, self.rev(), m),
                None => true,
            }
        &&& forall|s: int, k: u64|
            input_at(self.slots@, s) ==> match #[trigger] self.cell_of(s, k) {
                Some(c) => c.changed_at.number as int <= self.rev(),
                None => true,
            }
        &&& forall|i: int|
            0 <= i < self.runtime.stack@.len() ==> frame_ok(
                self.slots@,
                #[trigger] self.runtime.stack@[i],
            )
    }

    /// An empty database: no ingredients, revision zero, no pending
    /// cancellation, empty active stack.
    pub fn new() -> (db: Database)
        ensures
            db.wf(),
            db.slot_count() == 0,
            db.rev() == 0,
            db.runtime.stack@.len() == 0,
            !db.runtime.cancel_pending,
    {
        Database {
            runtime: Runtime {
                revision: Revision::start(),
                cancel_pending: false,
                stack: Vec::new(),
                changed_low: Revision { number: 0 },
                changed_medium: Revision { number: 0 },
                changed_high: Revision { number: 0 },
            },
            slots: Vec::new(),
        }
    }

    /// The revision visible to this handle; it is stable for the lifetime
    /// of one top-level query evaluation, since only `set` advances it.
    pub fn current_revision(&self) -> (r: Revision)
        ensures
            r == self.runtime.revision,
    {
        self.runtime.revision
    }

    /// A pending write announces itself here; every outstanding reader
    /// observes the flag at its next checkpoint and unwinds.
    pub fn signal_cancellation(&mut self)
        ensures
            final(self).runtime.cancel_pending,
            final(self).runtime.revision == old(self).runtime.revision,
            final(self).runtime.stack == old(self).runtime.stack,
            final(self).runtime.changed_low == old(self).runtime.changed_low,
            final(self).runtime.changed_medium == old(self).runtime.changed_medium,
            final(self).runtime.changed_high == old(self).runtime.changed_high,
            final(self).slots == old(self).slots,
    {
        self.runtime.cancel_pending = true;
    }

    /// The cooperative yield point: a computation that calls this while a
    /// write is pending aborts with `Cancelled`, which propagates through
    /// every active frame without committing any memo.
    pub fn unwind_if_canceled(&self) -> (r: Result<(), QueryError>)
        ensures
            match r {
                Ok(()) => !self.runtime.cancel_pending,
                Err(e) => self.runtime.cancel_pending && e == QueryError::Cancelled,
            },
    {
        if self.runtime.cancel_pending {
            Err(QueryError::Cancelled)
        } else {
            Ok(())
        }
    }

    /// Push a frame for a query about to be (re)computed or verified.
    /// Fails exactly when the pair is already on the active stack; the
    /// returned chain runs from the first active occurrence of the pair
    /// to the re-entry, so both of its ends name the cyclic pair.
    pub fn begin_query(&mut self, ingredient: usize, key: u64) -> (r: Result<(), QueryError>)
        requires
            old(self).wf(),
            old(self).is_function(ingredient as int),
        ensures
            final(self).wf(),
            final(self).slots == old(self).slots,
            final(self).runtime.revision == old(self).runtime.revision,
            final(self).runtime.cancel_pending == old(self).runtime.cancel_pending,
            final(self).runtime.changed_low == old(self).runtime.changed_low,
            final(self).runtime.changed_medium == old(self).runtime.changed_medium,
            final(self).runtime.changed_high == old(self).runtime.changed_high,
            match r {
                Ok(()) => ({
                    let pre = old(self).runtime.stack@;
                    let post = final(self).runtime.stack@;
                    &&& !stack_has_pair(pre, ingredient, key)
                    &&& post.len() == pre.len() + 1
                    &&& post.subrange(0, pre.len() as int) == pre
                    &&& post.last().ingredient == ingredient
                    &&& post.last().key == key
                    &&& post.last().deps@ == Seq::<Edge>::empty()
                    &&& post.last().log@ == Seq::<(usize, u64)>::empty()
                    &&& !post.last().untracked
                    &&& post.last().durability == Durability::High
                }),
                Err(e) => ({
                    &&& stack_has_pair(old(self).runtime.stack@, ingredient, key)
                    &&& final(self).runtime.stack == old(self).runtime.stack
                    &&& e matches QueryError::Cycle(chain) && chain@.len() >= 2 && chain@[0] == (
                        ingredient,
                        key,
                    ) && chain@.last() == (ingredient, key)
                }),
            },
    {
        let n = self.runtime.stack.len();
        let mut idx: usize = 0;
        let mut found: Option<usize> = None;
        while idx < n
            invariant
                n == self.runtime.stack@.len(),
                0 <= idx <= n,
                match found {
                    Some(j) => j < idx && self.runtime.stack@[j as int].ingredient == ingredient
                        && self.runtime.stack@[j as int].key == key,
                    None => forall|i: int|
                        0 <= i < idx ==> !((#[trigger] self.runtime.stack@[i]).ingredient
                            == ingredient && self.runtime.stack@[i].key == key),
                },
            decreases n - idx,
        {
            if found.is_none() {
                let f = &self.runtime.stack[idx];
                if f.ingredient == ingredient && f.key == key {
                    found = Some(idx);
                }
            }
            idx += 1;
        }
        match found {
            Some(j) => {
                // Build the diagnostic chain: the active pairs from the
                // first occurrence up to the top, then the re-entry.
                let mut chain: Vec<(usize, u64)> = Vec::new();
                let mut i: usize = j;
                while i < n
                    invariant
                        n == self.runtime.stack@.len(),
                        j <= i <= n,
                        j < n,
                        self.runtime.stack@[j as int].ingredient == ingredient,
                        self.runtime.stack@[j as int].key == key,
                        chain@.len() == i - j,
                        i > j ==> chain@[0] == (ingredient, key),
                    decreases n - i,
                {
                    let f = &self.runtime.stack[i];
                    chain.push((f.ingredient, f.key));
                    i += 1;
                }
                chain.push((ingredient, key));
                assert(stack_has_pair(self.runtime.stack@, ingredient, key));
                Err(QueryError::Cycle(chain))
            },
            None => {
                let frame = Frame {
                    ingredient,
                    key,
                    deps: Vec::new(),
                    log: Vec::new(),
                    untracked: false,
                    durability: Durability::High,
                };
                self.runtime.stack.push(frame);
                proof {
                    let pre = old(self).runtime.stack@;
                    let post = self.runtime.stack@;
                    assert(post.subrange(0, pre.len() as int) =~= pre);
                    assert forall|i: int| 0 <= i < post.len() implies frame_ok(
                        self.slots@,
                        post[i],
                    ) by {
                        if i < pre.len() {
                            assert(post[i] == pre[i]);
                            assert(frame_ok(old(self).slots@, pre[i]));
                        }
                    }
                    lemma_wf_same_storage(*old(self), *self);
                }
                Ok(())
            },
        }
    }

    /// Pop the innermost frame and hand it back, whether the computation
    /// completed or is unwinding.
    pub fn end_query(&mut self) -> (f: Frame)
        requires
            old(self).wf(),
            old(self).runtime.stack@.len() > 0,
        ensures
            final(self).wf(),
            final(self).slots == old(self).slots,
            final(self).runtime.revision == old(self).runtime.revision,
            final(self).runtime.cancel_pending == old(self).runtime.cancel_pending,
            final(self).runtime.changed_low == old(self).runtime.changed_low,
            final(self).runtime.changed_medium == old(self).runtime.changed_medium,
            final(self).runtime.changed_high == old(self).runtime.changed_high,
            final(self).runtime.stack@ == old(self).runtime.stack@.drop_last(),
            f == old(self).runtime.stack@.last(),
    {
        let f = self.runtime.stack.pop().unwrap();
        proof {
            let pre = old(self).runtime.stack@;
            let post = self.runtime.stack@;
            assert forall|i: int| 0 <= i < post.len() implies frame_ok(self.slots@, post[i]) by {
                assert(post[i] == pre[i]);
                assert(frame_ok(old(self).slots@, pre[i]));
            }
            lemma_wf_same_storage(*old(self), *self);
        }
        f
    }

    /// Append an edge to the dependency list of the innermost frame: the
    /// enclosing computation has just read that ingredient and key.
    pub fn record_dependency(&mut self, edge: Edge)
        requires
            old(self).wf(),
            old(self).runtime.stack@.len() > 0,
            edge_ok(old(self).slots@, edge),
        ensures
            final(self).wf(),
            final(self).slots == old(self).slots,
            final(self).runtime.revision == old(self).runtime.revision,
            final(self).runtime.cancel_pending == old(self).runtime.cancel_pending,
            final(self).runtime.changed_low == old(self).runtime.changed_low,
            final(self).runtime.changed_medium == old(self).runtime.changed_medium,
            final(self).runtime.changed_high == old(self).runtime.changed_high,
            ({
                let pre = old(self).runtime.stack@;
                let post = final(self).runtime.stack@;
                &&& post.len() == pre.len()
                &&& forall|i: int| 0 <= i < pre.len() - 1 ==> post[i] == pre[i]
                &&& post.last().ingredient == pre.last().ingredient
                &&& post.last().key == pre.last().key
                &&& post.last().untracked == pre.last().untracked
                &&& post.last().durability == pre.last().durability
                &&& post.last().log == pre.last().log
                &&& post.last().deps@ == pre.last().deps@.push(edge)
            }),
    {
        let mut f = self.runtime.stack.pop().unwrap();
        f.deps.push(edge);
        self.runtime.stack.push(f);
        proof {
            let pre = old(self).runtime.stack@;
            let post = self.runtime.stack@;
            assert forall|i: int| 0 <= i < post.len() implies frame_ok(self.slots@, post[i]) by {
                assert(frame_ok(old(self).slots@, pre[i]));
                if i < post.len() - 1 {
                    assert(post[i] == pre[i]);
                } else {
                    assert(post[i].deps@ == pre[i].deps@.push(edge));
                    assert forall|d: int| 0 <= d < post[i].deps@.len() implies edge_ok(
                        self.slots@,
                        post[i].deps@[d],
                    ) by {
                        if d < pre[i].deps@.len() {
                            assert(post[i].deps@[d] == pre[i].deps@[d]);
                        } else {
                            assert(post[i].deps@[d] == edge);
                        }
                    }
                }
            }
            lemma_wf_same_storage(*old(self), *self);
        }
    }

    /// Mark the innermost frame as depending on something outside the
    /// tracked graph; the memo it produces is recomputed every revision
    /// and never backdated.
    pub fn report_untracked_read(&mut self)
        requires
            old(self).wf(),
            old(self).runtime.stack@.len() > 0,
        ensures
            final(self).wf(),
            final(self).slots == old(self).slots,
            final(self).runtime.revision == old(self).runtime.revision,
            final(self).runtime.cancel_pending == old(self).runtime.cancel_pending,
            final(self).runtime.changed_low == old(self).runtime.changed_low,
            final(self).runtime.changed_medium == old(self).runtime.changed_medium,
            final(self).runtime.changed_high == old(self).runtime.changed_high,
            ({
                let pre = old(self).runtime.stack@;
                let post = final(self).runtime.stack@;
                &&& post.len() == pre.len()
                &&& forall|i: int| 0 <= i < pre.len() - 1 ==> post[i] == pre[i]
                &&& post.last().ingredient == pre.last().ingredient
                &&& post.last().key == pre.last().key
                &&& post.last().untracked
                &&& post.last().durability == Durability::Low
                &&& post.last().log == pre.last().log
                &&& post.last().deps == pre.last().deps
            }),
    {
        let mut f = self.runtime.stack.pop().unwrap();
        f.untracked = true;
        f.durability = Durability::Low;
        self.runtime.stack.push(f);
        proof {
            let pre = old(self).runtime.stack@;
            let post = self.runtime.stack@;
            assert forall|i: int| 0 <= i < post.len() implies frame_ok(self.slots@, post[i]) by {
                assert(frame_ok(old(self).slots@, pre[i]));
                if i < post.len() - 1 {
                    assert(post[i] == pre[i]);
                } else {
                    assert(post[i].deps == pre[i].deps);
                }
            }
            lemma_wf_same_storage(*old(self), *self);
        }
    }

    /// Append an emitted value to the innermost frame's log: the body
    /// being computed pushed `value` into the given accumulator.
    pub fn push_accumulated(&mut self, accumulator: usize, value: u64)
        requires
            old(self).wf(),
            old(self).runtime.stack@.len() > 0,
            old(self).is_accumulator(accumulator as int),
        ensures
            final(self).wf(),
            final(self).slots == old(self).slots,
            final(self).runtime.revision == old(self).runtime.revision,
            final(self).runtime.cancel_pending == old(self).runtime.cancel_pending,
            final(self).runtime.changed_low == old(self).runtime.changed_low,
            final(self).runtime.changed_medium == old(self).runtime.changed_medium,
            final(self).runtime.changed_high == old(self).runtime.changed_high,
            ({
                let pre = old(self).runtime.stack@;
                let post = final(self).runtime.stack@;
                &&& post.len() == pre.len()
                &&& forall|i: int| 0 <= i < pre.len() - 1 ==> post[i] == pre[i]
                &&& post.last().ingredient == pre.last().ingredient
                &&& post.last().key == pre.last().key
                &&& post.last().untracked == pre.last().untracked
                &&& post.last().durability == pre.last().durability
                &&& post.last().deps == pre.last().deps
                &&& post.last().log@ == pre.last().log@.push((accumulator, value))
            }),
    {
        let mut f = self.runtime.stack.pop().unwrap();
        f.log.push((accumulator, value));
        self.runtime.stack.push(f);
        proof {
            let pre = old(self).runtime.stack@;
            let post = self.runtime.stack@;
            assert forall|i: int| 0 <= i < post.len() implies frame_ok(self.slots@, post[i]) by {
                assert(frame_ok(old(self).slots@, pre[i]));
                if i < post.len() - 1 {
                    assert(post[i] == pre[i]);
                } else {
                    assert(post[i].deps == pre[i].deps);
                }
            }
            lemma_wf_same_storage(*old(self), *self);
        }
    }

    /// Overwrite one input cell, bypassing recomputation: the only way a
    /// `changed_at` fact enters the graph other than by execution.  The
    /// caller holds exclusive access — under the reader/writer protocol a
    /// pending writer first signals cancellation, then waits until every
    /// outstanding reader has released, so no frame is active here.  The
    /// write advances the revision clock, applies the value with
    /// `changed_at` at the new revision, notes the written durability in
    /// the ledger and clears the cancellation flag.
    pub fn set(&mut self, ingredient: usize, key: u64, value: u64, durability: Durability)
        requires
            old(self).wf(),
            old(self).is_input(ingredient as int),
            old(self).runtime.stack@.len() == 0,
            old(self).rev() < u64::MAX,
        ensures
            final(self).wf(),
            final(self).rev() == old(self).rev() + 1,
            !final(self).runtime.cancel_pending,
            final(self).runtime.stack@.len() == 0,
            final(self).slot_count() == old(self).slot_count(),
            final(self).is_input(ingredient as int),
            final(self).cells_of(ingredient as int) == old(self).cells_of(
                ingredient as int,
            ).insert(
                key,
                (InputCell {
                    value,
                    changed_at: final(self).runtime.revision,
                    durability,
                }),
            ),
            final(self).cell_of(ingredient as int, key) == Some(
                (InputCell {
                    value,
                    changed_at: final(self).runtime.revision,
                    durability,
                }),
            ),
            forall|k: u64|
                k != key ==> final(self).cell_of(ingredient as int, k) == old(self).cell_of(
                    ingredient as int,
                    k,
                ),
            forall|s: int|
                0 <= s < old(self).slot_count() && s != ingredient ==> final(self).slots@[s] == old(
                    self,
                ).slots@[s],
            final(self).runtime.changed_low == (if durability is Low {
                final(self).runtime.revision
            } else {
                old(self).runtime.changed_low
            }),
            final(self).runtime.changed_medium == (if durability is Medium {
                final(self).runtime.revision
            } else {
                old(self).runtime.changed_medium
            }),
            final(self).runtime.changed_high == (if durability is High {
                final(self).runtime.revision
            } else {
                old(self).runtime.changed_high
            }),
    {
        let next = self.runtime.revision.next();
        self.runtime.revision = next;
        self.runtime.cancel_pending = false;
        match durability {
            Durability::Low => {
                self.runtime.changed_low = next;
            },
            Durability::Medium => {
                self.runtime.changed_medium = next;
            },
            Durability::High => {
                self.runtime.changed_high = next;
            },
        }
        let cell = InputCell { value, changed_at: next, durability };
        let removed = self.slots.remove(ingredient);
        match removed {
            Slot::Input(mut store) => {
                store.cells.insert(key, cell);
                self.slots.insert(ingredient, Slot::Input(store));
            },
            other => {
                // Unreachable: the slot is an input by precondition.
                self.slots.insert(ingredient, other);
            },
        }
        proof {
            let pre = old(self).slots@;
            let post = self.slots@;
            assert(post =~= pre.update(
                ingredient as int,
                (Slot::Input(
                    (InputStore {
                        cells: self.slots@[ingredient as int]->Input_0.cells,
                    }),
                )),
            ));
            assert(self.cells_of(ingredient as int) == old(self).cells_of(
                ingredient as int,
            ).insert(key, cell));
            assert forall|s: int| #[trigger] function_at(post, s) implies body_ok(
                post,
                self.def_of(s).body,
            ) by {
                assert(function_at(pre, s));
                assert(self.def_of(s) == old(self).def_of(s));
                lemma_body_ok_same_kinds(pre, post, old(self).def_of(s).body);
            }
            assert forall|s: int, k: u64| function_at(post, s) implies match #[trigger] self
                .memo_of(s, k) {
                Some(m) => memo_ok(post, self.rev(), m),
                None => true,
            } by {
                assert(self.memo_of(s, k) == old(self).memo_of(s, k));
                if old(self).memo_of(s, k) is Some {
                    assert(memo_ok(pre, old(self).rev(), old(self).memo_of(s, k)->Some_0));
                    lemma_memo_ok_same_kinds(
                        pre,
                        post,
                        old(self).rev(),
                        self.rev(),
                        old(self).memo_of(s, k)->Some_0,
                    );
                }
            }
            assert forall|s: int, k: u64| input_at(post, s) implies match #[trigger] self.cell_of(
                s,
                k,
            ) {
                Some(c) => c.changed_at.number as int <= self.rev(),
                None => true,
            } by {
                if s != ingredient as int || k != key {
                    assert(self.cell_of(s, k) == old(self).cell_of(s, k));
                }
            }
        }
    }

}

/// Freshness is never inherited across a write: advancing the revision
/// clock while keeping the stored memos leaves no memo verified at the
/// new revision, so the next fetch of any key must re-verify it against
/// its dependencies before its value can be returned.  This is what
/// `set` does to the memoized state.
pub proof fn lemma_clock_advance_invalidates(pre: Database, post: Database)
    requires
        pre.wf(),
        post.rev() > pre.rev(),
        post.slot_count() == pre.slot_count(),
        forall|s: int| 0 <= s < pre.slot_count() ==> post.slots@[s] == pre.slots@[s],
    ensures
        forall|s: int, k: u64| !post.memo_fresh(s, k),
{
    assert forall|s: int, k: u64| !post.memo_fresh(s, k) by {
        if post.is_function(s) {
            assert(post.slots@[s] == pre.slots@[s]);
            assert(post.memo_of(s, k) == pre.memo_of(s, k));
            match pre.memo_of(s, k) {
                Some(m) => {
                    assert(memo_ok(pre.slots@, pre.rev(), m));
                },
                None => {},
            }
        }
    }
}

/// Kinds are unchanged slot by slot, so a body stays addressable.
pub(crate) proof fn lemma_body_ok_same_kinds(a: Seq<Slot>, b: Seq<Slot>, e: Expr)
    requires
        a.len() == b.len(),
        forall|s: int|
            0 <= s < a.len() ==> ((a[s] is Input <==> (#[trigger] b[s]) is Input) && (a[s]
                is Function <==> b[s] is Function) && (a[s] is Accumulator <==> b[s]
                is Accumulator)),
        body_ok(a, e),
    ensures
        body_ok(b, e),
    decreases e,
{
    match e {
        Expr::Sum(x, y) => {
            lemma_body_ok_same_kinds(a, b, *x);
            lemma_body_ok_same_kinds(a, b, *y);
        },
        Expr::Emit(_, x) => {
            lemma_body_ok_same_kinds(a, b, *x);
        },
        _ => {},
    }
}

/// A memo stays well-formed when kinds are unchanged and the clock only
/// advances.
pub(crate) proof fn lemma_memo_ok_same_kinds(a: Seq<Slot>, b: Seq<Slot>, rev_a: int, rev_b: int, m: Memo)
    requires
        a.len() == b.len(),
        forall|s: int|
            0 <= s < a.len() ==> ((a[s] is Input <==> (#[trigger] b[s]) is Input) && (a[s]
                is Function <==> b[s] is Function) && (a[s] is Accumulator <==> b[s]
                is Accumulator)),
        rev_a <= rev_b,
        memo_ok(a, rev_a, m),
    ensures
        memo_ok(b, rev_b, m),
{
    assert forall|i: int| 0 <= i < m.deps@.len() implies edge_ok(b, #[trigger] m.deps@[i]) by {
        assert(edge_ok(a, m.deps@[i]));
    }
}

} // verus!
