//! The fetch algorithm: cache hit, shallow verification with
//! backdating, recomputation with dependency recording, cycle handling
//! and the cooperative cancellation checkpoints.

use vstd::prelude::*;

verus! {

use crate::support::{Revision, Durability, Edge, QueryError, FetchOutcome, min_durability};
use crate::expr::Expr;
use crate::storage::{Memo, MemoModel, InputCell, Slot};
use crate::runtime::Frame;
use crate::database::{
    Database,
    input_at,
    function_at,
    edge_ok,
    memo_ok,
    frame_ok,
    lemma_wf_same_storage,
    lemma_body_ok_same_kinds,
    lemma_memo_ok_same_kinds,
};

broadcast use vstd::std_specs::hash::group_hash_axioms;

/// The values pushed into one accumulator, in push order, out of a
/// combined execution log.
pub open spec fn log_filter(log: Seq<(usize, u64)>, accumulator: usize) -> Seq<u64>
    decreases log.len(),
{
    if log.len() == 0 {
        Seq::empty()
    } else {
        let rest = log_filter(log.drop_last(), accumulator);
        if log.last().0 == accumulator {
            rest.push(log.last().1)
        } else {
            rest
        }
    }
}

/// `a` is an initial segment of `b`.
pub open spec fn seq_prefix<T>(a: Seq<T>, b: Seq<T>) -> bool {
    a.len() <= b.len() && forall|i: int| 0 <= i < a.len() ==> a[i] == b[i]
}

/// What one slot may look like after a fetch: inputs and accumulators
/// are untouched, a query keeps its configuration (only memos move).
pub open spec fn fetch_slot_rel(a: Slot, b: Slot) -> bool {
    match a {
        Slot::Input(_) => b == a,
        Slot::Accumulator => b == a,
        Slot::Function(fa) => b is Function && b->Function_0.def == fa.def,
    }
}

/// What every fetch preserves: the registry's shape and configurations,
/// every input cell, the clock, the cancellation flag, the durability
/// ledger, and — the stability that callers rely on — every memo already
/// verified at the current revision.
pub open spec fn fetch_preserves(pre: Database, post: Database) -> bool {
    &&& post.slot_count() == pre.slot_count()
    &&& forall|s: int|
        0 <= s < pre.slot_count() ==> fetch_slot_rel(#[trigger] pre.slots@[s], post.slots@[s])
    &&& post.runtime.revision == pre.runtime.revision
    &&& post.runtime.cancel_pending == pre.runtime.cancel_pending
    &&& post.runtime.changed_low == pre.runtime.changed_low
    &&& post.runtime.changed_medium == pre.runtime.changed_medium
    &&& post.runtime.changed_high == pre.runtime.changed_high
    &&& forall|s: int, k: u64| #[trigger]
        pre.memo_fresh(s, k) ==> post.memo_of(s, k) == pre.memo_of(s, k)
}

/// The memos of every pair that was already on the active stack are
/// untouched: an enclosing computation never has its slot overwritten
/// underneath it.
pub open spec fn preserves_active(pre: Database, post: Database) -> bool {
    forall|s: usize, k: u64|
        #[trigger] crate::runtime::stack_has_pair(pre.runtime.stack@, s, k) ==> post.memo_of(
            s as int,
            k,
        ) == pre.memo_of(s as int, k)
}

/// The dependency named by `e` has been re-verified and did not change
/// after revision `vat`: its current `changed_at` is at most `vat`.
pub open spec fn dep_unchanged_in(db: Database, e: Edge, vat: Revision) -> bool {
    if db.is_input(e.ingredient as int) {
        match db.cell_of(e.ingredient as int, e.key) {
            Some(c) => c.changed_at.number <= vat.number,
            None => false,
        }
    } else {
        match db.memo_of(e.ingredient as int, e.key) {
            Some(m) => m.changed_at.number <= vat.number,
            None => false,
        }
    }
}

/// A body with no nested fetch: its value is a function of the input
/// cells alone.
pub open spec fn fetch_free(e: Expr) -> bool
    decreases e,
{
    match e {
        Expr::Literal(_) => true,
        Expr::Input(_, _) => true,
        Expr::Fetch(_, _) => false,
        Expr::Sum(a, b) => fetch_free(*a) && fetch_free(*b),
        Expr::Emit(_, x) => fetch_free(*x),
        Expr::UntrackedRead(_) => true,
    }
}

/// The saturating sum the engine computes for `Sum` nodes.
pub open spec fn sat_add(x: u64, y: u64) -> u64 {
    if x + y > u64::MAX {
        u64::MAX
    } else {
        (x + y) as u64
    }
}

/// The meaning of a fetch-free body over a slot table: what evaluating
/// it from scratch against the current inputs yields, or nothing if it
/// reads an input that was never set.
pub open spec fn eval_pure(slots: Seq<Slot>, e: Expr) -> Option<u64>
    decreases e,
{
    match e {
        Expr::Literal(v) => Some(v),
        Expr::Input(s, k) => if input_at(slots, s as int) && slots[s as int]
            ->Input_0.cells@.contains_key(k) {
            Some(slots[s as int]->Input_0.cells@[k].value)
        } else {
            None
        },
        Expr::Fetch(_, _) => None,
        Expr::Sum(a, b) => match (eval_pure(slots, *a), eval_pure(slots, *b)) {
            (Some(x), Some(y)) => Some(sat_add(x, y)),
            _ => None,
        },
        Expr::Emit(_, x) => eval_pure(slots, *x),
        Expr::UntrackedRead(v) => Some(v),
    }
}

/// The meaning of a fetch-free body is untouched by anything a fetch
/// preserves: input cells do not move.
pub proof fn lemma_eval_pure_stable(a: Seq<Slot>, b: Seq<Slot>, e: Expr)
    requires
        b.len() == a.len(),
        forall|s: int| 0 <= s < a.len() ==> fetch_slot_rel(#[trigger] a[s], b[s]),
    ensures
        eval_pure(b, e) == eval_pure(a, e),
    decreases e,
{
    match e {
        Expr::Input(s, _) => {
            if 0 <= s < a.len() {
                assert(fetch_slot_rel(a[s as int], b[s as int]));
            }
        },
        Expr::Sum(x, y) => {
            lemma_eval_pure_stable(a, b, *x);
            lemma_eval_pure_stable(a, b, *y);
        },
        Expr::Emit(_, x) => {
            lemma_eval_pure_stable(a, b, *x);
        },
        _ => {},
    }
}

/// The (accumulator, value) pairs a fetch-free body pushes, in push
/// order, when it evaluates against the given slot table.
pub open spec fn pure_emits(slots: Seq<Slot>, e: Expr) -> Seq<(usize, u64)>
    decreases e,
{
    match e {
        Expr::Literal(_) => Seq::empty(),
        Expr::Input(_, _) => Seq::empty(),
        Expr::Fetch(_, _) => Seq::empty(),
        Expr::Sum(a, b) => pure_emits(slots, *a) + pure_emits(slots, *b),
        Expr::Emit(s, x) => match eval_pure(slots, *x) {
            Some(v) => pure_emits(slots, *x).push((s, v)),
            None => pure_emits(slots, *x),
        },
        Expr::UntrackedRead(_) => Seq::empty(),
    }
}

/// What a fetch-free body emits is untouched by anything a fetch
/// preserves, for the same reason its value is.
pub proof fn lemma_pure_emits_stable(a: Seq<Slot>, b: Seq<Slot>, e: Expr)
    requires
        b.len() == a.len(),
        forall|s: int| 0 <= s < a.len() ==> fetch_slot_rel(#[trigger] a[s], b[s]),
    ensures
        pure_emits(b, e) == pure_emits(a, e),
    decreases e,
{
    match e {
        Expr::Sum(x, y) => {
            lemma_pure_emits_stable(a, b, *x);
            lemma_pure_emits_stable(a, b, *y);
        },
        Expr::Emit(_, x) => {
            lemma_pure_emits_stable(a, b, *x);
            lemma_eval_pure_stable(a, b, *x);
        },
        _ => {},
    }
}

/// The body syntactically performs a fetch of this pair.  Bodies are
/// evaluated strictly, so every mentioned fetch is attempted (unless an
/// earlier read already failed).
pub open spec fn mentions_fetch(e: Expr, s: usize, k: u64) -> bool
    decreases e,
{
    match e {
        Expr::Fetch(s2, k2) => s2 == s && k2 == k,
        Expr::Sum(a, b) => mentions_fetch(*a, s, k) || mentions_fetch(*b, s, k),
        Expr::Emit(_, x) => mentions_fetch(*x, s, k),
        _ => false,
    }
}

/// Every error names its cause: an input-not-set error always carries
/// a real input slot whose cell for that key is absent.
pub open spec fn error_cause_ok(pre: Database, e: QueryError) -> bool {
    match e {
        QueryError::InputNotSet { ingredient, key } => pre.is_input(ingredient as int)
            && pre.cell_of(ingredient as int, key) is None,
        _ => true,
    }
}

/// The cause of an input-not-set error is stable under anything a fetch
/// preserves, because input cells do not move.
pub proof fn lemma_error_cause_transfers(pre: Database, mid: Database, e: QueryError)
    requires
        fetch_preserves(pre, mid),
        error_cause_ok(mid, e),
    ensures
        error_cause_ok(pre, e),
{
    match e {
        QueryError::InputNotSet { ingredient, key } => {
            assert(fetch_slot_rel(
                pre.slots@[ingredient as int],
                mid.slots@[ingredient as int],
            ));
        },
        _ => {},
    }
}

/// The hypothesis of backdating, seen from a fetch of (slot, key) whose
/// stored memo had model `m0`: the memo is tracked, the pair is not
/// re-entrant, no recorded edge points at the pair itself or at a pair
/// already active, and — in the post state, after each dependency has
/// been re-verified — no dependency changed after `m0.verified_at`.
pub open spec fn deps_still_valid(
    pre: Database,
    post: Database,
    slot: usize,
    key: u64,
    m0: crate::storage::MemoModel,
) -> bool {
    &&& !m0.untracked
    &&& !crate::runtime::stack_has_pair(pre.runtime.stack@, slot, key)
    &&& forall|i: int|
        0 <= i < m0.deps.len() ==> ({
            let e = #[trigger] m0.deps[i];
            &&& !(e.ingredient == slot && e.key == key)
            &&& !crate::runtime::stack_has_pair(pre.runtime.stack@, e.ingredient, e.key)
            &&& dep_unchanged_in(post, e, m0.verified_at)
        })
}

/// What evaluating part of a body does to the active stack: the frames
/// below stay, the innermost frame keeps its identity and only grows its
/// dependency list and log.
pub open spec fn stack_extended(pre: Seq<Frame>, post: Seq<Frame>) -> bool {
    &&& post.len() == pre.len()
    &&& pre.len() > 0
    &&& forall|i: int| 0 <= i < pre.len() - 1 ==> post[i] == pre[i]
    &&& post.last().ingredient == pre.last().ingredient
    &&& post.last().key == pre.last().key
    &&& seq_prefix(pre.last().deps@, post.last().deps@)
    &&& seq_prefix(pre.last().log@, post.last().log@)
    &&& (pre.last().untracked ==> post.last().untracked)
}

pub proof fn lemma_fetch_preserves_refl(a: Database)
    ensures
        fetch_preserves(a, a),
{
    assert forall|s: int| 0 <= s < a.slot_count() implies fetch_slot_rel(
        #[trigger] a.slots@[s],
        a.slots@[s],
    ) by {}
}

pub proof fn lemma_fetch_preserves_trans(a: Database, b: Database, c: Database)
    requires
        fetch_preserves(a, b),
        fetch_preserves(b, c),
    ensures
        fetch_preserves(a, c),
{
    assert forall|s: int| 0 <= s < a.slot_count() implies fetch_slot_rel(
        #[trigger] a.slots@[s],
        c.slots@[s],
    ) by {
        assert(fetch_slot_rel(a.slots@[s], b.slots@[s]));
        assert(fetch_slot_rel(b.slots@[s], c.slots@[s]));
    }
    assert forall|s: int, k: u64| #[trigger] a.memo_fresh(s, k) implies c.memo_of(s, k)
        == a.memo_of(s, k) by {
        assert(b.memo_of(s, k) == a.memo_of(s, k));
        assert(fetch_slot_rel(a.slots@[s], b.slots@[s]));
        assert(b.memo_fresh(s, k));
        assert(c.memo_of(s, k) == b.memo_of(s, k));
    }
}

/// A step that leaves the slot table untouched trivially preserves what
/// a fetch preserves, provided the clock, flag and ledger agree.
pub proof fn lemma_fetch_preserves_same_slots(a: Database, b: Database)
    requires
        b.slots == a.slots,
        b.runtime.revision == a.runtime.revision,
        b.runtime.cancel_pending == a.runtime.cancel_pending,
        b.runtime.changed_low == a.runtime.changed_low,
        b.runtime.changed_medium == a.runtime.changed_medium,
        b.runtime.changed_high == a.runtime.changed_high,
    ensures
        fetch_preserves(a, b),
{
    assert forall|s: int| 0 <= s < a.slot_count() implies fetch_slot_rel(
        #[trigger] a.slots@[s],
        b.slots@[s],
    ) by {
        assert(b.slots@[s] == a.slots@[s]);
    }
    assert forall|s: int, k: u64| #[trigger] a.memo_fresh(s, k) implies b.memo_of(s, k)
        == a.memo_of(s, k) by {}
}

/// Extending the innermost frame keeps exactly the pairs that were
/// active: cycle detection sees the same set before and after.
pub proof fn lemma_same_pairs(pre: Seq<Frame>, post: Seq<Frame>)
    requires
        post.len() == pre.len(),
        pre.len() > 0,
        forall|i: int| 0 <= i < pre.len() - 1 ==> post[i] == pre[i],
        post.last().ingredient == pre.last().ingredient,
        post.last().key == pre.last().key,
    ensures
        forall|s: usize, k: u64|
            #[trigger] crate::runtime::stack_has_pair(pre, s, k)
                <==> crate::runtime::stack_has_pair(post, s, k),
{
    assert forall|s: usize, k: u64|
        #[trigger] crate::runtime::stack_has_pair(pre, s, k) implies crate::runtime::stack_has_pair(
        post,
        s,
        k,
    ) by {
        let i = choose|i: int|
            0 <= i < pre.len() && (#[trigger] pre[i]).ingredient == s && pre[i].key == k;
        assert(post[i].ingredient == s && post[i].key == k);
    }
    assert forall|s: usize, k: u64|
        #[trigger] crate::runtime::stack_has_pair(post, s, k) implies crate::runtime::stack_has_pair(
        pre,
        s,
        k,
    ) by {
        let i = choose|i: int|
            0 <= i < post.len() && (#[trigger] post[i]).ingredient == s && post[i].key == k;
        assert(pre[i].ingredient == s && pre[i].key == k);
    }
}

/// Storing a memo for a key that was not fresh preserves everything a
/// fetch promises to preserve.
pub proof fn lemma_fetch_preserves_after_store(a: Database, b: Database, slot: usize, key: u64)
    requires
        a.is_function(slot as int),
        !a.memo_fresh(slot as int, key),
        b.runtime == a.runtime,
        b.slot_count() == a.slot_count(),
        forall|s: int| 0 <= s < a.slot_count() && s != slot ==> b.slots@[s] == a.slots@[s],
        b.is_function(slot as int),
        b.def_of(slot as int) == a.def_of(slot as int),
        exists|m: Memo| b.memos_of(slot as int) == a.memos_of(slot as int).insert(key, m),
    ensures
        fetch_preserves(a, b),
{
    assert forall|s: int| 0 <= s < a.slot_count() implies fetch_slot_rel(
        #[trigger] a.slots@[s],
        b.slots@[s],
    ) by {
        if s != slot {
            assert(b.slots@[s] == a.slots@[s]);
        }
    }
    assert forall|s: int, k: u64| #[trigger] a.memo_fresh(s, k) implies b.memo_of(s, k)
        == a.memo_of(s, k) by {
        if s != slot {
            assert(b.slots@[s] == a.slots@[s]);
        } else {
            assert(k != key);
        }
    }
}

/// A step that does not move the slot table touches no memo at all.
pub proof fn lemma_preserves_active_same_slots(a: Database, b: Database)
    requires
        b.slots == a.slots,
    ensures
        preserves_active(a, b),
{
    assert forall|s: usize, k: u64|
        #[trigger] crate::runtime::stack_has_pair(a.runtime.stack@, s, k) implies b.memo_of(
        s as int,
        k,
    ) == a.memo_of(s as int, k) by {}
}

/// Two steps that each leave the active pairs' memos alone compose, as
/// long as the intermediate stack still names the same pairs.
pub proof fn lemma_preserves_active_chain(a: Database, b: Database, c: Database)
    requires
        preserves_active(a, b),
        preserves_active(b, c),
        b.runtime.stack@.len() == a.runtime.stack@.len(),
        a.runtime.stack@.len() > 0,
        forall|i: int|
            0 <= i < a.runtime.stack@.len() - 1 ==> b.runtime.stack@[i] == a.runtime.stack@[i],
        b.runtime.stack@.last().ingredient == a.runtime.stack@.last().ingredient,
        b.runtime.stack@.last().key == a.runtime.stack@.last().key,
    ensures
        preserves_active(a, c),
{
    lemma_same_pairs(a.runtime.stack@, b.runtime.stack@);
    assert forall|s: usize, k: u64|
        #[trigger] crate::runtime::stack_has_pair(a.runtime.stack@, s, k) implies c.memo_of(
        s as int,
        k,
    ) == a.memo_of(s as int, k) by {
        assert(crate::runtime::stack_has_pair(b.runtime.stack@, s, k));
    }
}

/// Whatever a fetch preserves keeps bodies addressable.
pub proof fn lemma_body_ok_after_preserves(a: Database, b: Database, e: Expr)
    requires
        fetch_preserves(a, b),
        crate::database::body_ok(a.slots@, e),
    ensures
        crate::database::body_ok(b.slots@, e),
{
    assert forall|s: int|
        0 <= s < a.slots@.len() implies ((a.slots@[s] is Input <==> (#[trigger] b.slots@[s])
        is Input) && (a.slots@[s] is Function <==> b.slots@[s] is Function) && (a.slots@[s]
        is Accumulator <==> b.slots@[s] is Accumulator)) by {
        assert(fetch_slot_rel(a.slots@[s], b.slots@[s]));
    }
    lemma_body_ok_same_kinds(a.slots@, b.slots@, e);
}

/// Popping the frame that a fetch pushed restores the caller's view:
/// the pairs that were active before the push kept their memos.
pub proof fn lemma_active_exit(db0: Database, pushed: Database, fin: Database)
    requires
        pushed.slots == db0.slots,
        pushed.runtime.stack@.len() == db0.runtime.stack@.len() + 1,
        forall|i: int|
            0 <= i < db0.runtime.stack@.len() ==> pushed.runtime.stack@[i]
                == db0.runtime.stack@[i],
        preserves_active(pushed, fin),
    ensures
        preserves_active(db0, fin),
{
    assert forall|s: usize, k: u64|
        #[trigger] crate::runtime::stack_has_pair(db0.runtime.stack@, s, k) implies fin.memo_of(
        s as int,
        k,
    ) == db0.memo_of(s as int, k) by {
        let i = choose|i: int|
            0 <= i < db0.runtime.stack@.len() && (#[trigger] db0.runtime.stack@[i]).ingredient
                == s && db0.runtime.stack@[i].key == k;
        assert(pushed.runtime.stack@[i].ingredient == s && pushed.runtime.stack@[i].key == k);
        assert(crate::runtime::stack_has_pair(pushed.runtime.stack@, s, k));
    }
}

/// Committing a memo for the pair this fetch pushed leaves every pair
/// that was active in the caller untouched.
pub proof fn lemma_active_after_commit(
    db0: Database,
    pushed: Database,
    before_store: Database,
    stored: Database,
    fin: Database,
    slot: usize,
    key: u64,
)
    requires
        pushed.slots == db0.slots,
        pushed.runtime.stack@.len() == db0.runtime.stack@.len() + 1,
        forall|i: int|
            0 <= i < db0.runtime.stack@.len() ==> pushed.runtime.stack@[i]
                == db0.runtime.stack@[i],
        forall|i: int|
            0 <= i < db0.runtime.stack@.len() ==> frame_ok(
                db0.slots@,
                #[trigger] db0.runtime.stack@[i],
            ),
        before_store.slot_count() == db0.slot_count(),
        !crate::runtime::stack_has_pair(db0.runtime.stack@, slot, key),
        preserves_active(pushed, before_store),
        stored.slot_count() == before_store.slot_count(),
        forall|s: int|
            0 <= s < before_store.slot_count() && s != slot ==> stored.slots@[s]
                == before_store.slots@[s],
        stored.is_function(slot as int),
        exists|m: Memo|
            stored.memos_of(slot as int) == before_store.memos_of(slot as int).insert(key, m),
        fin.slots == stored.slots,
    ensures
        preserves_active(db0, fin),
{
    assert forall|s: usize, k: u64|
        #[trigger] crate::runtime::stack_has_pair(db0.runtime.stack@, s, k) implies fin.memo_of(
        s as int,
        k,
    ) == db0.memo_of(s as int, k) by {
        let i = choose|i: int|
            0 <= i < db0.runtime.stack@.len() && (#[trigger] db0.runtime.stack@[i]).ingredient
                == s && db0.runtime.stack@[i].key == k;
        assert(pushed.runtime.stack@[i].ingredient == s && pushed.runtime.stack@[i].key == k);
        assert(crate::runtime::stack_has_pair(pushed.runtime.stack@, s, k));
        assert(before_store.memo_of(s as int, k) == pushed.memo_of(s as int, k));
        assert(frame_ok(db0.slots@, db0.runtime.stack@[i]));
        assert(function_at(db0.slots@, s as int));
        if s as int != slot as int {
            assert(stored.slots@[s as int] == before_store.slots@[s as int]);
        } else {
            assert(k != key);
        }
        assert(stored.memo_of(s as int, k) == before_store.memo_of(s as int, k));
        assert(fin.memo_of(s as int, k) == stored.memo_of(s as int, k));
    }
}

/// An exact copy of a dependency list.
fn copy_edges(v: &Vec<Edge>) -> (r: Vec<Edge>)
    ensures
        r@ == v@,
{
    let mut r: Vec<Edge> = Vec::new();
    let mut i: usize = 0;
    while i < v.len()
        invariant
            0 <= i <= v@.len(),
            r@ == v@.subrange(0, i as int),
        decreases v@.len() - i,
    {
        r.push(v[i]);
        proof {
            assert(r@ =~= v@.subrange(0, i + 1 as int));
        }
        i += 1;
    }
    proof {
        assert(r@ =~= v@);
    }
    r
}

/// An exact copy of an accumulator log.
fn copy_log(v: &Vec<(usize, u64)>) -> (r: Vec<(usize, u64)>)
    ensures
        r@ == v@,
{
    let mut r: Vec<(usize, u64)> = Vec::new();
    let mut i: usize = 0;
    while i < v.len()
        invariant
            0 <= i <= v@.len(),
            r@ == v@.subrange(0, i as int),
        decreases v@.len() - i,
    {
        r.push(v[i]);
        proof {
            assert(r@ =~= v@.subrange(0, i + 1 as int));
        }
        i += 1;
    }
    proof {
        assert(r@ =~= v@);
    }
    r
}

/// An exact copy of a query body, so that it can be evaluated while the
/// database is borrowed mutably.
fn clone_body(e: &Expr) -> (r: Expr)
    ensures
        r == *e,
    decreases *e,
{
    match e {
        Expr::Literal(v) => Expr::Literal(*v),
        Expr::Input(s, k) => Expr::Input(*s, *k),
        Expr::Fetch(s, k) => Expr::Fetch(*s, *k),
        Expr::Sum(a, b) => Expr::Sum(Box::new(clone_body(a)), Box::new(clone_body(b))),
        Expr::Emit(s, x) => Expr::Emit(*s, Box::new(clone_body(x))),
        Expr::UntrackedRead(v) => Expr::UntrackedRead(*v),
    }
}

impl Database {
    /// An owned copy of the memo stored for this key, if any.
    fn read_memo(&self, slot: usize, key: u64) -> (r: Option<Memo>)
        requires
            self.wf(),
            self.is_function(slot as int),
        ensures
            r is Some <==> self.memo_of(slot as int, key) is Some,
            r matches Some(c) ==> c@ == self.memo_of(slot as int, key)->Some_0@,
    {
        match &self.slots[slot] {
            Slot::Function(fs) => match fs.memos.get(&key) {
                Some(m) => {
                    let copy = Memo {
                        value: m.value,
                        verified_at: m.verified_at,
                        changed_at: m.changed_at,
                        durability: m.durability,
                        deps: copy_edges(&m.deps),
                        untracked: m.untracked,
                        log: copy_log(&m.log),
                        executions: m.executions,
                    };
                    proof {
                        assert(self.memos_of(slot as int) == fs.memos@);
                        assert(fs.memos@.contains_key(key) && fs.memos@[key] == *m);
                        assert(copy@ =~= m@);
                    }
                    Some(copy)
                },
                None => None,
            },
            _ => None,
        }
    }

    /// An owned copy of the query configuration's body.
    fn read_body(&self, slot: usize) -> (r: Expr)
        requires
            self.wf(),
            self.is_function(slot as int),
        ensures
            r == self.def_of(slot as int).body,
    {
        match &self.slots[slot] {
            Slot::Function(fs) => clone_body(&fs.def.body),
            _ => Expr::Literal(0),
        }
    }

    /// Whether value-equality backdating is disabled for this query.
    fn read_no_eq(&self, slot: usize) -> (r: bool)
        requires
            self.wf(),
            self.is_function(slot as int),
        ensures
            r == self.def_of(slot as int).no_eq,
    {
        match &self.slots[slot] {
            Slot::Function(fs) => fs.def.no_eq,
            _ => false,
        }
    }

    /// The cycle recovery policy of this query.
    fn read_policy(&self, slot: usize) -> (r: crate::support::CyclePolicy)
        requires
            self.wf(),
            self.is_function(slot as int),
        ensures
            r == self.def_of(slot as int).policy,
    {
        match &self.slots[slot] {
            Slot::Function(fs) => fs.def.policy,
            _ => crate::support::CyclePolicy::Panic,
        }
    }

    /// Store (or overwrite) the memo for one key of one query slot.
    fn store_memo(&mut self, slot: usize, key: u64, memo: Memo)
        requires
            old(self).wf(),
            old(self).is_function(slot as int),
            memo_ok(old(self).slots@, old(self).rev(), memo),
        ensures
            final(self).wf(),
            final(self).runtime == old(self).runtime,
            final(self).slot_count() == old(self).slot_count(),
            forall|s: int|
                0 <= s < old(self).slot_count() && s != slot ==> final(self).slots@[s] == old(
                    self,
                ).slots@[s],
            final(self).is_function(slot as int),
            final(self).def_of(slot as int) == old(self).def_of(slot as int),
            final(self).memos_of(slot as int) == old(self).memos_of(slot as int).insert(key, memo),
    {
        let removed = self.slots.remove(slot);
        match removed {
            Slot::Function(mut fs) => {
                fs.memos.insert(key, memo);
                self.slots.insert(slot, Slot::Function(fs));
            },
            other => {
                // Unreachable: the slot is a query by precondition.
                self.slots.insert(slot, other);
            },
        }
        proof {
            let pre = old(self).slots@;
            let post = self.slots@;
            assert(post =~= pre.update(slot as int, post[slot as int]));
            assert forall|s: int| #[trigger] function_at(post, s) implies crate::database::body_ok(
                post,
                self.def_of(s).body,
            ) by {
                assert(function_at(pre, s));
                assert(self.def_of(s) == old(self).def_of(s));
                lemma_body_ok_same_kinds(pre, post, old(self).def_of(s).body);
            }
            assert forall|s: int, k: u64| function_at(post, s) implies match #[trigger] self
                .memo_of(s, k) {
                Some(m) => memo_ok(post, self.rev(), m),
                None => true,
            } by {
                if s == slot as int && k == key {
                    lemma_memo_ok_same_kinds(pre, post, old(self).rev(), self.rev(), memo);
                } else {
                    assert(self.memo_of(s, k) == old(self).memo_of(s, k));
                    if old(self).memo_of(s, k) is Some {
                        lemma_memo_ok_same_kinds(
                            pre,
                            post,
                            old(self).rev(),
                            self.rev(),
                            old(self).memo_of(s, k)->Some_0,
                        );
                    }
                }
            }
            assert forall|s: int, k: u64| input_at(post, s) implies match #[trigger] self.cell_of(
                s,
                k,
            ) {
                Some(c) => c.changed_at.number as int <= self.rev(),
                None => true,
            } by {
                assert(self.cell_of(s, k) == old(self).cell_of(s, k));
            }
            assert forall|i: int| 0 <= i < self.runtime.stack@.len() implies frame_ok(
                post,
                self.runtime.stack@[i],
            ) by {
                assert(frame_ok(pre, old(self).runtime.stack@[i]));
                assert forall|d: int|
                    0 <= d < self.runtime.stack@[i].deps@.len() implies edge_ok(
                    post,
                    self.runtime.stack@[i].deps@[d],
                ) by {
                    assert(edge_ok(pre, old(self).runtime.stack@[i].deps@[d]));
                }
            }
        }
    }

    /// Fold a just-read dependency's durability into the innermost
    /// frame: a memo is only as durable as its least durable dependency.
    fn fold_durability(&mut self, d: Durability)
        requires
            old(self).wf(),
            old(self).runtime.stack@.len() > 0,
        ensures
            final(self).wf(),
            final(self).slots == old(self).slots,
            final(self).runtime.revision == old(self).runtime.revision,
            final(self).runtime.cancel_pending == old(self).runtime.cancel_pending,
            final(self).runtime.changed_low == old(self).runtime.changed_low,
            final(self).runtime.changed_medium == old(self).runtime.changed_medium,
            final(self).runtime.changed_high == old(self).runtime.changed_high,
            ({
                let pre = old(self).runtime.stack@;
                let post = final(self).runtime.stack@;
                &&& post.len() == pre.len()
                &&& forall|i: int| 0 <= i < pre.len() - 1 ==> post[i] == pre[i]
                &&& post.last().ingredient == pre.last().ingredient
                &&& post.last().key == pre.last().key
                &&& post.last().untracked == pre.last().untracked
                &&& post.last().deps == pre.last().deps
                &&& post.last().log == pre.last().log
                &&& post.last().durability.rank() == (if pre.last().durability.rank()
                    <= d.rank() {
                    pre.last().durability.rank()
                } else {
                    d.rank()
                })
            }),
    {
        let mut f = self.runtime.stack.pop().unwrap();
        f.durability = min_durability(f.durability, d);
        self.runtime.stack.push(f);
        proof {
            let pre = old(self).runtime.stack@;
            let post = self.runtime.stack@;
            assert forall|i: int| 0 <= i < post.len() implies frame_ok(self.slots@, post[i]) by {
                assert(frame_ok(old(self).slots@, pre[i]));
                if i < post.len() - 1 {
                    assert(post[i] == pre[i]);
                } else {
                    assert(post[i].deps == pre[i].deps);
                }
            }
            lemma_wf_same_storage(*old(self), *self);
        }
    }

    /// Append a nested computation's whole log to the innermost frame,
    /// keeping push order: the values a dependency emitted belong to the
    /// enclosing computation too.
    fn append_log_to_top(&mut self, entries: &Vec<(usize, u64)>)
        requires
            old(self).wf(),
            old(self).runtime.stack@.len() > 0,
        ensures
            final(self).wf(),
            final(self).slots == old(self).slots,
            final(self).runtime.revision == old(self).runtime.revision,
            final(self).runtime.cancel_pending == old(self).runtime.cancel_pending,
            final(self).runtime.changed_low == old(self).runtime.changed_low,
            final(self).runtime.changed_medium == old(self).runtime.changed_medium,
            final(self).runtime.changed_high == old(self).runtime.changed_high,
            ({
                let pre = old(self).runtime.stack@;
                let post = final(self).runtime.stack@;
                &&& post.len() == pre.len()
                &&& forall|i: int| 0 <= i < pre.len() - 1 ==> post[i] == pre[i]
                &&& post.last().ingredient == pre.last().ingredient
                &&& post.last().key == pre.last().key
                &&& post.last().untracked == pre.last().untracked
                &&& post.last().durability == pre.last().durability
                &&& post.last().deps == pre.last().deps
                &&& post.last().log@ == pre.last().log@ + entries@
            }),
    {
        let mut f = self.runtime.stack.pop().unwrap();
        let mut i: usize = 0;
        while i < entries.len()
            invariant
                0 <= i <= entries@.len(),
                f.log@ == old(self).runtime.stack@.last().log@ + entries@.subrange(0, i as int),
                f.ingredient == old(self).runtime.stack@.last().ingredient,
                f.key == old(self).runtime.stack@.last().key,
                f.untracked == old(self).runtime.stack@.last().untracked,
                f.durability == old(self).runtime.stack@.last().durability,
                f.deps == old(self).runtime.stack@.last().deps,
            decreases entries@.len() - i,
        {
            f.log.push(entries[i]);
            proof {
                assert(f.log@ =~= old(self).runtime.stack@.last().log@ + entries@.subrange(
                    0,
                    i + 1 as int,
                ));
            }
            i += 1;
        }
        proof {
            assert(f.log@ =~= old(self).runtime.stack@.last().log@ + entries@);
        }
        self.runtime.stack.push(f);
        proof {
            let pre = old(self).runtime.stack@;
            let post = self.runtime.stack@;
            assert(post.len() == pre.len());
            assert forall|i2: int| 0 <= i2 < post.len() implies frame_ok(self.slots@, post[i2]) by {
                assert(frame_ok(old(self).slots@, pre[i2]));
                if i2 < post.len() - 1 {
                    assert(post[i2] == pre[i2]);
                } else {
                    assert(post[i2].deps == pre[i2].deps);
                }
            }
            lemma_wf_same_storage(*old(self), *self);
        }
    }

    /// An owned copy of the input cell stored for this key, if any.
    fn read_cell(&self, slot: usize, key: u64) -> (r: Option<InputCell>)
        requires
            self.wf(),
            self.is_input(slot as int),
        ensures
            r == self.cell_of(slot as int, key),
    {
        match &self.slots[slot] {
            Slot::Input(store) => match store.cells.get(&key) {
                Some(c) => Some(*c),
                None => None,
            },
            _ => None,
        }
    }

    fn slot_is_input(&self, s: usize) -> (r: bool)
        requires
            self.wf(),
        ensures
            r == self.is_input(s as int),
    {
        if s < self.slots.len() {
            matches!(&self.slots[s], Slot::Input(_))
        } else {
            false
        }
    }

    /// The revision at or after which an input at least as durable as
    /// `d` may last have been written.
    fn last_changed_for(&self, d: Durability) -> (r: u64)
        ensures
            r as int == self.runtime.last_relevant_change(d),
    {
        let low = self.runtime.changed_low.number;
        let medium = self.runtime.changed_medium.number;
        let high = self.runtime.changed_high.number;
        match d {
            Durability::High => high,
            Durability::Medium => if medium >= high {
                medium
            } else {
                high
            },
            Durability::Low => {
                let mh = if medium >= high {
                    medium
                } else {
                    high
                };
                if low >= mh {
                    low
                } else {
                    mh
                }
            },
        }
    }

    /// The depth budget handed to a top-level fetch: more than the
    /// number of fetch sites over all declared bodies, so that only a
    /// chain revisiting some pair — a cycle, which the stack check
    /// reports first — could exhaust it.
    fn depth_budget(&self) -> (r: u64)
        ensures
            r >= 2,
    {
        let mut total: u64 = 2;
        let mut s: usize = 0;
        while s < self.slots.len()
            invariant
                0 <= s <= self.slots@.len(),
                total >= 2,
            decreases self.slots@.len() - s,
        {
            let c = match &self.slots[s] {
                Slot::Function(fs) => fs.def.body.count_fetch_sites(),
                _ => 0,
            };
            total = if total <= u64::MAX - c {
                total + c
            } else {
                u64::MAX
            };
            s += 1;
        }
        total
    }

    /// One fetch of a memoized query.  In order: the cancellation
    /// checkpoint; the cache hit on a memo already verified this
    /// revision; the cycle check (re-entering an active pair applies
    /// the query's recovery policy); shallow verification of a stale
    /// memo — re-fetching each recorded dependency and comparing its
    /// current `changed_at` against the memo's `verified_at` — which on
    /// success backdates the memo without executing the body; and
    /// otherwise recomputation, recording dependencies afresh and
    /// keeping the old `changed_at` when the value provably did not
    /// change.  The caller records the returned edge on its own frame.
    fn fetch_inner(&mut self, slot: usize, key: u64, fuel: u64) -> (r: Result<
        FetchOutcome,
        QueryError,
    >)
        requires
            old(self).wf(),
            old(self).is_function(slot as int),
        ensures
            final(self).wf(),
            fetch_preserves(*old(self), *final(self)),
            preserves_active(*old(self), *final(self)),
            final(self).runtime.stack@ == old(self).runtime.stack@,
            old(self).runtime.cancel_pending ==> r == Err::<FetchOutcome, QueryError>(
                QueryError::Cancelled,
            ),
            // Success is owed on the pure fragment: a first computation
            // of a fetch-free body whose inputs are all set cannot fail
            // while no write is pending and the depth budget is live.
            (fuel >= 1 && !old(self).runtime.cancel_pending && old(self).memo_of(
                slot as int,
                key,
            ) is None && !crate::runtime::stack_has_pair(old(self).runtime.stack@, slot, key)
                && fetch_free(old(self).def_of(slot as int).body) && eval_pure(
                old(self).slots@,
                old(self).def_of(slot as int).body,
            ) is Some) ==> r is Ok,
            // A query whose body fetches its own pair aborts under the
            // Panic policy, deterministically: the re-entry is caught on
            // the active stack before any value can be produced.
            (!old(self).runtime.cancel_pending && old(self).memo_of(slot as int, key) is None
                && !crate::runtime::stack_has_pair(old(self).runtime.stack@, slot, key) && old(
                self,
            ).def_of(slot as int).policy is Panic && mentions_fetch(
                old(self).def_of(slot as int).body,
                slot,
                key,
            )) ==> r is Err,
            match r {
                Ok(out) => {
                    &&& out.changed_at.number as int <= old(self).rev()
                    &&& (old(self).memo_fresh(slot as int, key) && !old(
                        self,
                    ).runtime.cancel_pending ==> *final(self) == *old(self) && out.value == old(
                        self,
                    ).memo_of(slot as int, key)->Some_0.value && out.changed_at == old(
                        self,
                    ).memo_of(slot as int, key)->Some_0.changed_at && out.durability == old(
                        self,
                    ).memo_of(slot as int, key)->Some_0.durability)
                    &&& (!crate::runtime::stack_has_pair(old(self).runtime.stack@, slot, key)
                        ==> ({
                        let mopt = final(self).memo_of(slot as int, key);
                        &&& mopt is Some
                        &&& mopt->Some_0.verified_at == old(self).runtime.revision
                        &&& mopt->Some_0.value == out.value
                        &&& mopt->Some_0.changed_at == out.changed_at
                        &&& mopt->Some_0.durability == out.durability
                    }))
                    &&& (crate::runtime::stack_has_pair(old(self).runtime.stack@, slot, key)
                        && !old(self).memo_fresh(slot as int, key) ==> ({
                        &&& old(self).def_of(slot as int).policy is Fallback
                        &&& out.value == old(self).def_of(slot as int).policy->Fallback_0
                        &&& out.changed_at == old(self).runtime.revision
                        &&& final(self).memo_of(slot as int, key) == old(self).memo_of(
                            slot as int,
                            key,
                        )
                    }))
                    &&& (match old(self).memo_of(slot as int, key) {
                        Some(m0) => ({
                            let post_memo = final(self).memo_of(slot as int, key);
                            (!crate::runtime::stack_has_pair(old(self).runtime.stack@, slot, key)
                                && m0.executions < u64::MAX && (post_memo matches Some(m1)
                                && m1.executions == m0.executions)) ==> post_memo->Some_0@
                                == (MemoModel {
                                verified_at: old(self).runtime.revision,
                                ..m0@
                            })
                        }),
                        None => true,
                    })
                    &&& (match old(self).memo_of(slot as int, key) {
                        Some(m0) => deps_still_valid(
                            *old(self),
                            *final(self),
                            slot,
                            key,
                            m0@,
                        ) ==> ({
                            let post_memo = final(self).memo_of(slot as int, key);
                            (post_memo matches Some(m1)) && post_memo->Some_0@ == (MemoModel {
                                verified_at: old(self).runtime.revision,
                                ..m0@
                            })
                        }),
                        None => true,
                    })
                    &&& ((old(self).memo_of(slot as int, key) is None
                        && !crate::runtime::stack_has_pair(old(self).runtime.stack@, slot, key)
                        && fetch_free(old(self).def_of(slot as int).body)) ==> Some(out.value)
                        == eval_pure(final(self).slots@, old(self).def_of(slot as int).body)
                        && (final(self).memo_of(slot as int, key) matches Some(m1)
                        && m1.log@ == pure_emits(
                        final(self).slots@,
                        old(self).def_of(slot as int).body,
                    )))
                    // A first computation dates the value now: changed_at
                    // and verified_at are both the current revision.
                    &&& ((old(self).memo_of(slot as int, key) is None
                        && !crate::runtime::stack_has_pair(old(self).runtime.stack@, slot, key))
                        ==> out.changed_at == old(self).runtime.revision && (final(self).memo_of(
                        slot as int,
                        key,
                    ) matches Some(m1) && m1.executions == 1))
                    // Value-equality backdating of changed_at: when the
                    // body re-executed, changed_at stays put exactly when
                    // equality backdating is enabled and the value is
                    // provably unchanged; otherwise it tracks now.
                    &&& (match old(self).memo_of(slot as int, key) {
                        Some(m0) => ({
                            let post_memo = final(self).memo_of(slot as int, key);
                            (!crate::runtime::stack_has_pair(old(self).runtime.stack@, slot, key)
                                && (post_memo matches Some(m1) && m1.executions
                                != m0.executions)) ==> ({
                                let m1 = post_memo->Some_0;
                                &&& m1.executions == (if m0.executions < u64::MAX {
                                    (m0.executions + 1) as u64
                                } else {
                                    u64::MAX
                                })
                                &&& ((!old(self).def_of(slot as int).no_eq && m1.value
                                    == m0.value) ==> m1.changed_at == m0.changed_at)
                                &&& ((old(self).def_of(slot as int).no_eq || m1.value
                                    != m0.value) ==> m1.changed_at == old(
                                    self,
                                ).runtime.revision)
                            })
                        }),
                        None => true,
                    })
                },
                Err(e) => {
                    &&& final(self).memo_of(slot as int, key) == old(self).memo_of(
                        slot as int,
                        key,
                    )
                    &&& (e is Cancelled <==> old(self).runtime.cancel_pending)
                    &&& (e is Cancelled ==> *final(self) == *old(self))
                    &&& error_cause_ok(*old(self), e)
                    // A memo already verified at the current revision is
                    // owed: with no pending write, it cannot fail.
                    &&& !old(self).memo_fresh(slot as int, key) || old(
                        self,
                    ).runtime.cancel_pending
                },
            },
        decreases fuel, old(self).def_of(slot as int).body.size() + 1,
    {
        // Cooperative checkpoint: a pending write aborts this frame and
        // every enclosing one before any work or any memo write.
        if self.runtime.cancel_pending {
            return Err(QueryError::Cancelled);
        }
        let rev = self.current_revision();
        let old_memo = self.read_memo(slot, key);
        // Cache hit: verified at the current revision, nothing to do.
        let hit: Option<FetchOutcome> = match &old_memo {
            Some(m) => if m.verified_at.number == rev.number {
                Some(
                    FetchOutcome {
                        value: m.value,
                        changed_at: m.changed_at,
                        durability: m.durability,
                    },
                )
            } else {
                None
            },
            None => None,
        };
        if let Some(out) = hit {
            proof {
                lemma_fetch_preserves_refl(*old(self));
                let m0 = old(self).memo_of(slot as int, key)->Some_0;
                assert(m0@ =~= (MemoModel { verified_at: old(self).runtime.revision, ..m0@ }));
            }
            return Ok(out);
        }
        if fuel == 0 {
            // The budget of a top-level fetch exceeds the number of
            // distinct fetch targets, so only a chain revisiting an
            // active pair can run it out; report it as such.
            proof {
                lemma_fetch_preserves_refl(*old(self));
            }
            return Err(QueryError::Cycle(Vec::new()));
        }
        // Copy the configuration out before the table is borrowed
        // mutably.
        let body = self.read_body(slot);
        let no_eq = self.read_no_eq(slot);
        let policy = self.read_policy(slot);
        // Cycle check and frame push.
        match self.begin_query(slot, key) {
            Err(e) => {
                proof {
                    lemma_fetch_preserves_refl(*old(self));
                }
                match policy {
                    crate::support::CyclePolicy::Fallback(v) => {
                        // Recover locally: substitute the configured
                        // value for the re-entrant fetch.
                        return Ok(
                            FetchOutcome {
                                value: v,
                                changed_at: rev,
                                durability: Durability::Low,
                            },
                        );
                    },
                    crate::support::CyclePolicy::Panic => {
                        // Abort the whole computation path with the
                        // diagnostic chain.
                        return Err(e);
                    },
                }
            },
            Ok(()) => {},
        }
        let ghost db0 = *old(self);
        let ghost pushed = *self;
        proof {
            lemma_fetch_preserves_same_slots(db0, pushed);
            assert(pushed.runtime.stack@.last().ingredient == slot);
            assert(crate::runtime::stack_has_pair(pushed.runtime.stack@, slot, key));
        }
        // Extract the stale memo's parts; the memo itself stays in the
        // table until a new one replaces it.
        let mut m_deps: Vec<Edge> = Vec::new();
        let mut m_log: Vec<(usize, u64)> = Vec::new();
        let mut m_value: u64 = 0;
        let mut m_changed: Revision = Revision { number: 0 };
        let mut m_verified: Revision = Revision { number: 0 };
        let mut m_dur: Durability = Durability::Low;
        let mut m_untracked: bool = false;
        let mut m_execs: u64 = 0;
        let has_old = old_memo.is_some();
        match &old_memo {
            Some(m0) => {
                m_deps = copy_edges(&m0.deps);
                m_log = copy_log(&m0.log);
                m_value = m0.value;
                m_changed = m0.changed_at;
                m_verified = m0.verified_at;
                m_dur = m0.durability;
                m_untracked = m0.untracked;
                m_execs = m0.executions;
            },
            None => {},
        }
        // Shallow verification: without an untracked read, the memo may
        // be reused if no dependency has changed since it was verified.
        let mut verified_ok = false;
        let ghost mut bad_idx: int = 0;
        if has_old && !m_untracked {
            let cutoff = self.last_changed_for(m_dur);
            if m_verified.number >= cutoff {
                // Durability shortcut: nothing at least this durable
                // has been written since the memo was verified.
                verified_ok = true;
            } else {
                let mut deps_ok = true;
                let mut i: usize = 0;
                while deps_ok && i < m_deps.len()
                    invariant
                        self.wf(),
                        db0 == *old(self),
                        db0.wf(),
                        db0.is_function(slot as int),
                        pushed.slots == db0.slots,
                        !pushed.runtime.cancel_pending,
                        pushed.runtime.stack@.len() == db0.runtime.stack@.len() + 1,
                        forall|j: int|
                            0 <= j < db0.runtime.stack@.len() ==> pushed.runtime.stack@[j]
                                == db0.runtime.stack@[j],
                        pushed.runtime.stack@.len() > 0,
                        fuel >= 1,
                        !db0.runtime.cancel_pending,
                        fetch_preserves(db0, pushed),
                        fetch_preserves(pushed, *self),
                        preserves_active(pushed, *self),
                        self.runtime.stack@ == pushed.runtime.stack@,
                        crate::runtime::stack_has_pair(pushed.runtime.stack@, slot, key),
                        pushed.runtime.stack@.last().ingredient == slot,
                        pushed.runtime.stack@.last().key == key,
                        !db0.memo_fresh(slot as int, key),
                        db0.memo_of(slot as int, key) is Some,
                        pushed.memo_of(slot as int, key) == db0.memo_of(slot as int, key),
                        0 <= i <= m_deps@.len(),
                        forall|d: int|
                            0 <= d < m_deps@.len() ==> edge_ok(
                                pushed.slots@,
                                #[trigger] m_deps@[d],
                            ),
                        !deps_ok ==> ({
                            &&& 0 <= bad_idx < m_deps@.len()
                            &&& ({
                                let e = m_deps@[bad_idx];
                                ||| (e.ingredient == slot && e.key == key)
                                ||| crate::runtime::stack_has_pair(
                                    db0.runtime.stack@,
                                    e.ingredient,
                                    e.key,
                                )
                                ||| (db0.is_input(e.ingredient as int) && !dep_unchanged_in(
                                    *self,
                                    e,
                                    m_verified,
                                ))
                                ||| (!db0.is_input(e.ingredient as int) && self.memo_fresh(
                                    e.ingredient as int,
                                    e.key,
                                ) && self.memo_of(e.ingredient as int, e.key)
                                    ->Some_0.changed_at.number > m_verified.number)
                            })
                        }),
                    decreases m_deps@.len() - i,
                {
                    let e = m_deps[i];
                    proof {
                        assert(edge_ok(pushed.slots@, e));
                        assert(fetch_slot_rel(pushed.slots@[e.ingredient as int], self.slots@[e.ingredient as int]));
                    }
                    if self.slot_is_input(e.ingredient) {
                        match self.read_cell(e.ingredient, e.key) {
                            Some(c) => {
                                if c.changed_at.number > m_verified.number {
                                    proof {
                                        bad_idx = i as int;
                                        assert(pushed.slots@[e.ingredient as int] is Input);
                                        assert(db0.is_input(e.ingredient as int));
                                        assert(!dep_unchanged_in(*self, e, m_verified));
                                    }
                                    deps_ok = false;
                                }
                            },
                            None => {
                                proof {
                                    bad_idx = i as int;
                                    assert(pushed.slots@[e.ingredient as int] is Input);
                                    assert(db0.is_input(e.ingredient as int));
                                    assert(!dep_unchanged_in(*self, e, m_verified));
                                }
                                deps_ok = false;
                            },
                        }
                    } else {
                        let ghost before = *self;
                        match self.fetch_inner(e.ingredient, e.key, fuel - 1) {
                            Ok(out) => {
                                proof {
                                    lemma_fetch_preserves_trans(pushed, before, *self);
                                    lemma_preserves_active_chain(pushed, before, *self);
                                }
                                if out.changed_at.number > m_verified.number {
                                    proof {
                                        bad_idx = i as int;
                                        assert(!(pushed.slots@[e.ingredient as int] is Input));
                                        assert(!db0.is_input(e.ingredient as int));
                                        if crate::runtime::stack_has_pair(
                                            before.runtime.stack@,
                                            e.ingredient,
                                            e.key,
                                        ) {
                                            let j = choose|j: int|
                                                0 <= j < pushed.runtime.stack@.len() && (
                                                #[trigger] pushed.runtime.stack@[j]).ingredient
                                                    == e.ingredient
                                                    && pushed.runtime.stack@[j].key == e.key;
                                            if j < db0.runtime.stack@.len() {
                                                assert(db0.runtime.stack@[j].ingredient
                                                    == e.ingredient && db0.runtime.stack@[j].key
                                                    == e.key);
                                                assert(crate::runtime::stack_has_pair(
                                                    db0.runtime.stack@,
                                                    e.ingredient,
                                                    e.key,
                                                ));
                                            } else {
                                                assert(pushed.runtime.stack@[j]
                                                    == pushed.runtime.stack@.last());
                                                assert(e.ingredient == slot && e.key == key);
                                            }
                                        } else {
                                            assert(self.memo_fresh(e.ingredient as int, e.key));
                                            assert(self.memo_of(e.ingredient as int, e.key)
                                                ->Some_0.changed_at == out.changed_at);
                                        }
                                    }
                                    deps_ok = false;
                                }
                            },
                            Err(err) => {
                                proof {
                                    lemma_fetch_preserves_trans(pushed, before, *self);
                                    lemma_preserves_active_chain(pushed, before, *self);
                                    lemma_fetch_preserves_trans(db0, pushed, before);
                                    lemma_error_cause_transfers(db0, before, err);
                                    assert(!(err is Cancelled));
                                    assert(self.memo_of(slot as int, key) == pushed.memo_of(
                                        slot as int,
                                        key,
                                    ));
                                }
                                let ghost werr = *self;
                                let _ = self.end_query();
                                proof {
                                    lemma_fetch_preserves_same_slots(werr, *self);
                                    lemma_fetch_preserves_trans(db0, pushed, werr);
                                    lemma_fetch_preserves_trans(db0, werr, *self);
                                    lemma_preserves_active_same_slots(werr, *self);
                                    lemma_preserves_active_chain(pushed, werr, *self);
                                    lemma_active_exit(db0, pushed, *self);
                                    assert(self.runtime.stack@ =~= db0.runtime.stack@);
                                }
                                return Err(err);
                            },
                        }
                    }
                    i += 1;
                }
                verified_ok = deps_ok;
            }
        }
        if verified_ok {
            // Backdate: the old value is still valid; confirm it at the
            // current revision without executing the body.
            let new_memo = Memo {
                value: m_value,
                verified_at: rev,
                changed_at: m_changed,
                durability: m_dur,
                deps: m_deps,
                untracked: m_untracked,
                log: m_log,
                executions: m_execs,
            };
            let ghost before_store = *self;
            proof {
                assert(memo_ok(db0.slots@, db0.rev(), db0.memo_of(slot as int, key)->Some_0));
                assert forall|d: int| 0 <= d < new_memo.deps@.len() implies edge_ok(
                    self.slots@,
                    #[trigger] new_memo.deps@[d],
                ) by {
                    assert(edge_ok(pushed.slots@, m_deps@[d]));
                    assert(fetch_slot_rel(
                        pushed.slots@[m_deps@[d].ingredient as int],
                        self.slots@[m_deps@[d].ingredient as int],
                    ));
                }
            }
            proof {
                assert(preserves_active(pushed, before_store)) by {
                    assert forall|s: usize, k: u64|
                        #[trigger] crate::runtime::stack_has_pair(
                            pushed.runtime.stack@,
                            s,
                            k,
                        ) implies before_store.memo_of(s as int, k) == pushed.memo_of(
                        s as int,
                        k,
                    ) by {}
                }
            }
            self.store_memo(slot, key, new_memo);
            proof {
                assert(!before_store.memo_fresh(slot as int, key)) by {
                    assert(before_store.memo_of(slot as int, key) == pushed.memo_of(
                        slot as int,
                        key,
                    ));
                }
                lemma_fetch_preserves_after_store(before_store, *self, slot, key);
            }
            let ghost stored = *self;
            let _ = self.end_query();
            proof {
                lemma_fetch_preserves_same_slots(stored, *self);
                lemma_fetch_preserves_trans(db0, pushed, before_store);
                lemma_fetch_preserves_trans(db0, before_store, stored);
                lemma_fetch_preserves_trans(db0, stored, *self);
                lemma_active_after_commit(db0, pushed, before_store, stored, *self, slot, key);
                assert(self.runtime.stack@ =~= db0.runtime.stack@);
                let m0 = db0.memo_of(slot as int, key)->Some_0;
                assert(self.memo_of(slot as int, key) == Some(new_memo));
                assert(new_memo@ =~= (MemoModel { verified_at: db0.runtime.revision, ..m0@ }));
            }
            return Ok(
                FetchOutcome { value: m_value, changed_at: m_changed, durability: m_dur },
            );
        }
        // Recompute: execute the body in the fresh frame, recording
        // every read as a dependency edge.
        let ghost before_eval = *self;
        let v = match self.eval_expr(&body, fuel) {
            Err(err) => {
                proof {
                    lemma_fetch_preserves_trans(pushed, before_eval, *self);
                    lemma_preserves_active_chain(pushed, before_eval, *self);
                    lemma_fetch_preserves_trans(db0, pushed, before_eval);
                    lemma_error_cause_transfers(db0, before_eval, err);
                    assert(self.memo_of(slot as int, key) == pushed.memo_of(slot as int, key));
                }
                let ghost werr = *self;
                let _ = self.end_query();
                proof {
                    lemma_fetch_preserves_same_slots(werr, *self);
                    lemma_fetch_preserves_trans(db0, pushed, werr);
                    lemma_fetch_preserves_trans(db0, werr, *self);
                    lemma_preserves_active_same_slots(werr, *self);
                    lemma_preserves_active_chain(pushed, werr, *self);
                    lemma_active_exit(db0, pushed, *self);
                    assert(self.runtime.stack@ =~= db0.runtime.stack@);
                }
                return Err(err);
            },
            Ok(v) => v,
        };
        proof {
            lemma_fetch_preserves_trans(pushed, before_eval, *self);
            lemma_preserves_active_chain(pushed, before_eval, *self);
        }
        // One more checkpoint before committing anything.
        if self.runtime.cancel_pending {
            let _ = self.end_query();
            return Err(QueryError::Cancelled);
        }
        let ghost pre_pop = *self;
        let frame = self.end_query();
        proof {
            assert(frame == pre_pop.runtime.stack@.last());
            assert(frame_ok(pre_pop.slots@, frame));
            lemma_fetch_preserves_same_slots(pre_pop, *self);
            lemma_fetch_preserves_trans(pushed, pre_pop, *self);
            lemma_preserves_active_same_slots(pre_pop, *self);
        }
        // Value-equality backdating of `changed_at`: a recomputation
        // that provably produced the same value leaves `changed_at`
        // alone, so queries downstream can still backdate.
        let changed_at = if has_old && !no_eq && v == m_value {
            m_changed
        } else {
            rev
        };
        let executions = if has_old {
            if m_execs < u64::MAX {
                m_execs + 1
            } else {
                u64::MAX
            }
        } else {
            1
        };
        let durability = frame.durability;
        let new_memo = Memo {
            value: v,
            verified_at: rev,
            changed_at,
            durability,
            deps: frame.deps,
            untracked: frame.untracked,
            log: frame.log,
            executions,
        };
        let ghost before_store = *self;
        proof {
            if has_old {
                assert(memo_ok(db0.slots@, db0.rev(), db0.memo_of(slot as int, key)->Some_0));
            }
            assert forall|d: int| 0 <= d < new_memo.deps@.len() implies edge_ok(
                self.slots@,
                #[trigger] new_memo.deps@[d],
            ) by {
                assert(edge_ok(pre_pop.slots@, frame.deps@[d]));
                assert(self.slots@ == pre_pop.slots@);
            }
        }
        self.store_memo(slot, key, new_memo);
        proof {
            assert(!before_store.memo_fresh(slot as int, key)) by {
                assert(before_store.memo_of(slot as int, key) == pushed.memo_of(
                    slot as int,
                    key,
                ));
            }
            lemma_fetch_preserves_after_store(before_store, *self, slot, key);
            lemma_fetch_preserves_trans(db0, pushed, before_store);
            lemma_fetch_preserves_trans(db0, before_store, *self);
            assert(preserves_active(pushed, before_store)) by {
                lemma_preserves_active_same_slots(pre_pop, before_store);
                lemma_preserves_active_chain(pushed, pre_pop, before_store);
            }
            lemma_active_after_commit(db0, pushed, before_store, *self, *self, slot, key);
            assert(self.runtime.stack@ =~= db0.runtime.stack@);
            // A self-fetching Panic body cannot have produced a value:
            // the re-entrant fetch inside it must have aborted.
            if !has_old && db0.def_of(slot as int).policy is Panic && mentions_fetch(
                body,
                slot,
                key,
            ) {
                assert(crate::runtime::stack_has_pair(
                    before_eval.runtime.stack@,
                    slot,
                    key,
                ));
                assert(before_eval.memo_of(slot as int, key) is None);
                assert(before_eval.is_function(slot as int));
                assert(before_eval.def_of(slot as int) == db0.def_of(slot as int));
                assert(false);
            }
            // A first computation of a fetch-free body yields exactly the
            // body's meaning over the current inputs, and commits exactly
            // the log the body pushed.
            if !has_old && fetch_free(body) {
                lemma_fetch_preserves_same_slots(pre_pop, before_store);
                lemma_fetch_preserves_trans(pre_pop, before_store, *self);
                lemma_eval_pure_stable(pre_pop.slots@, self.slots@, body);
                lemma_pure_emits_stable(pre_pop.slots@, self.slots@, body);
                assert(frame.log@ =~= pure_emits(pre_pop.slots@, body));
            }
            // This path re-executed the body, so backdating's hypothesis
            // cannot hold: some recorded dependency provably changed (or
            // was untracked, re-entrant, or absent).
            if has_old && !m_untracked {
                let m0 = db0.memo_of(slot as int, key)->Some_0;
                let e = m_deps@[bad_idx];
                assert(m0@.deps[bad_idx] == e);
                lemma_fetch_preserves_same_slots(pre_pop, before_store);
                lemma_fetch_preserves_trans(before_eval, pre_pop, before_store);
                lemma_fetch_preserves_trans(before_eval, before_store, *self);
                if e.ingredient == slot && e.key == key {
                } else if crate::runtime::stack_has_pair(
                    db0.runtime.stack@,
                    e.ingredient,
                    e.key,
                ) {
                } else if db0.is_input(e.ingredient as int) {
                    assert(fetch_slot_rel(
                        pushed.slots@[e.ingredient as int],
                        before_eval.slots@[e.ingredient as int],
                    ));
                    assert(fetch_slot_rel(
                        before_eval.slots@[e.ingredient as int],
                        self.slots@[e.ingredient as int],
                    ));
                    assert(self.cell_of(e.ingredient as int, e.key) == before_eval.cell_of(
                        e.ingredient as int,
                        e.key,
                    ));
                    assert(!dep_unchanged_in(*self, e, m_verified));
                } else {
                    assert(before_eval.memo_fresh(e.ingredient as int, e.key));
                    assert(self.memo_of(e.ingredient as int, e.key) == before_eval.memo_of(
                        e.ingredient as int,
                        e.key,
                    ));
                    assert(fetch_slot_rel(
                        pushed.slots@[e.ingredient as int],
                        self.slots@[e.ingredient as int],
                    ));
                    assert(!dep_unchanged_in(*self, e, m_verified));
                }
                assert(!deps_still_valid(db0, *self, slot, key, m0@));
            }
        }
        Ok(FetchOutcome { value: v, changed_at, durability })
    }

    /// Fetch the memoized, up-to-date result of one query; any needed
    /// recomputation is transparent to the caller.  A memo already
    /// verified at the current revision is returned as is, with the
    /// whole database untouched.  When an enclosing computation is
    /// active, its frame records the dependency edge, as every caller
    /// must.  A pending cancellation aborts with `Cancelled` before any
    /// memo is written.
    pub fn fetch(&mut self, slot: usize, key: u64) -> (r: Result<u64, QueryError>)
        requires
            old(self).wf(),
            old(self).is_function(slot as int),
        ensures
            final(self).wf(),
            fetch_preserves(*old(self), *final(self)),
            preserves_active(*old(self), *final(self)),
            old(self).runtime.stack@.len() == 0 ==> final(self).runtime.stack@
                == old(self).runtime.stack@,
            old(self).runtime.cancel_pending ==> r == Err::<u64, QueryError>(
                QueryError::Cancelled,
            ),
            // Success is owed on the pure fragment: a first computation
            // of a fetch-free body whose inputs are all set cannot fail
            // while no write is pending.
            (!old(self).runtime.cancel_pending && old(self).memo_of(slot as int, key) is None
                && !crate::runtime::stack_has_pair(old(self).runtime.stack@, slot, key)
                && fetch_free(old(self).def_of(slot as int).body) && eval_pure(
                old(self).slots@,
                old(self).def_of(slot as int).body,
            ) is Some) ==> r is Ok,
            // A query whose body fetches its own pair aborts under the
            // Panic policy, deterministically.
            (!old(self).runtime.cancel_pending && old(self).memo_of(slot as int, key) is None
                && !crate::runtime::stack_has_pair(old(self).runtime.stack@, slot, key) && old(
                self,
            ).def_of(slot as int).policy is Panic && mentions_fetch(
                old(self).def_of(slot as int).body,
                slot,
                key,
            )) ==> r is Err,
            match r {
                Ok(v) => {
                    &&& (old(self).memo_fresh(slot as int, key) && !old(
                        self,
                    ).runtime.cancel_pending ==> v == old(self).memo_of(slot as int, key)
                        ->Some_0.value && final(self).slots == old(self).slots)
                    &&& (!crate::runtime::stack_has_pair(old(self).runtime.stack@, slot, key)
                        ==> ({
                        let mopt = final(self).memo_of(slot as int, key);
                        &&& mopt is Some
                        &&& mopt->Some_0.verified_at == old(self).runtime.revision
                        &&& mopt->Some_0.value == v
                    }))
                    &&& (match old(self).memo_of(slot as int, key) {
                        Some(m0) => ({
                            let post_memo = final(self).memo_of(slot as int, key);
                            // Backdating: an unchanged execution counter
                            // means the whole memo was reused — value,
                            // changed_at, dependencies and log — with
                            // only verified_at advanced to now.
                            (!crate::runtime::stack_has_pair(old(self).runtime.stack@, slot, key)
                                && m0.executions < u64::MAX && (post_memo matches Some(m1)
                                && m1.executions == m0.executions)) ==> post_memo->Some_0@
                                == (MemoModel {
                                verified_at: old(self).runtime.revision,
                                ..m0@
                            })
                        }),
                        None => true,
                    })
                    &&& (match old(self).memo_of(slot as int, key) {
                        Some(m0) => deps_still_valid(
                            *old(self),
                            *final(self),
                            slot,
                            key,
                            m0@,
                        ) ==> ({
                            // No recorded dependency changed since the
                            // memo was verified: the body was not
                            // re-executed, the memo was only backdated.
                            let post_memo = final(self).memo_of(slot as int, key);
                            (post_memo matches Some(m1)) && post_memo->Some_0@ == (MemoModel {
                                verified_at: old(self).runtime.revision,
                                ..m0@
                            })
                        }),
                        None => true,
                    })
                    // Freshness for a first computation: a query whose
                    // body reads inputs alone returns exactly the body's
                    // value over the latest inputs, and its memo records
                    // exactly the values the body pushed, in push order.
                    &&& ((old(self).memo_of(slot as int, key) is None
                        && !crate::runtime::stack_has_pair(old(self).runtime.stack@, slot, key)
                        && fetch_free(old(self).def_of(slot as int).body)) ==> Some(v)
                        == eval_pure(final(self).slots@, old(self).def_of(slot as int).body)
                        && (final(self).memo_of(slot as int, key) matches Some(m1)
                        && m1.log@ == pure_emits(
                        final(self).slots@,
                        old(self).def_of(slot as int).body,
                    )))
                    // A first computation dates the value now.
                    &&& ((old(self).memo_of(slot as int, key) is None
                        && !crate::runtime::stack_has_pair(old(self).runtime.stack@, slot, key))
                        ==> (final(self).memo_of(slot as int, key) matches Some(m1)
                        && m1.executions == 1 && m1.changed_at == old(self).runtime.revision))
                    // Value-equality backdating of changed_at on a
                    // re-execution, exactly as declared by `no_eq`.
                    &&& (match old(self).memo_of(slot as int, key) {
                        Some(m0) => ({
                            let post_memo = final(self).memo_of(slot as int, key);
                            (!crate::runtime::stack_has_pair(old(self).runtime.stack@, slot, key)
                                && (post_memo matches Some(m1) && m1.executions
                                != m0.executions)) ==> ({
                                let m1 = post_memo->Some_0;
                                &&& m1.executions == (if m0.executions < u64::MAX {
                                    (m0.executions + 1) as u64
                                } else {
                                    u64::MAX
                                })
                                &&& ((!old(self).def_of(slot as int).no_eq && m1.value
                                    == m0.value) ==> m1.changed_at == m0.changed_at)
                                &&& ((old(self).def_of(slot as int).no_eq || m1.value
                                    != m0.value) ==> m1.changed_at == old(
                                    self,
                                ).runtime.revision)
                            })
                        }),
                        None => true,
                    })
                    // The caller must record the dependency: under an
                    // active frame, exactly one edge naming this fetch is
                    // appended to the innermost frame's list, and the
                    // frames below are untouched.
                    &&& (old(self).runtime.stack@.len() > 0 ==> ({
                        let pre = old(self).runtime.stack@;
                        let post = final(self).runtime.stack@;
                        &&& post.len() == pre.len()
                        &&& forall|i: int| 0 <= i < pre.len() - 1 ==> post[i] == pre[i]
                        &&& post.last().ingredient == pre.last().ingredient
                        &&& post.last().key == pre.last().key
                        &&& post.last().log == pre.last().log
                        &&& post.last().untracked == pre.last().untracked
                        &&& post.last().deps@.len() == pre.last().deps@.len() + 1
                        &&& post.last().deps@.subrange(0, pre.last().deps@.len() as int)
                            == pre.last().deps@
                        &&& post.last().deps@.last().ingredient == slot
                        &&& post.last().deps@.last().key == key
                        &&& (!crate::runtime::stack_has_pair(pre, slot, key) ==> post.last()
                            .deps@.last().changed_at == final(self).memo_of(slot as int, key)
                            ->Some_0.changed_at)
                    }))
                },
                Err(e) => {
                    &&& final(self).memo_of(slot as int, key) == old(self).memo_of(
                        slot as int,
                        key,
                    )
                    &&& (e is Cancelled <==> old(self).runtime.cancel_pending)
                    &&& (e is Cancelled ==> *final(self) == *old(self))
                    &&& final(self).runtime.stack@ == old(self).runtime.stack@
                    &&& error_cause_ok(*old(self), e)
                    // Success is owed on a memo verified at the current
                    // revision while no write is pending.
                    &&& !old(self).memo_fresh(slot as int, key) || old(
                        self,
                    ).runtime.cancel_pending
                },
            },
    {
        let fuel = self.depth_budget();
        let out = match self.fetch_inner(slot, key, fuel) {
            Err(e) => {
                return Err(e);
            },
            Ok(out) => out,
        };
        let ghost mid = *self;
        if self.runtime.stack.len() > 0 {
            self.record_dependency(Edge { ingredient: slot, key, changed_at: out.changed_at });
            self.fold_durability(out.durability);
            proof {
                lemma_fetch_preserves_same_slots(mid, *self);
                lemma_fetch_preserves_trans(*old(self), mid, *self);
                lemma_preserves_active_same_slots(mid, *self);
                lemma_preserves_active_chain(*old(self), mid, *self);
                assert(self.runtime.stack@.last().deps@.subrange(
                    0,
                    old(self).runtime.stack@.last().deps@.len() as int,
                ) =~= old(self).runtime.stack@.last().deps@);
            }
        }
        proof {
            if old(self).memo_of(slot as int, key) is Some {
                let m0 = old(self).memo_of(slot as int, key)->Some_0;
                if deps_still_valid(*old(self), *self, slot, key, m0@) {
                    assert(deps_still_valid(*old(self), mid, slot, key, m0@)) by {
                        assert forall|i2: int| 0 <= i2 < m0@.deps.len() implies ({
                            let e = #[trigger] m0@.deps[i2];
                            &&& !(e.ingredient == slot && e.key == key)
                            &&& !crate::runtime::stack_has_pair(
                                old(self).runtime.stack@,
                                e.ingredient,
                                e.key,
                            )
                            &&& dep_unchanged_in(mid, e, m0@.verified_at)
                        }) by {
                            assert(m0@.deps[i2] == m0.deps@[i2]);
                            assert(dep_unchanged_in(*self, m0@.deps[i2], m0@.verified_at));
                            assert(mid.slots == self.slots);
                        }
                    }
                }
            }
        }
        Ok(out.value)
    }

    /// Force the query to full freshness, then return, in push order,
    /// every value emitted into the given accumulator during that key's
    /// computation and during the computation of everything it
    /// transitively invoked.  A key satisfied from cache returns the
    /// previously recorded log unchanged: accumulated data is never
    /// recomputed independently of its owning query.
    pub fn accumulated(&mut self, accumulator: usize, slot: usize, key: u64) -> (r: Result<
        Vec<u64>,
        QueryError,
    >)
        requires
            old(self).wf(),
            old(self).is_accumulator(accumulator as int),
            old(self).is_function(slot as int),
            old(self).runtime.stack@.len() == 0,
        ensures
            final(self).wf(),
            fetch_preserves(*old(self), *final(self)),
            final(self).runtime.stack@ == old(self).runtime.stack@,
            // Success is owed on the pure fragment, exactly as for a
            // fetch of the owning query.
            (!old(self).runtime.cancel_pending && old(self).memo_of(slot as int, key) is None
                && fetch_free(old(self).def_of(slot as int).body) && eval_pure(
                old(self).slots@,
                old(self).def_of(slot as int).body,
            ) is Some) ==> r is Ok,
            match r {
                Ok(vs) => ({
                    let mopt = final(self).memo_of(slot as int, key);
                    &&& mopt is Some
                    &&& mopt->Some_0.verified_at == final(self).runtime.revision
                    &&& vs@ == log_filter(mopt->Some_0.log@, accumulator)
                    // On a first computation of a fetch-free body the
                    // result is exactly the ordered filter of what the
                    // body pushed.
                    &&& ((old(self).memo_of(slot as int, key) is None && fetch_free(
                        old(self).def_of(slot as int).body,
                    )) ==> vs@ == log_filter(
                        pure_emits(final(self).slots@, old(self).def_of(slot as int).body),
                        accumulator,
                    ))
                }),
                Err(e) => ({
                    &&& (e is Cancelled <==> old(self).runtime.cancel_pending)
                    &&& error_cause_ok(*old(self), e)
                    // Success is owed on a memo verified at the current
                    // revision while no write is pending.
                    &&& !old(self).memo_fresh(slot as int, key) || old(
                        self,
                    ).runtime.cancel_pending
                }),
            },
    {
        match self.fetch(slot, key) {
            Err(e) => {
                return Err(e);
            },
            Ok(_) => {},
        }
        let memo = self.read_memo(slot, key);
        let m = match memo {
            Some(m) => m,
            None => {
                // Unreachable: a top-level fetch that succeeded has left
                // a memo verified at the current revision.
                return Err(QueryError::Cancelled);
            },
        };
        let mut vs: Vec<u64> = Vec::new();
        let mut i: usize = 0;
        while i < m.log.len()
            invariant
                0 <= i <= m.log@.len(),
                vs@ == log_filter(m.log@.subrange(0, i as int), accumulator),
            decreases m.log@.len() - i,
        {
            let entry = m.log[i];
            if entry.0 == accumulator {
                vs.push(entry.1);
            }
            proof {
                assert(m.log@.subrange(0, i + 1 as int).drop_last() =~= m.log@.subrange(
                    0,
                    i as int,
                ));
                assert(m.log@.subrange(0, i + 1 as int).last() == m.log@[i as int]);
            }
            i += 1;
        }
        proof {
            assert(m.log@.subrange(0, m.log@.len() as int) =~= m.log@);
        }
        Ok(vs)
    }

    /// Evaluate part of a query body inside the innermost frame,
    /// recording one dependency edge per input read and per nested
    /// fetch, folding durabilities, and appending emitted values and the
    /// logs of nested computations to the frame in execution order.
    fn eval_expr(&mut self, e: &Expr, fuel: u64) -> (r: Result<u64, QueryError>)
        requires
            old(self).wf(),
            crate::database::body_ok(old(self).slots@, *e),
            old(self).runtime.stack@.len() > 0,
            !old(self).runtime.cancel_pending,
            fuel >= 1,
        ensures
            final(self).wf(),
            fetch_preserves(*old(self), *final(self)),
            preserves_active(*old(self), *final(self)),
            stack_extended(old(self).runtime.stack@, final(self).runtime.stack@),
            r matches Err(err) ==> !(err is Cancelled),
            r matches Err(err2) ==> error_cause_ok(*old(self), err2),
            match r {
                Ok(v) => fetch_free(*e) ==> Some(v) == eval_pure(final(self).slots@, *e)
                    && final(self).runtime.stack@.last().log@ == old(
                    self,
                ).runtime.stack@.last().log@ + pure_emits(final(self).slots@, *e),
                Err(_) => true,
            },
            (fetch_free(*e) && eval_pure(old(self).slots@, *e) is Some) ==> r is Ok,
            // Re-entering an active, uncomputed pair whose policy is
            // Panic aborts: no value can come back past such a fetch.
            forall|s2: usize, k2: u64|
                (#[trigger] mentions_fetch(*e, s2, k2) && crate::runtime::stack_has_pair(
                    old(self).runtime.stack@,
                    s2,
                    k2,
                ) && old(self).memo_of(s2 as int, k2) is None && old(self).is_function(s2 as int)
                    && old(self).def_of(s2 as int).policy is Panic) ==> !(r is Ok),
        decreases fuel, e.size(),
    {
        match e {
            Expr::Literal(v) => {
                proof {
                    lemma_fetch_preserves_refl(*old(self));
                    lemma_preserves_active_same_slots(*old(self), *self);
                    assert(self.runtime.stack@.last().log@ =~= old(
                        self,
                    ).runtime.stack@.last().log@ + pure_emits(self.slots@, *e));
                }
                Ok(*v)
            },
            Expr::UntrackedRead(v) => {
                self.report_untracked_read();
                proof {
                    lemma_fetch_preserves_same_slots(*old(self), *self);
                    lemma_preserves_active_same_slots(*old(self), *self);
                    assert(self.runtime.stack@.last().log@ =~= old(
                        self,
                    ).runtime.stack@.last().log@ + pure_emits(self.slots@, *e));
                }
                Ok(*v)
            },
            Expr::Input(s2, k2) => {
                match self.read_cell(*s2, *k2) {
                    None => {
                        proof {
                            lemma_fetch_preserves_refl(*old(self));
                            lemma_preserves_active_same_slots(*old(self), *self);
                            assert(eval_pure(old(self).slots@, *e) is None);
                        }
                        Err(QueryError::InputNotSet { ingredient: *s2, key: *k2 })
                    },
                    Some(c) => {
                        self.record_dependency(
                            Edge { ingredient: *s2, key: *k2, changed_at: c.changed_at },
                        );
                        self.fold_durability(c.durability);
                        proof {
                            lemma_fetch_preserves_same_slots(*old(self), *self);
                            lemma_preserves_active_same_slots(*old(self), *self);
                            assert(self.runtime.stack@.last().log@ =~= old(
                                self,
                            ).runtime.stack@.last().log@ + pure_emits(self.slots@, *e));
                        }
                        Ok(c.value)
                    },
                }
            },
            Expr::Fetch(s2, k2) => {
                let out = match self.fetch_inner(*s2, *k2, fuel - 1) {
                    Err(err) => {
                        return Err(err);
                    },
                    Ok(o) => o,
                };
                let ghost mid = *self;
                self.record_dependency(
                    Edge { ingredient: *s2, key: *k2, changed_at: out.changed_at },
                );
                self.fold_durability(out.durability);
                proof {
                    lemma_fetch_preserves_same_slots(mid, *self);
                    lemma_fetch_preserves_trans(*old(self), mid, *self);
                    lemma_preserves_active_same_slots(mid, *self);
                    lemma_preserves_active_chain(*old(self), mid, *self);
                }
                // A nested computation's emitted values belong to this
                // one too: append the dependency's (fresh) log.
                let rev_now = self.runtime.revision.number;
                let dep_memo = self.read_memo(*s2, *k2);
                match dep_memo {
                    Some(m) => {
                        if m.verified_at.number == rev_now {
                            let ghost mid2 = *self;
                            self.append_log_to_top(&m.log);
                            proof {
                                lemma_fetch_preserves_same_slots(mid2, *self);
                                lemma_fetch_preserves_trans(*old(self), mid2, *self);
                                lemma_preserves_active_same_slots(mid2, *self);
                                lemma_preserves_active_chain(*old(self), mid2, *self);
                            }
                        }
                    },
                    None => {},
                }
                proof {
                    // The only pair this body mentions is the one just
                    // fetched; it came back with a value, and an active,
                    // uncomputed pair yields one only under Fallback.
                    assert forall|sx: usize, kx: u64|
                        (#[trigger] mentions_fetch(*e, sx, kx)
                            && crate::runtime::stack_has_pair(
                            old(self).runtime.stack@,
                            sx,
                            kx,
                        ) && old(self).memo_of(sx as int, kx) is None && old(self).is_function(
                            sx as int,
                        ) && old(self).def_of(sx as int).policy is Panic) implies false by {
                        assert(sx == *s2 && kx == *k2);
                        assert(!old(self).memo_fresh(sx as int, kx));
                        assert(old(self).def_of(sx as int).policy is Fallback);
                    }
                }
                Ok(out.value)
            },
            Expr::Sum(a, b) => {
                let va = match self.eval_expr(a, fuel) {
                    Err(err) => {
                        return Err(err);
                    },
                    Ok(v) => v,
                };
                let ghost mid = *self;
                proof {
                    lemma_body_ok_after_preserves(*old(self), mid, **b);
                    lemma_eval_pure_stable(old(self).slots@, mid.slots@, **b);
                }
                let vb = match self.eval_expr(b, fuel) {
                    Err(err) => {
                        proof {
                            lemma_fetch_preserves_trans(*old(self), mid, *self);
                            lemma_preserves_active_chain(*old(self), mid, *self);
                            lemma_error_cause_transfers(*old(self), mid, err);
                        }
                        return Err(err);
                    },
                    Ok(v) => v,
                };
                proof {
                    lemma_fetch_preserves_trans(*old(self), mid, *self);
                    lemma_preserves_active_chain(*old(self), mid, *self);
                    if fetch_free(**a) {
                        lemma_eval_pure_stable(mid.slots@, self.slots@, **a);
                        lemma_pure_emits_stable(mid.slots@, self.slots@, **a);
                    }
                    if fetch_free(*e) {
                        assert(self.runtime.stack@.last().log@ =~= old(
                            self,
                        ).runtime.stack@.last().log@ + pure_emits(self.slots@, *e));
                    }
                    // Both summands returned values, so neither mentions
                    // an active, uncomputed Panic pair.
                    assert forall|sx: usize, kx: u64|
                        (#[trigger] mentions_fetch(*e, sx, kx)
                            && crate::runtime::stack_has_pair(
                            old(self).runtime.stack@,
                            sx,
                            kx,
                        ) && old(self).memo_of(sx as int, kx) is None && old(self).is_function(
                            sx as int,
                        ) && old(self).def_of(sx as int).policy is Panic) implies false by {
                        if mentions_fetch(**b, sx, kx) {
                            lemma_same_pairs(old(self).runtime.stack@, mid.runtime.stack@);
                            assert(crate::runtime::stack_has_pair(mid.runtime.stack@, sx, kx));
                            assert(mid.memo_of(sx as int, kx) == old(self).memo_of(
                                sx as int,
                                kx,
                            ));
                            assert(fetch_slot_rel(
                                old(self).slots@[sx as int],
                                mid.slots@[sx as int],
                            ));
                            assert(mid.is_function(sx as int));
                            assert(mid.def_of(sx as int) == old(self).def_of(sx as int));
                        } else {
                            assert(mentions_fetch(**a, sx, kx));
                        }
                    }
                }
                let v = if va <= u64::MAX - vb {
                    va + vb
                } else {
                    u64::MAX
                };
                Ok(v)
            },
            Expr::Emit(s2, x) => {
                let v = match self.eval_expr(x, fuel) {
                    Err(err) => {
                        return Err(err);
                    },
                    Ok(v) => v,
                };
                let ghost mid = *self;
                proof {
                    assert(fetch_slot_rel(old(self).slots@[*s2 as int], mid.slots@[*s2 as int]));
                    assert(mid.is_accumulator(*s2 as int));
                }
                self.push_accumulated(*s2, v);
                proof {
                    lemma_fetch_preserves_same_slots(mid, *self);
                    lemma_fetch_preserves_trans(*old(self), mid, *self);
                    lemma_preserves_active_same_slots(mid, *self);
                    lemma_preserves_active_chain(*old(self), mid, *self);
                    assert(self.slots@ == mid.slots@);
                    if fetch_free(*e) {
                        assert(self.runtime.stack@.last().log@ =~= old(
                            self,
                        ).runtime.stack@.last().log@ + pure_emits(self.slots@, *e));
                    }
                    // The emitted sub-expression returned a value, so it
                    // mentions no active, uncomputed Panic pair.
                    assert forall|sx: usize, kx: u64|
                        (#[trigger] mentions_fetch(*e, sx, kx)
                            && crate::runtime::stack_has_pair(
                            old(self).runtime.stack@,
                            sx,
                            kx,
                        ) && old(self).memo_of(sx as int, kx) is None && old(self).is_function(
                            sx as int,
                        ) && old(self).def_of(sx as int).policy is Panic) implies false by {
                        assert(mentions_fetch(**x, sx, kx));
                    }
                }
                Ok(v)
            },
        }
    }
}

} // verus!
