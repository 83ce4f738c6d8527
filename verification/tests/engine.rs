use incremental::database::Database;
use incremental::expr::{Expr, IngredientDecl, JarDescription, QueryDef};
use incremental::support::{CyclePolicy, Durability, QueryError};

fn plain(body: Expr) -> IngredientDecl {
    IngredientDecl::Function(QueryDef { body, no_eq: false, policy: CyclePolicy::Panic })
}

#[test]
fn freshness_after_set() {
    let mut db = Database::new();
    let base = db
        .add_jar(JarDescription {
            ingredients: vec![
                IngredientDecl::Input,
                plain(Expr::Sum(
                    Box::new(Expr::Input(0, 7)),
                    Box::new(Expr::Literal(0)),
                )),
            ],
        })
        .unwrap();
    assert_eq!(base, 0);
    db.set(0, 7, 1, Durability::Low);
    assert_eq!(db.fetch(1, 7).unwrap(), 1);
    db.set(0, 7, 2, Durability::Low);
    assert_eq!(db.fetch(1, 7).unwrap(), 2);
    db.set(0, 7, 40, Durability::Low);
    db.set(0, 7, 41, Durability::Low);
    assert_eq!(db.fetch(1, 7).unwrap(), 41);
}

#[test]
fn sum_records_one_dependency() {
    let mut db = Database::new();
    db.add_jar(JarDescription {
        ingredients: vec![
            IngredientDecl::Input,
            plain(Expr::Sum(
                Box::new(Expr::Input(0, 7)),
                Box::new(Expr::Literal(0)),
            )),
        ],
    })
    .unwrap();
    db.set(0, 7, 1, Durability::Low);
    assert_eq!(db.fetch(1, 7).unwrap(), 1);
    assert_eq!(db.dependency_count(1, 7), Some(1));
    assert_eq!(db.execution_count(1, 7), Some(1));
}

#[test]
fn backdating_skips_recomputation() {
    let mut db = Database::new();
    // slots: 0 input a, 1 input c, 2 reads a, 3 reads query 2
    db.add_jar(JarDescription {
        ingredients: vec![
            IngredientDecl::Input,
            IngredientDecl::Input,
            plain(Expr::Input(0, 0)),
            plain(Expr::Sum(
                Box::new(Expr::Fetch(2, 0)),
                Box::new(Expr::Literal(0)),
            )),
        ],
    })
    .unwrap();
    db.set(0, 0, 1, Durability::Low);
    db.set(1, 0, 7, Durability::Low);
    assert_eq!(db.fetch(3, 0).unwrap(), 1);
    assert_eq!(db.execution_count(3, 0), Some(1));
    // An unrelated input changes: the revision advances but none of the
    // dependencies of query 3 changed value, so no body re-executes.
    db.set(1, 0, 8, Durability::Low);
    assert_eq!(db.fetch(3, 0).unwrap(), 1);
    assert_eq!(db.execution_count(3, 0), Some(1));
    assert_eq!(db.execution_count(2, 0), Some(1));
    // The memo was confirmed at the current revision without running.
    assert_eq!(db.memo_verified_at(3, 0), Some(db.current_revision().number));
}

#[test]
fn value_equality_backdates_changed_at() {
    let mut db = Database::new();
    // Query 1 saturates, so its value stays u64::MAX when a changes;
    // query 2 depends on it and must not re-execute.
    db.add_jar(JarDescription {
        ingredients: vec![
            IngredientDecl::Input,
            plain(Expr::Sum(
                Box::new(Expr::Input(0, 0)),
                Box::new(Expr::Literal(u64::MAX)),
            )),
            plain(Expr::Sum(
                Box::new(Expr::Fetch(1, 0)),
                Box::new(Expr::Literal(0)),
            )),
        ],
    })
    .unwrap();
    db.set(0, 0, 1, Durability::Low);
    assert_eq!(db.fetch(2, 0).unwrap(), u64::MAX);
    let first_changed = db.memo_changed_at(1, 0).unwrap();
    db.set(0, 0, 2, Durability::Low);
    assert_eq!(db.fetch(2, 0).unwrap(), u64::MAX);
    // Query 1 ran again but produced an equal value: changed_at is kept.
    assert_eq!(db.execution_count(1, 0), Some(2));
    assert_eq!(db.memo_changed_at(1, 0), Some(first_changed));
    // So query 2 backdated instead of re-executing.
    assert_eq!(db.execution_count(2, 0), Some(1));
}

#[test]
fn no_eq_disables_value_backdating() {
    let mut db = Database::new();
    db.add_jar(JarDescription {
        ingredients: vec![
            IngredientDecl::Input,
            IngredientDecl::Function(QueryDef {
                body: Expr::Sum(
                    Box::new(Expr::Input(0, 0)),
                    Box::new(Expr::Literal(u64::MAX)),
                ),
                no_eq: true,
                policy: CyclePolicy::Panic,
            }),
            plain(Expr::Sum(
                Box::new(Expr::Fetch(1, 0)),
                Box::new(Expr::Literal(0)),
            )),
        ],
    })
    .unwrap();
    db.set(0, 0, 1, Durability::Low);
    assert_eq!(db.fetch(2, 0).unwrap(), u64::MAX);
    db.set(0, 0, 2, Durability::Low);
    assert_eq!(db.fetch(2, 0).unwrap(), u64::MAX);
    // changed_at tracked the recomputation, so the dependent re-ran too.
    assert_eq!(db.memo_changed_at(1, 0), Some(db.current_revision().number));
    assert_eq!(db.execution_count(2, 0), Some(2));
}

#[test]
fn cycle_detected_under_panic_policy() {
    let mut db = Database::new();
    db.add_jar(JarDescription {
        ingredients: vec![plain(Expr::Fetch(0, 5))],
    })
    .unwrap();
    match db.fetch(0, 5) {
        Err(QueryError::Cycle(chain)) => {
            assert_eq!(chain, vec![(0usize, 5u64), (0usize, 5u64)]);
        }
        other => panic!("expected a cycle, got {:?}", other),
    }
    // No memo was committed for the aborted computation.
    assert_eq!(db.memo_value(0, 5), None);
    // Deterministic: the same fetch aborts the same way every time.
    assert!(matches!(db.fetch(0, 5), Err(QueryError::Cycle(_))));
}

#[test]
fn cycle_recovered_under_fallback_policy() {
    let mut db = Database::new();
    db.add_jar(JarDescription {
        ingredients: vec![IngredientDecl::Function(QueryDef {
            body: Expr::Sum(Box::new(Expr::Fetch(0, 5)), Box::new(Expr::Literal(1))),
            no_eq: false,
            policy: CyclePolicy::Fallback(10),
        })],
    })
    .unwrap();
    // The re-entrant fetch is answered with the recovery value 10, and
    // the body completes on top of it.
    assert_eq!(db.fetch(0, 5).unwrap(), 11);
}

#[test]
fn cancellation_commits_no_memo() {
    let mut db = Database::new();
    db.add_jar(JarDescription {
        ingredients: vec![
            IngredientDecl::Input,
            plain(Expr::Sum(
                Box::new(Expr::Input(0, 0)),
                Box::new(Expr::Literal(0)),
            )),
        ],
    })
    .unwrap();
    db.set(0, 0, 1, Durability::Low);
    db.signal_cancellation();
    assert!(matches!(db.unwind_if_canceled(), Err(QueryError::Cancelled)));
    assert!(matches!(db.fetch(1, 0), Err(QueryError::Cancelled)));
    assert_eq!(db.memo_value(1, 0), None);
    // The write that requested cancellation completes and clears it.
    db.set(0, 0, 2, Durability::Low);
    assert!(db.unwind_if_canceled().is_ok());
    assert_eq!(db.fetch(1, 0).unwrap(), 2);
}

#[test]
fn get_set_cancellation_interleaving() {
    // The reader/writer protocol, rendered as one interleaving: a
    // reader confirms it is not yet cancelled, the writer signals, the
    // reader observes cancellation and unwinds before the write lands,
    // the write applies, and a retry sees the new value.
    let mut db = Database::new();
    db.add_jar(JarDescription {
        ingredients: vec![
            IngredientDecl::Input,
            plain(Expr::Sum(
                Box::new(Expr::Input(0, 0)),
                Box::new(Expr::Literal(0)),
            )),
        ],
    })
    .unwrap();
    db.set(0, 0, 1, Durability::Low);
    assert_eq!(db.fetch(1, 0).unwrap(), 1);
    assert_eq!(db.dependency_count(1, 0), Some(1));
    // Reader: not cancelled yet, because no write has been requested.
    assert!(db.unwind_if_canceled().is_ok());
    // Writer: requests exclusive access.
    db.signal_cancellation();
    // Reader: observes cancellation at its next checkpoint and unwinds
    // before the writer's set returns.
    assert!(matches!(db.fetch(1, 0), Err(QueryError::Cancelled)));
    // Writer: applies the write, advancing the revision.
    db.set(0, 0, 2, Durability::Low);
    // Reader, retrying after the write: observes the new value.
    assert_eq!(db.input_value(0, 0), Some(2));
    assert_eq!(db.fetch(1, 0).unwrap(), 2);
}

#[test]
fn accumulator_returns_values_in_push_order() {
    let mut db = Database::new();
    // slots: 0 accumulator, 1 inner query emitting 3, 2 outer query
    // emitting 1 then 2 and then invoking the inner query.
    db.add_jar(JarDescription {
        ingredients: vec![
            IngredientDecl::Accumulator,
            plain(Expr::Emit(0, Box::new(Expr::Literal(3)))),
            plain(Expr::Sum(
                Box::new(Expr::Emit(0, Box::new(Expr::Literal(1)))),
                Box::new(Expr::Sum(
                    Box::new(Expr::Emit(0, Box::new(Expr::Literal(2)))),
                    Box::new(Expr::Fetch(1, 0)),
                )),
            )),
        ],
    })
    .unwrap();
    let values = db.accumulated(0, 2, 0).unwrap();
    assert_eq!(values, vec![1, 2, 3]);
    assert_eq!(db.execution_count(2, 0), Some(1));
    // Re-fetching the same up-to-date key returns the identical vector
    // without re-executing anything.
    let again = db.accumulated(0, 2, 0).unwrap();
    assert_eq!(again, vec![1, 2, 3]);
    assert_eq!(db.execution_count(2, 0), Some(1));
    assert_eq!(db.execution_count(1, 0), Some(1));
}

#[test]
fn accumulators_are_kept_apart() {
    let mut db = Database::new();
    // Two accumulators; the query pushes into both alternately.
    db.add_jar(JarDescription {
        ingredients: vec![
            IngredientDecl::Accumulator,
            IngredientDecl::Accumulator,
            plain(Expr::Sum(
                Box::new(Expr::Emit(0, Box::new(Expr::Literal(1)))),
                Box::new(Expr::Sum(
                    Box::new(Expr::Emit(1, Box::new(Expr::Literal(7)))),
                    Box::new(Expr::Emit(0, Box::new(Expr::Literal(2)))),
                )),
            )),
        ],
    })
    .unwrap();
    assert_eq!(db.accumulated(0, 2, 0).unwrap(), vec![1, 2]);
    assert_eq!(db.accumulated(1, 2, 0).unwrap(), vec![7]);
}

#[test]
fn accumulated_log_survives_backdating() {
    let mut db = Database::new();
    // The query reads input a and emits it; an unrelated input changes
    // the revision without touching a.
    db.add_jar(JarDescription {
        ingredients: vec![
            IngredientDecl::Accumulator,
            IngredientDecl::Input,
            IngredientDecl::Input,
            plain(Expr::Emit(0, Box::new(Expr::Input(1, 0)))),
        ],
    })
    .unwrap();
    db.set(1, 0, 5, Durability::Low);
    db.set(2, 0, 1, Durability::Low);
    assert_eq!(db.accumulated(0, 3, 0).unwrap(), vec![5]);
    assert_eq!(db.execution_count(3, 0), Some(1));
    // Unrelated write: the memo is backdated, and the log returned is
    // the recorded one, unchanged.
    db.set(2, 0, 2, Durability::Low);
    assert_eq!(db.accumulated(0, 3, 0).unwrap(), vec![5]);
    assert_eq!(db.execution_count(3, 0), Some(1));
    // A write to a itself recomputes and replaces the log.
    db.set(1, 0, 9, Durability::Low);
    assert_eq!(db.accumulated(0, 3, 0).unwrap(), vec![9]);
    assert_eq!(db.execution_count(3, 0), Some(2));
}

#[test]
fn untracked_read_recomputes_every_revision() {
    let mut db = Database::new();
    db.add_jar(JarDescription {
        ingredients: vec![IngredientDecl::Input, plain(Expr::UntrackedRead(42))],
    })
    .unwrap();
    db.set(0, 0, 1, Durability::Low);
    assert_eq!(db.fetch(1, 0).unwrap(), 42);
    assert_eq!(db.execution_count(1, 0), Some(1));
    // Same revision: the memo is fresh, no re-execution.
    assert_eq!(db.fetch(1, 0).unwrap(), 42);
    assert_eq!(db.execution_count(1, 0), Some(1));
    // Any new revision forces recomputation: the read is untracked.
    db.set(0, 0, 2, Durability::Low);
    assert_eq!(db.fetch(1, 0).unwrap(), 42);
    assert_eq!(db.execution_count(1, 0), Some(2));
}

#[test]
fn unset_input_is_reported() {
    let mut db = Database::new();
    db.add_jar(JarDescription {
        ingredients: vec![
            IngredientDecl::Input,
            plain(Expr::Input(0, 9)),
        ],
    })
    .unwrap();
    match db.fetch(1, 0) {
        Err(QueryError::InputNotSet { ingredient, key }) => {
            assert_eq!(ingredient, 0);
            assert_eq!(key, 9);
        }
        other => panic!("expected a missing input, got {:?}", other),
    }
}

#[test]
fn jars_compose_with_stable_indices() {
    let mut db = Database::new();
    let first = db
        .add_jar(JarDescription {
            ingredients: vec![IngredientDecl::Input],
        })
        .unwrap();
    assert_eq!(first, 0);
    // The second jar's query reaches back into the first jar's input.
    let second = db
        .add_jar(JarDescription {
            ingredients: vec![plain(Expr::Sum(
                Box::new(Expr::Input(0, 0)),
                Box::new(Expr::Literal(100)),
            ))],
        })
        .unwrap();
    assert_eq!(second, 1);
    assert_eq!(db.ingredient_count(), 2);
    db.set(0, 0, 5, Durability::Low);
    assert_eq!(db.fetch(1, 0).unwrap(), 105);
}

#[test]
fn misdeclared_jar_is_refused() {
    let mut db = Database::new();
    db.add_jar(JarDescription {
        ingredients: vec![IngredientDecl::Input],
    })
    .unwrap();
    // A query body fetching an input slot is rejected whole.
    let refused = db.add_jar(JarDescription {
        ingredients: vec![plain(Expr::Fetch(0, 0))],
    });
    assert!(refused.is_none());
    assert_eq!(db.ingredient_count(), 1);
    // So is one addressing a slot that nobody declares.
    let missing = db.add_jar(JarDescription {
        ingredients: vec![plain(Expr::Input(9, 0))],
    });
    assert!(missing.is_none());
}

#[test]
fn durable_inputs_skip_verification() {
    let mut db = Database::new();
    db.add_jar(JarDescription {
        ingredients: vec![
            IngredientDecl::Input,
            IngredientDecl::Input,
            plain(Expr::Input(0, 0)),
        ],
    })
    .unwrap();
    db.set(0, 0, 3, Durability::High);
    db.set(1, 0, 1, Durability::Low);
    assert_eq!(db.fetch(2, 0).unwrap(), 3);
    assert_eq!(db.execution_count(2, 0), Some(1));
    // Only low-durability inputs have been written since: the memo,
    // which depends on high-durability data alone, is reused.
    db.set(1, 0, 2, Durability::Low);
    assert_eq!(db.fetch(2, 0).unwrap(), 3);
    assert_eq!(db.execution_count(2, 0), Some(1));
    // Writing the high-durability input itself does invalidate it.
    db.set(0, 0, 4, Durability::High);
    assert_eq!(db.fetch(2, 0).unwrap(), 4);
    assert_eq!(db.execution_count(2, 0), Some(2));
}

#[test]
fn revision_clock_advances_only_on_writes() {
    let mut db = Database::new();
    db.add_jar(JarDescription {
        ingredients: vec![
            IngredientDecl::Input,
            plain(Expr::Input(0, 0)),
        ],
    })
    .unwrap();
    assert_eq!(db.current_revision().number, 0);
    db.set(0, 0, 1, Durability::Low);
    assert_eq!(db.current_revision().number, 1);
    db.fetch(1, 0).unwrap();
    db.fetch(1, 0).unwrap();
    assert_eq!(db.current_revision().number, 1);
    db.set(0, 0, 2, Durability::Medium);
    assert_eq!(db.current_revision().number, 2);
}
