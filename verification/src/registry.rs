//! Jar registration.  At database construction each jar's ingredients
//! are appended to the flat slot table; every ingredient receives the
//! stable index equal to its position, independent of which jar
//! declared it, and routing is plain array indexing.

use vstd::prelude::*;

verus! {

use crate::expr::{Expr, IngredientDecl, JarDescription};
use crate::storage::{Memo, InputCell, Slot, FunctionStore, InputStore};
use crate::database::{Database, input_at, function_at, accumulator_at, body_ok, frame_ok};
use std::collections::HashMap;

/// Kind of the slot that index `s` will hold once the jar's declarations
/// are appended after the existing slots.
pub open spec fn combined_input_at(slots: Seq<Slot>, decls: Seq<IngredientDecl>, s: int) -> bool {
    if s < slots.len() {
        input_at(slots, s)
    } else {
        slots.len() <= s < slots.len() + decls.len() && decls[s - slots.len()] is Input
    }
}

pub open spec fn combined_function_at(
    slots: Seq<Slot>,
    decls: Seq<IngredientDecl>,
    s: int,
) -> bool {
    if s < slots.len() {
        function_at(slots, s)
    } else {
        slots.len() <= s < slots.len() + decls.len() && decls[s - slots.len()] is Function
    }
}

pub open spec fn combined_accumulator_at(
    slots: Seq<Slot>,
    decls: Seq<IngredientDecl>,
    s: int,
) -> bool {
    if s < slots.len() {
        accumulator_at(slots, s)
    } else {
        slots.len() <= s < slots.len() + decls.len() && decls[s - slots.len()] is Accumulator
    }
}

/// A body is addressable once the jar is registered: every read names a
/// slot, existing or declared by this same jar, of the right kind.
pub open spec fn decl_body_ok(slots: Seq<Slot>, decls: Seq<IngredientDecl>, e: Expr) -> bool
    decreases e,
{
    match e {
        Expr::Literal(_) => true,
        Expr::Input(s, _) => combined_input_at(slots, decls, s as int),
        Expr::Fetch(s, _) => combined_function_at(slots, decls, s as int),
        Expr::Sum(a, b) => decl_body_ok(slots, decls, *a) && decl_body_ok(slots, decls, *b),
        Expr::Emit(s, e2) => combined_accumulator_at(slots, decls, s as int) && decl_body_ok(
            slots,
            decls,
            *e2,
        ),
        Expr::UntrackedRead(_) => true,
    }
}

/// Every query this jar declares has an addressable body.
pub open spec fn jar_ok(slots: Seq<Slot>, decls: Seq<IngredientDecl>) -> bool {
    forall|i: int|
        0 <= i < decls.len() && (#[trigger] decls[i]) is Function ==> decl_body_ok(
            slots,
            decls,
            decls[i]->Function_0.body,
        )
}

/// The storage slot created for one declaration: matching kind, same
/// configuration, empty tables.
pub open spec fn decl_matches_slot(d: IngredientDecl, s: Slot) -> bool {
    match d {
        IngredientDecl::Input => s is Input && s->Input_0.cells@ == Map::<u64, InputCell>::empty(),
        IngredientDecl::Function(def) => s is Function && s->Function_0.def == def
            && s->Function_0.memos@ == Map::<u64, Memo>::empty(),
        IngredientDecl::Accumulator => s is Accumulator,
    }
}

/// A body stays addressable when the slot table is extended.
pub proof fn lemma_body_ok_mono(a: Seq<Slot>, b: Seq<Slot>, e: Expr)
    requires
        a.len() <= b.len(),
        forall|i: int| 0 <= i < a.len() ==> a[i] == b[i],
        body_ok(a, e),
    ensures
        body_ok(b, e),
    decreases e,
{
    match e {
        Expr::Sum(x, y) => {
            lemma_body_ok_mono(a, b, *x);
            lemma_body_ok_mono(a, b, *y);
        },
        Expr::Emit(_, x) => {
            lemma_body_ok_mono(a, b, *x);
        },
        _ => {},
    }
}

/// A body valid against the combined view is valid against the slot
/// table that registration actually built.
pub proof fn lemma_decl_body_ok(
    slots: Seq<Slot>,
    decls: Seq<IngredientDecl>,
    ext: Seq<Slot>,
    e: Expr,
)
    requires
        ext.len() == slots.len() + decls.len(),
        forall|i: int| 0 <= i < slots.len() ==> ext[i] == slots[i],
        forall|i: int|
            0 <= i < decls.len() ==> decl_matches_slot(decls[i], #[trigger] ext[slots.len() + i]),
        decl_body_ok(slots, decls, e),
    ensures
        body_ok(ext, e),
    decreases e,
{
    match e {
        Expr::Input(s, _) => {
            if s >= slots.len() {
                assert(decl_matches_slot(
                    decls[s - slots.len()],
                    ext[slots.len() + (s - slots.len())],
                ));
            }
        },
        Expr::Fetch(s, _) => {
            if s >= slots.len() {
                assert(decl_matches_slot(
                    decls[s - slots.len()],
                    ext[slots.len() + (s - slots.len())],
                ));
            }
        },
        Expr::Emit(s, x) => {
            if s >= slots.len() {
                assert(decl_matches_slot(
                    decls[s as int - slots.len()],
                    ext[slots.len() + (s - slots.len())],
                ));
            }
            lemma_decl_body_ok(slots, decls, ext, *x);
        },
        Expr::Sum(x, y) => {
            lemma_decl_body_ok(slots, decls, ext, *x);
            lemma_decl_body_ok(slots, decls, ext, *y);
        },
        _ => {},
    }
}

impl Database {
    fn combined_is_input(&self, jar: &JarDescription, s: usize) -> (r: bool)
        ensures
            r == combined_input_at(self.slots@, jar.ingredients@, s as int),
    {
        if s < self.slots.len() {
            matches!(&self.slots[s], Slot::Input(_))
        } else if s - self.slots.len() < jar.ingredients.len() {
            let off = s - self.slots.len();
            matches!(&jar.ingredients[off], IngredientDecl::Input)
        } else {
            false
        }
    }

    fn combined_is_function(&self, jar: &JarDescription, s: usize) -> (r: bool)
        ensures
            r == combined_function_at(self.slots@, jar.ingredients@, s as int),
    {
        if s < self.slots.len() {
            matches!(&self.slots[s], Slot::Function(_))
        } else if s - self.slots.len() < jar.ingredients.len() {
            let off = s - self.slots.len();
            matches!(&jar.ingredients[off], IngredientDecl::Function(_))
        } else {
            false
        }
    }

    fn combined_is_accumulator(&self, jar: &JarDescription, s: usize) -> (r: bool)
        ensures
            r == combined_accumulator_at(self.slots@, jar.ingredients@, s as int),
    {
        if s < self.slots.len() {
            matches!(&self.slots[s], Slot::Accumulator)
        } else if s - self.slots.len() < jar.ingredients.len() {
            let off = s - self.slots.len();
            matches!(&jar.ingredients[off], IngredientDecl::Accumulator)
        } else {
            false
        }
    }

    fn check_body(&self, jar: &JarDescription, e: &Expr) -> (r: bool)
        ensures
            r == decl_body_ok(self.slots@, jar.ingredients@, *e),
        decreases *e,
    {
        match e {
            Expr::Literal(_) => true,
            Expr::Input(s, _) => self.combined_is_input(jar, *s),
            Expr::Fetch(s, _) => self.combined_is_function(jar, *s),
            Expr::Sum(a, b) => {
                let ra = self.check_body(jar, a);
                if ra {
                    self.check_body(jar, b)
                } else {
                    false
                }
            },
            Expr::Emit(s, e2) => {
                let rs = self.combined_is_accumulator(jar, *s);
                if rs {
                    self.check_body(jar, e2)
                } else {
                    false
                }
            },
            Expr::UntrackedRead(_) => true,
        }
    }

    /// Register every ingredient of one jar, in order, and return the
    /// base index assigned to the jar's first ingredient.  Registration
    /// is refused — and the database left untouched — exactly when some
    /// declared body addresses a slot of the wrong kind or one that
    /// neither exists nor is declared by this same jar.
    pub fn add_jar(&mut self, jar: JarDescription) -> (r: Option<usize>)
        requires
            old(self).wf(),
        ensures
            final(self).wf(),
            final(self).runtime == old(self).runtime,
            match r {
                Some(base) => {
                    &&& base as int == old(self).slot_count()
                    &&& jar_ok(old(self).slots@, jar.ingredients@)
                    &&& final(self).slot_count() == old(self).slot_count()
                        + jar.ingredients@.len()
                    &&& forall|s: int|
                        0 <= s < old(self).slot_count() ==> final(self).slots@[s] == old(
                            self,
                        ).slots@[s]
                    &&& forall|i: int|
                        0 <= i < jar.ingredients@.len() ==> decl_matches_slot(
                            jar.ingredients@[i],
                            #[trigger] final(self).slots@[base + i],
                        )
                },
                None => {
                    &&& !jar_ok(old(self).slots@, jar.ingredients@)
                    &&& *final(self) == *old(self)
                },
            },
    {
        let ghost decls = jar.ingredients@;
        let base = self.slots.len();
        // First pass: validate every declared body against the combined
        // table, without touching the database.
        let mut i: usize = 0;
        while i < jar.ingredients.len()
            invariant
                old(self).wf(),
                *self == *old(self),
                jar.ingredients@ == decls,
                0 <= i <= decls.len(),
                forall|j: int|
                    0 <= j < i && (#[trigger] decls[j]) is Function ==> decl_body_ok(
                        self.slots@,
                        decls,
                        decls[j]->Function_0.body,
                    ),
            decreases decls.len() - i,
        {
            let ok = match &jar.ingredients[i] {
                IngredientDecl::Function(def) => self.check_body(&jar, &def.body),
                _ => true,
            };
            if !ok {
                return None;
            }
            i += 1;
        }
        assert(jar_ok(self.slots@, decls));
        // Second pass: append one slot per declaration, in order.
        let mut jar = jar;
        proof {
            assert(jar.ingredients@ =~= decls.subrange(0, decls.len() as int));
        }
        while jar.ingredients.len() > 0
            invariant
                old(self).wf(),
                jar_ok(old(self).slots@, decls),
                jar.ingredients@.len() <= decls.len(),
                self.runtime == old(self).runtime,
                base as int == old(self).slot_count(),
                self.slots@.len() == base + (decls.len() - jar.ingredients@.len()),
                jar.ingredients@ == decls.subrange(
                    decls.len() - jar.ingredients@.len(),
                    decls.len() as int,
                ),
                forall|s: int| 0 <= s < base ==> self.slots@[s] == old(self).slots@[s],
                forall|j: int|
                    0 <= j < decls.len() - jar.ingredients@.len() ==> decl_matches_slot(
                        decls[j],
                        #[trigger] self.slots@[base + j],
                    ),
            decreases jar.ingredients@.len(),
        {
            let ghost remaining = jar.ingredients@;
            let d = jar.ingredients.remove(0);
            proof {
                let start = decls.len() - remaining.len();
                assert(remaining == decls.subrange(start as int, decls.len() as int));
                assert(decls.subrange(start as int, decls.len() as int)[0] == decls[start as int]);
                assert(d == decls[start as int]);
                assert(jar.ingredients@ == remaining.remove(0));
                assert(jar.ingredients@ =~= decls.subrange(start as int + 1, decls.len() as int));
            }
            let slot = match d {
                IngredientDecl::Input => Slot::Input(InputStore { cells: HashMap::new() }),
                IngredientDecl::Function(def) => Slot::Function(
                    FunctionStore { def, memos: HashMap::new() },
                ),
                IngredientDecl::Accumulator => Slot::Accumulator,
            };
            self.slots.push(slot);
        }
        proof {
            let pre = old(self).slots@;
            let post = self.slots@;
            assert(jar.ingredients@.len() == 0);
            // Every pre-existing body stays addressable, every new body
            // becomes addressable in the built table.
            assert forall|s: int| #[trigger] function_at(post, s) implies body_ok(
                post,
                self.def_of(s).body,
            ) by {
                if s < base {
                    assert(function_at(pre, s));
                    assert(old(self).def_of(s) == self.def_of(s));
                    lemma_body_ok_mono(pre, post, self.def_of(s).body);
                } else {
                    assert(decl_matches_slot(decls[s - base], post[base as int + (s - base)]));
                    assert(post[base as int + (s - base)] == post[s]);
                    assert(decls[s - base] is Function);
                    assert(self.def_of(s) == decls[s - base]->Function_0);
                    lemma_decl_body_ok(pre, decls, post, self.def_of(s).body);
                }
            }
            assert forall|s: int, k: u64| function_at(post, s) implies match #[trigger] self
                .memo_of(s, k) {
                Some(m) => crate::database::memo_ok(post, self.rev(), m),
                None => true,
            } by {
                if s < base {
                    assert(self.memo_of(s, k) == old(self).memo_of(s, k));
                } else {
                    assert(decl_matches_slot(decls[s - base], post[base as int + (s - base)]));
                    assert(post[base as int + (s - base)] == post[s]);
                    assert(self.memo_of(s, k) is None);
                }
            }
            assert forall|s: int, k: u64| input_at(post, s) implies match #[trigger] self.cell_of(
                s,
                k,
            ) {
                Some(c) => c.changed_at.number as int <= self.rev(),
                None => true,
            } by {
                if s < base {
                    assert(self.cell_of(s, k) == old(self).cell_of(s, k));
                } else {
                    assert(decl_matches_slot(decls[s - base], post[base as int + (s - base)]));
                    assert(post[base as int + (s - base)] == post[s]);
                    assert(self.cell_of(s, k) is None);
                }
            }
            assert forall|i2: int| 0 <= i2 < self.runtime.stack@.len() implies frame_ok(
                post,
                self.runtime.stack@[i2],
            ) by {
                assert(frame_ok(pre, old(self).runtime.stack@[i2]));
            }
        }
        Some(base)
    }
}

} // verus!
