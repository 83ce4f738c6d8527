//! Query bodies.  A declared query's body is a small expression over the
//! database: it reads inputs, fetches other queries, emits values into
//! accumulators and combines results.  Because the body is data, the
//! engine records exactly the dependency edges the body reads, and the
//! cycle detector sees every nested fetch.

use vstd::prelude::*;

verus! {

use crate::support::CyclePolicy;

/// The body of a declared query.
#[derive(Debug)]
pub enum Expr {
    /// A constant value.
    Literal(u64),
    /// Read the input ingredient at the given slot and key.
    Input(usize, u64),
    /// Fetch the memoized query at the given slot and key.
    Fetch(usize, u64),
    /// The saturating sum of two sub-results.
    Sum(Box<Expr>, Box<Expr>),
    /// Push the sub-result into the accumulator at the given slot and
    /// pass the value through.
    Emit(usize, Box<Expr>),
    /// A read outside the tracked graph, modeled as a constant; it marks
    /// the enclosing query as untracked, forcing recomputation every
    /// revision and never backdating.
    UntrackedRead(u64),
}

impl Expr {
    /// Structural size, the termination measure for walking a body.
    pub open spec fn size(self) -> nat
        decreases self,
    {
        match self {
            Expr::Literal(_) => 1,
            Expr::Input(_, _) => 1,
            Expr::Fetch(_, _) => 1,
            Expr::Sum(a, b) => 1 + a.size() + b.size(),
            Expr::Emit(_, e) => 1 + e.size(),
            Expr::UntrackedRead(_) => 1,
        }
    }

    /// How many fetch sites a body contains; the depth budget of a fetch
    /// is derived from the total over all declared queries.
    pub fn count_fetch_sites(&self) -> (r: u64)
        decreases *self,
    {
        match self {
            Expr::Literal(_) => 0,
            Expr::Input(_, _) => 0,
            Expr::Fetch(_, _) => 1,
            Expr::Sum(a, b) => {
                let ca = a.count_fetch_sites();
                let cb = b.count_fetch_sites();
                if ca <= u64::MAX - cb {
                    ca + cb
                } else {
                    u64::MAX
                }
            },
            Expr::Emit(_, e) => e.count_fetch_sites(),
            Expr::UntrackedRead(_) => 0,
        }
    }
}

/// Configuration of one declared query: its body, whether value-equality
/// backdating is disabled, and how a self-referential computation is
/// resolved.
#[derive(Debug)]
pub struct QueryDef {
    pub body: Expr,
    /// When true, a recomputation always takes `changed_at` to the
    /// current revision, even if the new value equals the old one.
    pub no_eq: bool,
    pub policy: CyclePolicy,
}

/// One ingredient as a jar declares it.
#[derive(Debug)]
pub enum IngredientDecl {
    /// A settable input cell family.
    Input,
    /// A memoized query.
    Function(QueryDef),
    /// An append-only side-channel log.
    Accumulator,
}

/// A named group of ingredients composed into a database.  Jars are
/// registered one after another; each ingredient receives a stable index
/// equal to its position in the combined table.
#[derive(Debug)]
pub struct JarDescription {
    pub ingredients: Vec<IngredientDecl>,
}

} // verus!
