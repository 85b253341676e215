//! Interfaces through which clauses leave the encoder.

use vstd::prelude::*;

verus! {

/// Outcome of asking a solver for a satisfying assignment.
#[derive(Debug, Clone, Copy, PartialEq, Eq, Structural)]
pub enum SolveResult {
    Sat,
    Unsat,
    Unknown,
}

/// A signed solver literal: nonzero, and with a negation that fits the
/// integer type.
pub open spec fn is_literal(l: i32) -> bool {
    l != 0 && l != i32::MIN
}

/// Whether every entry of `lits` is a signed solver literal.
pub open spec fn all_literals(lits: Seq<i32>) -> bool {
    forall|i: int| 0 <= i < lits.len() ==> is_literal(#[trigger] lits[i])
}

/// The entries of `lits` as mathematical integers.
pub open spec fn ints(lits: Seq<i32>) -> Seq<int> {
    Seq::new(lits.len(), |i: int| lits[i] as int)
}

/// Appending a literal and reading the clause as integers commute.
pub proof fn lemma_ints_push(lits: Seq<i32>, l: i32)
    ensures
        ints(lits.push(l)) == ints(lits).push(l as int),
        ints(lits).len() == lits.len(),
{
    assert(ints(lits.push(l)) =~= ints(lits).push(l as int));
}

/// A consumer of clauses.
///
/// The clauses received so far form a sequence; every clause is a sequence of
/// nonzero signed literals read as a disjunction. A backend states in
/// `clauses` what it has received. The body given here stands for backends
/// that state nothing: nothing follows from it.
pub trait Backend {
    /// The clauses this backend has received, oldest first.
    open spec fn clauses(&self) -> Seq<Seq<int>> {
        arbitrary()
    }

    /// Appends one clause.
    fn add_clause(&mut self, lits: &Vec<i32>)
        requires
            all_literals(lits@),
        ensures
            final(self).clauses() == old(self).clauses().push(ints(lits@)),
    ;

    /// Takes a description of the constraint that is encoded next. A backend
    /// may show it; the clauses are not affected.
    fn add_debug_info(&mut self, info: &str)
        ensures
            final(self).clauses() == old(self).clauses(),
    {
    }

    /// Takes more text for the description given last.
    fn append_debug_info(&mut self, info: &str)
        ensures
            final(self).clauses() == old(self).clauses(),
    {
    }
}

/// A backend that can search for a satisfying assignment.
pub trait Solver: Backend {
    /// Whether the last search ended with a satisfying assignment that can
    /// still be queried.
    open spec fn has_model(&self) -> bool {
        arbitrary()
    }

    /// Runs the search; the stored clauses are left as they were.
    fn solve(&mut self) -> (r: SolveResult)
        ensures
            final(self).clauses() == old(self).clauses(),
            final(self).has_model() == (r == SolveResult::Sat),
    ;

    /// The truth value that the assignment found by the last search gives
    /// to `var`. It means something only while the solver holds a model.
    open spec fn model_value(&self, var: i32) -> bool {
        arbitrary()
    }

    /// Truth value of variable `var` in the assignment found by the last
    /// successful `solve`. Asking changes neither the clauses nor the
    /// assignment.
    fn value(&mut self, var: i32) -> (b: bool)
        requires
            is_literal(var),
            old(self).has_model(),
        ensures
            b == old(self).model_value(var),
            final(self).has_model(),
            final(self).clauses() == old(self).clauses(),
            forall|v: i32| #[trigger] final(self).model_value(v) == old(self).model_value(v),
    ;
}

/// A solver that can search under assumptions that are forgotten afterwards.
pub trait IncrementalSolver: Solver {
    /// Runs one search in which every literal of `assumptions` is held true.
    fn assumption_solve(&mut self, assumptions: &Vec<i32>) -> (r: SolveResult)
        requires
            all_literals(assumptions@),
        ensures
            final(self).clauses() == old(self).clauses(),
            final(self).has_model() == (r == SolveResult::Sat),
    ;
}

} // verus!
