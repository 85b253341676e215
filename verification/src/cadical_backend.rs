//! The CaDiCaL solver as a backend.

use vstd::prelude::*;
use crate::backend::{all_literals, ints, is_literal, Backend, IncrementalSolver, SolveResult};

verus! {

/// An instance of the CaDiCaL incremental SAT solver.
#[verifier::external_body]
pub struct CadicalSolver {
    inner: cadical::Solver,
}

/// The clauses added to a CaDiCaL instance so far, oldest first.
pub uninterp spec fn cadical_clauses(s: CadicalSolver) -> Seq<Seq<int>>;

/// Whether the instance's status is "satisfiable", so that the model of its
/// last search can be read.
pub uninterp spec fn cadical_has_model(s: CadicalSolver) -> bool;

/// `cadical::Solver::new`: a fresh instance, to which no clause was added.
#[verifier::external_body]
fn cadical_new() -> (s: CadicalSolver)
    ensures
        cadical_clauses(s) == Seq::<Seq<int>>::empty(),
{
    CadicalSolver { inner: cadical::Solver::new() }
}

/// `cadical::Solver::add_clause`: hands the literals of one clause to the
/// solver, which appends the clause to its formula. The solver asks that
/// every literal is nonzero and not the least integer.
#[verifier::external_body]
fn cadical_add_clause(s: &mut CadicalSolver, lits: &Vec<i32>)
    requires
        all_literals(lits@),
    ensures
        cadical_clauses(*final(s)) == cadical_clauses(*old(s)).push(ints(lits@)),
{
    s.inner.add_clause(lits.iter().copied());
}

/// `cadical::Solver::solve`: searches for a model of the formula and returns
/// `Some(true)` where it found one, `Some(false)` where there is none, `None`
/// where it gave up. The formula is not changed, and the status afterwards is
/// the returned one.
#[verifier::external_body]
fn cadical_solve(s: &mut CadicalSolver) -> (r: Option<bool>)
    ensures
        cadical_clauses(*final(s)) == cadical_clauses(*old(s)),
        cadical_has_model(*final(s)) == (r == Some(true)),
{
    s.inner.solve()
}

/// `cadical::Solver::solve_with`: one search in which the given literals are
/// assumed; otherwise as `solve`.
#[verifier::external_body]
fn cadical_solve_with(s: &mut CadicalSolver, assumptions: &Vec<i32>) -> (r: Option<bool>)
    requires
        all_literals(assumptions@),
    ensures
        cadical_clauses(*final(s)) == cadical_clauses(*old(s)),
        cadical_has_model(*final(s)) == (r == Some(true)),
{
    s.inner.solve_with(assumptions.iter().copied())
}

/// What an instance whose status is "satisfiable" answers when it is asked
/// for the value of a literal: the value that its model gives, or `None`
/// where the model leaves it open.
pub uninterp spec fn cadical_model_value(s: CadicalSolver, lit: i32) -> Option<bool>;

/// `cadical::Solver::value`: the value of a literal in the last model, or
/// `None` where the model leaves it open; the answer is read from the
/// instance, which is not changed. The solver asks that its status is
/// "satisfiable" and that the literal is nonzero and not the least integer.
#[verifier::external_body]
fn cadical_value(s: &CadicalSolver, lit: i32) -> (r: Option<bool>)
    requires
        is_literal(lit),
        cadical_has_model(*s),
    ensures
        r == cadical_model_value(*s, lit),
{
    s.inner.value(lit)
}

/// An encoding session over CaDiCaL.
pub type CadicalEncoder<V> = crate::encoder::Encoder<V, CadicalSolver>;

/// The search outcome that a CaDiCaL answer stands for.
pub fn solve_result(answer: Option<bool>) -> (r: SolveResult)
    ensures
        r == match answer {
            Some(true) => SolveResult::Sat,
            Some(false) => SolveResult::Unsat,
            None => SolveResult::Unknown,
        },
{
    match answer {
        Some(true) => SolveResult::Sat,
        Some(false) => SolveResult::Unsat,
        None => SolveResult::Unknown,
    }
}

/// The truth value reported for a variable: the model's value, and `true`
/// where the model leaves the variable open.
pub fn value_or_true(answer: Option<bool>) -> (b: bool)
    ensures
        b == (answer != Some(false)),
{
    match answer {
        Some(b) => b,
        None => true,
    }
}

impl CadicalSolver {
    /// A solver whose formula is empty.
    pub fn new() -> (s: Self)
        ensures
            s.clauses() == Seq::<Seq<int>>::empty(),
    {
        cadical_new()
    }
}

impl Default for CadicalSolver {
    fn default() -> (s: Self)
        ensures
            s.clauses() == Seq::<Seq<int>>::empty(),
    {
        cadical_new()
    }
}

impl Backend for CadicalSolver {
    open spec fn clauses(&self) -> Seq<Seq<int>> {
        cadical_clauses(*self)
    }

    fn add_clause(&mut self, lits: &Vec<i32>) {
        cadical_add_clause(self, lits)
    }
}

impl crate::backend::Solver for CadicalSolver {
    open spec fn has_model(&self) -> bool {
        cadical_has_model(*self)
    }

    fn solve(&mut self) -> (r: SolveResult) {
        solve_result(cadical_solve(self))
    }

    open spec fn model_value(&self, var: i32) -> bool {
        cadical_model_value(*self, var) != Some(false)
    }

    fn value(&mut self, var: i32) -> (b: bool) {
        value_or_true(cadical_value(self, var))
    }
}

impl IncrementalSolver for CadicalSolver {
    fn assumption_solve(&mut self, assumptions: &Vec<i32>) -> (r: SolveResult) {
        solve_result(cadical_solve_with(self, assumptions))
    }
}

} // verus!
