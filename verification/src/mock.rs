//! A backend that records clauses and never finds a model.

use vstd::prelude::*;
use crate::backend::{ints, Backend, IncrementalSolver, SolveResult, Solver};

verus! {

/// Records every clause it is given.
pub struct MockSolver {
    clauses: Vec<Vec<i32>>,
}

/// The rows of `v` as a sequence of sequences.
pub open spec fn rows(v: Seq<Vec<i32>>) -> Seq<Seq<int>> {
    Seq::new(v.len(), |i: int| ints(v[i]@))
}

impl MockSolver {
    /// A recorder that has seen no clause.
    pub fn new() -> (s: Self)
        ensures
            s.clauses() == Seq::<Seq<int>>::empty(),
    {
        let s = MockSolver { clauses: Vec::new() };
        assert(s.clauses() =~= Seq::<Seq<int>>::empty());
        s
    }

    /// A copy of the recorded clauses, oldest first.
    pub fn get_clauses(&self) -> (out: Vec<Vec<i32>>)
        ensures
            rows(out@) == self.clauses(),
    {
        let mut out: Vec<Vec<i32>> = Vec::new();
        let mut i: usize = 0;
        while i < self.clauses.len()
            invariant
                i <= self.clauses.len(),
                out.len() == i,
                forall|j: int| 0 <= j < i ==> out@[j]@ == self.clauses@[j]@,
            decreases self.clauses.len() - i,
        {
            let row = copy_row(&self.clauses[i]);
            out.push(row);
            i += 1;
        }
        assert(rows(out@) =~= self.clauses());
        out
    }

    /// Forgets every recorded clause.
    pub fn clear_clauses(&mut self)
        ensures
            final(self).clauses() == Seq::<Seq<int>>::empty(),
    {
        self.clauses = Vec::new();
        assert(self.clauses() =~= Seq::<Seq<int>>::empty());
    }
}

/// An element-wise copy of `row`.
pub fn copy_row(row: &Vec<i32>) -> (out: Vec<i32>)
    ensures
        out@ == row@,
{
    let mut out: Vec<i32> = Vec::new();
    let mut i: usize = 0;
    while i < row.len()
        invariant
            i <= row.len(),
            out@ == row@.take(i as int),
        decreases row.len() - i,
    {
        out.push(row[i]);
        assert(row@.take(i as int + 1) =~= row@.take(i as int).push(row@[i as int]));
        i += 1;
    }
    assert(row@.take(row.len() as int) =~= row@);
    out
}

impl Backend for MockSolver {
    closed spec fn clauses(&self) -> Seq<Seq<int>> {
        rows(self.clauses@)
    }

    fn add_clause(&mut self, lits: &Vec<i32>) {
        let row = copy_row(lits);
        self.clauses.push(row);
        assert(self.clauses() =~= old(self).clauses().push(ints(lits@)));
    }
}

impl Solver for MockSolver {
    open spec fn has_model(&self) -> bool {
        false
    }

    fn solve(&mut self) -> (r: SolveResult)
        ensures
            r == SolveResult::Unknown,
    {
        SolveResult::Unknown
    }

    open spec fn model_value(&self, var: i32) -> bool {
        false
    }

    fn value(&mut self, var: i32) -> (b: bool)
        ensures
            !b,
    {
        false
    }
}

impl IncrementalSolver for MockSolver {
    fn assumption_solve(&mut self, assumptions: &Vec<i32>) -> (r: SolveResult)
        ensures
            r == SolveResult::Unknown,
    {
        SolveResult::Unknown
    }
}

} // verus!
