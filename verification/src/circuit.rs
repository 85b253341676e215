//! Logic gates written out as clauses, in one or both directions.

use vstd::prelude::*;
use crate::backend::{all_literals, ints, is_literal, lemma_ints_push, Backend};

verus! {

/// Which halves of a gate's definition are written out.
#[derive(Debug, Clone, Copy, PartialEq, Eq, Structural)]
pub enum Direction {
    /// The inputs force the output.
    InToOut,
    /// The output forces the inputs.
    OutToIn,
    /// Both halves of the definition.
    Both,
}

impl Direction {
    /// Whether the half "inputs force the output" is written.
    pub open spec fn forward(self) -> bool {
        self != Direction::OutToIn
    }

    /// Whether the half "output forces the inputs" is written.
    pub open spec fn backward(self) -> bool {
        self != Direction::InToOut
    }

    /// Computes `forward`.
    pub fn has_forward(&self) -> (b: bool)
        ensures
            b == self.forward(),
    {
        match self {
            Direction::OutToIn => false,
            _ => true,
        }
    }

    /// Computes `backward`.
    pub fn has_backward(&self) -> (b: bool)
        ensures
            b == self.backward(),
    {
        match self {
            Direction::InToOut => false,
            _ => true,
        }
    }
}

/// Every literal of `lits` negated.
pub open spec fn negs(lits: Seq<int>) -> Seq<int> {
    Seq::new(lits.len(), |i: int| -lits[i])
}

/// For each literal `l` of `lits`, in order, the clause `{first, l}`.
pub open spec fn pair_clauses(first: int, lits: Seq<int>) -> Seq<Seq<int>> {
    Seq::new(lits.len(), |i: int| seq![first, lits[i]])
}

/// For each literal `l` of `lits`, in order, the clause `{-l, last}`.
pub open spec fn guard_clauses(lits: Seq<int>, last: int) -> Seq<Seq<int>> {
    Seq::new(lits.len(), |i: int| seq![-lits[i], last])
}

/// `clauses` if `cond`, else nothing.
pub open spec fn only_if(cond: bool, clauses: Seq<Seq<int>>) -> Seq<Seq<int>> {
    if cond {
        clauses
    } else {
        Seq::empty()
    }
}

/// The clauses of `a <-> b`: `{-a, b}` forward, `{a, -b}` backward.
pub open spec fn equal_clauses(dir: Direction, a: int, b: int) -> Seq<Seq<int>> {
    only_if(dir.forward(), seq![seq![-a, b]]) + only_if(dir.backward(), seq![seq![a, -b]])
}

/// The clause of `not a`.
pub open spec fn zero_clauses(a: int) -> Seq<Seq<int>> {
    seq![seq![-a]]
}

/// The clauses of `o <-> AND(inputs)`: forward the one clause
/// `{-i1, .., -ik, o}`, backward a clause `{-o, ij}` for every input.
pub open spec fn and_clauses(dir: Direction, inputs: Seq<int>, o: int) -> Seq<Seq<int>> {
    only_if(dir.forward(), seq![negs(inputs).push(o)]) + only_if(
        dir.backward(),
        pair_clauses(-o, inputs),
    )
}

/// The clauses of `o <-> OR(inputs)`: forward a clause `{-ij, o}` for every
/// input, backward the one clause `{-o, i1, .., ik}`.
pub open spec fn or_clauses(dir: Direction, inputs: Seq<int>, o: int) -> Seq<Seq<int>> {
    only_if(dir.forward(), guard_clauses(inputs, o)) + only_if(
        dir.backward(),
        seq![seq![-o] + inputs],
    )
}

/// A clause of one literal.
pub fn clause1(a: i32) -> (c: Vec<i32>)
    ensures
        c@ == seq![a],
        ints(c@) == seq![a as int],
{
    let mut c: Vec<i32> = Vec::new();
    c.push(a);
    assert(c@ =~= seq![a]);
    assert(ints(c@) =~= seq![a as int]);
    c
}

/// A clause of two literals.
pub fn clause2(a: i32, b: i32) -> (c: Vec<i32>)
    ensures
        c@ == seq![a, b],
        ints(c@) == seq![a as int, b as int],
{
    let mut c: Vec<i32> = Vec::new();
    c.push(a);
    c.push(b);
    assert(c@ =~= seq![a, b]);
    assert(ints(c@) =~= seq![a as int, b as int]);
    c
}

/// A clause of three literals.
pub fn clause3(a: i32, b: i32, d: i32) -> (c: Vec<i32>)
    ensures
        c@ == seq![a, b, d],
        ints(c@) == seq![a as int, b as int, d as int],
{
    let mut c: Vec<i32> = Vec::new();
    c.push(a);
    c.push(b);
    c.push(d);
    assert(c@ =~= seq![a, b, d]);
    assert(ints(c@) =~= seq![a as int, b as int, d as int]);
    c
}

/// Writes gates to a backend in a fixed direction.
pub struct Circuit {
    pub dir: Direction,
}

impl Circuit {
    /// A gate writer for direction `dir`.
    pub fn new(dir: Direction) -> (c: Self)
        ensures
            c.dir == dir,
    {
        Circuit { dir }
    }

    /// Writes `a <-> b`.
    pub fn equal<B: Backend>(&self, backend: &mut B, a: i32, b: i32)
        requires
            is_literal(a),
            is_literal(b),
        ensures
            final(backend).clauses() == old(backend).clauses() + equal_clauses(
                self.dir,
                a as int,
                b as int,
            ),
    {
        if self.dir.has_forward() {
            backend.add_clause(&clause2(-a, b));
        }
        if self.dir.has_backward() {
            backend.add_clause(&clause2(a, -b));
        }
        assert(backend.clauses() =~= old(backend).clauses() + equal_clauses(
            self.dir,
            a as int,
            b as int,
        ));
    }

    /// Writes `not a`, whatever the direction.
    pub fn set_zero<B: Backend>(&self, backend: &mut B, a: i32)
        requires
            is_literal(a),
        ensures
            final(backend).clauses() == old(backend).clauses() + zero_clauses(a as int),
    {
        backend.add_clause(&clause1(-a));
        assert(backend.clauses() =~= old(backend).clauses() + zero_clauses(a as int));
    }

    /// Writes `o <-> AND(inputs)`.
    pub fn and_gate<B: Backend>(&self, backend: &mut B, inputs: &Vec<i32>, o: i32)
        requires
            all_literals(inputs@),
            is_literal(o),
        ensures
            final(backend).clauses() == old(backend).clauses() + and_clauses(
                self.dir,
                ints(inputs@),
                o as int,
            ),
    {
        let n: usize = inputs.len();
        if self.dir.has_forward() {
            let mut c: Vec<i32> = Vec::new();
            let mut i: usize = 0;
            while i < n
                invariant
                    i <= n,
                    n == inputs@.len(),
                    all_literals(inputs@),
                    all_literals(c@),
                    ints(c@) == negs(ints(inputs@)).take(i as int),
                decreases n - i,
            {
                proof {
                    lemma_ints_push(c@, (-inputs[i as int]) as i32);
                }
                c.push(-inputs[i]);
                assert(ints(c@) =~= negs(ints(inputs@)).take(i as int + 1));
                i += 1;
            }
            proof {
                lemma_ints_push(c@, o);
            }
            c.push(o);
            assert(ints(c@) =~= negs(ints(inputs@)).push(o as int));
            backend.add_clause(&c);
        }
        let ghost mid = backend.clauses();
        assert(mid =~= old(backend).clauses() + only_if(
            self.dir.forward(),
            seq![negs(ints(inputs@)).push(o as int)],
        ));
        if self.dir.has_backward() {
            let mut i: usize = 0;
            while i < n
                invariant
                    i <= n,
                    n == inputs@.len(),
                    all_literals(inputs@),
                    is_literal(o),
                    backend.clauses() == mid + pair_clauses(-o, ints(inputs@)).take(i as int),
                decreases n - i,
            {
                backend.add_clause(&clause2(-o, inputs[i]));
                assert(backend.clauses() =~= mid + pair_clauses(-o, ints(inputs@)).take(
                    i as int + 1,
                ));
                i += 1;
            }
            assert(pair_clauses(-o, ints(inputs@)).take(n as int) =~= pair_clauses(
                -o,
                ints(inputs@),
            ));
        }
        assert(backend.clauses() =~= old(backend).clauses() + and_clauses(
            self.dir,
            ints(inputs@),
            o as int,
        ));
    }

    /// Writes `o <-> OR(inputs)`.
    pub fn or_gate<B: Backend>(&self, backend: &mut B, inputs: &Vec<i32>, o: i32)
        requires
            all_literals(inputs@),
            is_literal(o),
        ensures
            final(backend).clauses() == old(backend).clauses() + or_clauses(
                self.dir,
                ints(inputs@),
                o as int,
            ),
    {
        let n: usize = inputs.len();
        let ghost fwd = guard_clauses(ints(inputs@), o as int);
        if self.dir.has_forward() {
            let mut i: usize = 0;
            while i < n
                invariant
                    i <= n,
                    n == inputs@.len(),
                    all_literals(inputs@),
                    is_literal(o),
                    fwd == guard_clauses(ints(inputs@), o as int),
                    backend.clauses() == old(backend).clauses() + fwd.take(i as int),
                decreases n - i,
            {
                backend.add_clause(&clause2(-inputs[i], o));
                assert(backend.clauses() =~= old(backend).clauses() + fwd.take(i as int + 1));
                i += 1;
            }
            assert(fwd.take(n as int) =~= fwd);
        }
        let ghost mid = backend.clauses();
        assert(mid =~= old(backend).clauses() + only_if(self.dir.forward(), fwd));
        if self.dir.has_backward() {
            let mut c: Vec<i32> = Vec::new();
            c.push(-o);
            let mut i: usize = 0;
            while i < n
                invariant
                    i <= n,
                    n == inputs@.len(),
                    all_literals(inputs@),
                    all_literals(c@),
                    ints(c@) == seq![-o as int] + ints(inputs@).take(i as int),
                decreases n - i,
            {
                proof {
                    lemma_ints_push(c@, inputs[i as int]);
                }
                c.push(inputs[i]);
                assert(ints(c@) =~= seq![-o as int] + ints(inputs@).take(i as int + 1));
                i += 1;
            }
            assert(ints(inputs@).take(n as int) =~= ints(inputs@));
            backend.add_clause(&c);
        }
        assert(backend.clauses() =~= old(backend).clauses() + or_clauses(
            self.dir,
            ints(inputs@),
            o as int,
        ));
    }
}

} // verus!
