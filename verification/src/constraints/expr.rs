//! Boolean expressions over literals.

use vstd::prelude::*;
use crate::backend::{all_literals, ints, is_literal, Backend};
use crate::circuit::{and_clauses, clause1, clause2, or_clauses, Circuit, Direction};
use crate::constraints::bounds::{pick_dir, repr_dir};
use crate::constraints::util::{tie_clauses, tie_repr, tied};
use crate::constraints::{repr_ok, Constraint, ConstraintRepr, Encoded};
use crate::lit::VarType;
use crate::varmap::{lit_id, with_lit, SatVar, VarMap};

verus! {

/// A Boolean expression.
#[derive(Debug)]
pub enum Expr<V> {
    /// A literal.
    Lit(VarType<V>),
    /// The negation of an expression.
    Not(Box<Expr<V>>),
    /// The conjunction of two expressions.
    And(Box<Expr<V>>, Box<Expr<V>>),
    /// The disjunction of two expressions.
    Or(Box<Expr<V>>, Box<Expr<V>>),
}

impl Direction {
    /// The direction with forward and backward exchanged: the one in which
    /// the gates under a negation are written.
    pub open spec fn flipped(self) -> Direction {
        match self {
            Direction::InToOut => Direction::OutToIn,
            Direction::OutToIn => Direction::InToOut,
            Direction::Both => Direction::Both,
        }
    }

    /// Computes `flipped`.
    pub fn flip(self) -> (d: Direction)
        ensures
            d == self.flipped(),
    {
        match self {
            Direction::InToOut => Direction::OutToIn,
            Direction::OutToIn => Direction::InToOut,
            Direction::Both => Direction::Both,
        }
    }
}

/// The encoding of an expression as a circuit: a literal stands for
/// itself, a negation for the negated literal of what it negates, and a
/// conjunction or disjunction for a fresh variable that is the output of an
/// AND or OR gate over the literals of its two sides, the left side encoded
/// first. The gates are written in direction `dir`, those under a negation
/// in the flipped one.
pub open spec fn expr_encoded<V>(names: Seq<Option<V>>, e: Expr<V>, dir: Direction) -> Encoded<V>
    decreases e,
{
    match e {
        Expr::Lit(l) => {
            let named = with_lit(names, l);
            Encoded { names: named, clauses: Seq::empty(), repr: lit_id(named, l) }
        },
        Expr::Not(x) => {
            let p = expr_encoded(names, *x, dir.flipped());
            Encoded { names: p.names, clauses: p.clauses, repr: -p.repr }
        },
        Expr::And(x, y) => {
            let p = expr_encoded(names, *x, dir);
            let q = expr_encoded(p.names, *y, dir);
            let o = q.names.len() as int + 1;
            Encoded {
                names: q.names.push(None),
                clauses: p.clauses + q.clauses + and_clauses(dir, seq![p.repr, q.repr], o),
                repr: o,
            }
        },
        Expr::Or(x, y) => {
            let p = expr_encoded(names, *x, dir);
            let q = expr_encoded(p.names, *y, dir);
            let o = q.names.len() as int + 1;
            Encoded {
                names: q.names.push(None),
                clauses: p.clauses + q.clauses + or_clauses(dir, seq![p.repr, q.repr], o),
                repr: o,
            }
        },
    }
}

/// Whether an expression can be encoded into `names`: its literals are
/// well-formed and the variable numbers stay in range.
pub open spec fn expr_fits<V>(names: Seq<Option<V>>, e: Expr<V>) -> bool
    decreases e,
{
    match e {
        Expr::Lit(l) => l.well_formed() && with_lit(names, l).len() < i32::MAX,
        Expr::Not(x) => expr_fits(names, *x),
        Expr::And(x, y) => {
            &&& expr_fits(names, *x)
            &&& expr_fits(expr_encoded(names, *x, Direction::Both).names, *y)
            &&& expr_encoded(
                expr_encoded(names, *x, Direction::Both).names,
                *y,
                Direction::Both,
            ).names.len() + 1 < i32::MAX
        },
        Expr::Or(x, y) => {
            &&& expr_fits(names, *x)
            &&& expr_fits(expr_encoded(names, *x, Direction::Both).names, *y)
            &&& expr_encoded(
                expr_encoded(names, *x, Direction::Both).names,
                *y,
                Direction::Both,
            ).names.len() + 1 < i32::MAX
        },
    }
}

/// The table after an expression was encoded does not depend on the
/// direction.
pub proof fn lemma_expr_names<V>(names: Seq<Option<V>>, e: Expr<V>, dir: Direction)
    ensures
        expr_encoded(names, e, dir).names == expr_encoded(names, e, Direction::Both).names,
    decreases e,
{
    match e {
        Expr::Lit(l) => {},
        Expr::Not(x) => {
            lemma_expr_names(names, *x, dir.flipped());
        },
        Expr::And(x, y) => {
            lemma_expr_names(names, *x, dir);
            lemma_expr_names(expr_encoded(names, *x, dir).names, *y, dir);
        },
        Expr::Or(x, y) => {
            lemma_expr_names(names, *x, dir);
            lemma_expr_names(expr_encoded(names, *x, dir).names, *y, dir);
        },
    }
}

/// Writes the circuit of an expression and returns the literal that stands
/// for it.
pub fn encode_expr<V: SatVar, B: Backend>(
    e: Expr<V>,
    dir: Direction,
    backend: &mut B,
    varmap: &mut VarMap<V>,
) -> (r: i32)
    requires
        old(varmap).wf(),
        expr_fits(old(varmap)@, e),
    ensures
        final(varmap).wf(),
        final(varmap)@ == expr_encoded(old(varmap)@, e, dir).names,
        final(backend).clauses() == old(backend).clauses() + expr_encoded(
            old(varmap)@,
            e,
            dir,
        ).clauses,
        r == expr_encoded(old(varmap)@, e, dir).repr,
        is_literal(r),
    decreases e,
{
    let ghost names = varmap@;
    match e {
        Expr::Lit(l) => {
            let r = varmap.add_var(l);
            assert(backend.clauses() =~= old(backend).clauses() + Seq::<Seq<int>>::empty());
            r
        },
        Expr::Not(x) => {
            let r = encode_expr(*x, dir.flip(), backend, varmap);
            -r
        },
        Expr::And(x, y) => {
            proof {
                lemma_expr_names(names, *x, dir);
                lemma_expr_names(expr_encoded(names, *x, dir).names, *y, dir);
            }
            let p = encode_expr(*x, dir, backend, varmap);
            let q = encode_expr(*y, dir, backend, varmap);
            let o = varmap.new_var();
            Circuit::new(dir).and_gate(backend, &clause2(p, q), o);
            assert(backend.clauses() =~= old(backend).clauses() + expr_encoded(
                names,
                e,
                dir,
            ).clauses);
            o
        },
        Expr::Or(x, y) => {
            proof {
                lemma_expr_names(names, *x, dir);
                lemma_expr_names(expr_encoded(names, *x, dir).names, *y, dir);
            }
            let p = encode_expr(*x, dir, backend, varmap);
            let q = encode_expr(*y, dir, backend, varmap);
            let o = varmap.new_var();
            Circuit::new(dir).or_gate(backend, &clause2(p, q), o);
            assert(backend.clauses() =~= old(backend).clauses() + expr_encoded(
                names,
                e,
                dir,
            ).clauses);
            o
        },
    }
}

/// The encoding of "the expression is true": its circuit, in which the
/// outputs force the inputs, and the unit clause of its literal.
pub open spec fn expr_true_encoded<V>(names: Seq<Option<V>>, e: Expr<V>) -> Encoded<V> {
    let p = expr_encoded(names, e, Direction::OutToIn);
    Encoded { names: p.names, clauses: p.clauses.push(seq![p.repr]), repr: 0 }
}

/// The reification of an expression: its circuit, in which the inputs
/// force the outputs, or written in both directions where the
/// representative shall equal the expression; the literal of the expression
/// represents it and is made equal to a representative given from outside.
pub open spec fn expr_repr_encoded<V>(
    names: Seq<Option<V>>,
    e: Expr<V>,
    repr: Option<i32>,
    equal: bool,
) -> Encoded<V> {
    let p = expr_encoded(names, e, repr_dir(equal, Direction::InToOut));
    Encoded {
        names: p.names,
        clauses: p.clauses + tie_clauses(p.repr, repr),
        repr: tied(p.repr, repr),
    }
}

impl<V: SatVar> Constraint<V> for Expr<V> {
    open spec fn fits(self, names: Seq<Option<V>>) -> bool {
        expr_fits(names, self)
    }

    open spec fn encoded(self, names: Seq<Option<V>>) -> Encoded<V> {
        expr_true_encoded(names, self)
    }

    fn encode<B: Backend>(self, backend: &mut B, varmap: &mut VarMap<V>) {
        let r = encode_expr(self, Direction::OutToIn, backend, varmap);
        backend.add_clause(&clause1(r));
    }
}

impl<V: SatVar> ConstraintRepr<V> for Expr<V> {
    open spec fn implies_fits(self, repr: Option<i32>, names: Seq<Option<V>>) -> bool {
        expr_fits(names, self)
    }

    open spec fn implies_encoded(self, repr: Option<i32>, names: Seq<Option<V>>) -> Encoded<V> {
        expr_repr_encoded(names, self, repr, false)
    }

    open spec fn equals_fits(self, repr: Option<i32>, names: Seq<Option<V>>) -> bool {
        expr_fits(names, self)
    }

    open spec fn equals_encoded(self, repr: Option<i32>, names: Seq<Option<V>>) -> Encoded<V> {
        expr_repr_encoded(names, self, repr, true)
    }

    fn encode_constraint_implies_repr<B: Backend>(
        self,
        repr: Option<i32>,
        backend: &mut B,
        varmap: &mut VarMap<V>,
    ) -> (r: i32) {
        let p = encode_expr(self, Direction::InToOut, backend, varmap);
        tie_repr(p, repr, backend)
    }

    fn encode_constraint_equals_repr<B: Backend>(
        self,
        repr: Option<i32>,
        backend: &mut B,
        varmap: &mut VarMap<V>,
    ) -> (r: i32) {
        let p = encode_expr(self, Direction::Both, backend, varmap);
        tie_repr(p, repr, backend)
    }
}

} // verus!
