//! Constraints and what it means to encode one.

pub mod basic;
pub mod basic_proofs;
pub mod bounds;
pub mod bounds_proofs;
pub mod cardinality;
pub mod count_proofs;
pub mod counter_proofs;
pub mod expr;
pub mod expr_proofs;
pub mod logic;
pub mod same;
pub mod same_proofs;
pub mod same_repr_proofs;
pub mod test_util;
pub mod util;

pub use basic::{Clause, Equal};
pub use bounds::{AtMostK, AtleastK, ExactlyK};
pub use expr::Expr;
pub use logic::{And, If, Or};
pub use same::SameCardinality;

use vstd::prelude::*;
use crate::backend::Backend;
use crate::varmap::{SatVar, VarMap};

verus! {

/// What encoding a constraint does: the table of variables afterwards, the
/// clauses written, and the literal that represents the constraint (0 where
/// the encoding has none).
pub struct Encoded<V> {
    pub names: Seq<Option<V>>,
    pub clauses: Seq<Seq<int>>,
    pub repr: int,
}

/// Whether a representative handed in by the caller is a signed solver
/// literal.
pub open spec fn repr_ok(repr: Option<i32>) -> bool {
    match repr {
        Some(r) => crate::backend::is_literal(r),
        None => true,
    }
}

/// Something that can be written to a backend as a finite list of clauses.
pub trait Constraint<V: SatVar>: std::fmt::Debug + Sized {
    /// Whether this constraint can be encoded into a table `names`: its
    /// parameters are in range and the table has room for the variables the
    /// encoding numbers.
    open spec fn fits(self, names: Seq<Option<V>>) -> bool {
        arbitrary()
    }

    /// The encoding of this constraint into a table `names`.
    open spec fn encoded(self, names: Seq<Option<V>>) -> Encoded<V> {
        arbitrary()
    }

    /// Writes the clauses of this constraint to `backend`, numbering its
    /// variables in `varmap`.
    fn encode<B: Backend>(self, backend: &mut B, varmap: &mut VarMap<V>)
        requires
            old(varmap).wf(),
            self.fits(old(varmap)@),
        ensures
            final(varmap).wf(),
            final(varmap)@ == self.encoded(old(varmap)@).names,
            final(backend).clauses() == old(backend).clauses() + self.encoded(
                old(varmap)@,
            ).clauses,
    ;
}

/// A constraint that can be tied to a single literal, its representative.
pub trait ConstraintRepr<V: SatVar>: Constraint<V> {
    /// Whether the one-sided reification can be encoded into `names`.
    open spec fn implies_fits(self, repr: Option<i32>, names: Seq<Option<V>>) -> bool {
        arbitrary()
    }

    /// The encoding of "if the constraint holds, the representative is true".
    open spec fn implies_encoded(self, repr: Option<i32>, names: Seq<Option<V>>) -> Encoded<V> {
        arbitrary()
    }

    /// Whether the two-sided reification can be encoded into `names`.
    open spec fn equals_fits(self, repr: Option<i32>, names: Seq<Option<V>>) -> bool {
        arbitrary()
    }

    /// The encoding of "the representative is true exactly if the constraint
    /// holds".
    open spec fn equals_encoded(self, repr: Option<i32>, names: Seq<Option<V>>) -> Encoded<V> {
        arbitrary()
    }

    /// Writes clauses that force the representative true whenever the
    /// constraint holds, and returns the representative: `repr` where one is
    /// given, else a literal of the encoding's choice.
    fn encode_constraint_implies_repr<B: Backend>(
        self,
        repr: Option<i32>,
        backend: &mut B,
        varmap: &mut VarMap<V>,
    ) -> (r: i32)
        requires
            old(varmap).wf(),
            repr_ok(repr),
            self.implies_fits(repr, old(varmap)@),
        ensures
            final(varmap).wf(),
            final(varmap)@ == self.implies_encoded(repr, old(varmap)@).names,
            final(backend).clauses() == old(backend).clauses() + self.implies_encoded(
                repr,
                old(varmap)@,
            ).clauses,
            r == self.implies_encoded(repr, old(varmap)@).repr,
            crate::backend::is_literal(r),
            repr is Some ==> r == repr->0,
    ;

    /// Writes clauses that make the representative true exactly if the
    /// constraint holds, and returns the representative.
    fn encode_constraint_equals_repr<B: Backend>(
        self,
        repr: Option<i32>,
        backend: &mut B,
        varmap: &mut VarMap<V>,
    ) -> (r: i32)
        requires
            old(varmap).wf(),
            repr_ok(repr),
            self.equals_fits(repr, old(varmap)@),
        ensures
            final(varmap).wf(),
            final(varmap)@ == self.equals_encoded(repr, old(varmap)@).names,
            final(backend).clauses() == old(backend).clauses() + self.equals_encoded(
                repr,
                old(varmap)@,
            ).clauses,
            r == self.equals_encoded(repr, old(varmap)@).repr,
            crate::backend::is_literal(r),
            repr is Some ==> r == repr->0,
    ;

    /// Writes whichever of the two reifications is cheaper for this
    /// constraint, and returns the representative. Unless a constraint says
    /// otherwise, that is the one-sided reification.
    fn encode_constraint_repr_cheap<B: Backend>(
        self,
        repr: Option<i32>,
        backend: &mut B,
        varmap: &mut VarMap<V>,
    ) -> (r: i32)
        requires
            old(varmap).wf(),
            repr_ok(repr),
            self.implies_fits(repr, old(varmap)@),
            self.equals_fits(repr, old(varmap)@),
        ensures
            final(varmap).wf(),
            crate::backend::is_literal(r),
            repr is Some ==> r == repr->0,
            written(
                self.implies_encoded(repr, old(varmap)@),
                old(varmap)@,
                old(backend).clauses(),
                final(varmap)@,
                final(backend).clauses(),
                r as int,
            ) || written(
                self.equals_encoded(repr, old(varmap)@),
                old(varmap)@,
                old(backend).clauses(),
                final(varmap)@,
                final(backend).clauses(),
                r as int,
            ),
    {
        self.encode_constraint_implies_repr(repr, backend, varmap)
    }
}

/// Whether a session that stood at the table `names` and the clause stream
/// `clauses` stands, after the encoding `e` was written, at `names_after`
/// and `clauses_after`, with the representative `repr`.
pub open spec fn written<V>(
    e: Encoded<V>,
    names: Seq<Option<V>>,
    clauses: Seq<Seq<int>>,
    names_after: Seq<Option<V>>,
    clauses_after: Seq<Seq<int>>,
    repr: int,
) -> bool {
    &&& names_after == e.names
    &&& clauses_after == clauses + e.clauses
    &&& repr == e.repr
}

/// The clause stream and the table of variables after a constraint was
/// encoded, given the stream and the table before.
pub open spec fn session_after<V: SatVar, C: Constraint<V>>(
    clauses: Seq<Seq<int>>,
    names: Seq<Option<V>>,
    constraint: C,
) -> (Seq<Seq<int>>, Seq<Option<V>>) {
    (clauses + constraint.encoded(names).clauses, constraint.encoded(names).names)
}

/// Two sessions that stand at the same clause stream and the same table of
/// variables, and encode the same constraint, stand at the same clause
/// stream and the same table afterwards; so they have numbered equally many
/// variables.
pub proof fn sessions_stay_equal<V: SatVar, C: Constraint<V>>(
    clauses1: Seq<Seq<int>>,
    names1: Seq<Option<V>>,
    constraint1: C,
    clauses2: Seq<Seq<int>>,
    names2: Seq<Option<V>>,
    constraint2: C,
)
    requires
        clauses1 == clauses2,
        names1 == names2,
        constraint1 == constraint2,
    ensures
        session_after(clauses1, names1, constraint1) == session_after(
            clauses2,
            names2,
            constraint2,
        ),
        session_after(clauses1, names1, constraint1).1.len() == session_after(
            clauses2,
            names2,
            constraint2,
        ).1.len(),
{
}

} // verus!
