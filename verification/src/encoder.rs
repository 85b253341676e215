//! The encoding session: a backend, the table of variables, and a debug
//! flag.

use vstd::prelude::*;
use crate::backend::{Backend, SolveResult, Solver};
use crate::constraints::{Constraint, ConstraintRepr};
use crate::lit::VarType;
use crate::model::Model;
use crate::varmap::{obeys_var_model, SatVar, VarMap};

verus! {

/// Everything one encoding session works with.
pub struct Encoder<V, S> {
    pub backend: S,
    pub varmap: VarMap<V>,
    pub debug: bool,
}

/// `format!` with the pretty debug form: the text that describes `c`.
#[verifier::external_body]
fn debug_text<C: std::fmt::Debug>(c: &C) -> (text: String) {
    format!("{:#?}", c)
}

/// `format!`: the text `" <arrow> <repr>"`, with `repr` in decimal.
#[verifier::external_body]
fn repr_text(arrow: &str, repr: i32) -> (text: String) {
    format!(" {} {}", arrow, repr)
}

impl<V: SatVar, S: Default> Encoder<V, S> {
    /// A session over a default backend, without debug output.
    pub fn new() -> (e: Self)
        requires
            obeys_var_model::<V>(),
        ensures
            e.varmap.wf(),
            e.varmap@ == Seq::<Option<V>>::empty(),
            !e.debug,
    {
        Encoder { backend: S::default(), varmap: VarMap::new(), debug: false }
    }

    /// A session over a default backend that describes every constraint to
    /// the backend before it is encoded.
    pub fn with_debug() -> (e: Self)
        requires
            obeys_var_model::<V>(),
        ensures
            e.varmap.wf(),
            e.varmap@ == Seq::<Option<V>>::empty(),
            e.debug,
    {
        Encoder { backend: S::default(), varmap: VarMap::new(), debug: true }
    }
}

impl<V: SatVar, B: Backend> Encoder<V, B> {
    /// A session over `backend`, without debug output.
    pub fn with_backend(backend: B) -> (e: Self)
        requires
            obeys_var_model::<V>(),
        ensures
            e.varmap.wf(),
            e.varmap@ == Seq::<Option<V>>::empty(),
            e.backend == backend,
            !e.debug,
    {
        Encoder { backend, varmap: VarMap::new(), debug: false }
    }

    /// Encodes `constraint`: its clauses go to the backend, its variables
    /// into the table.
    pub fn add_constraint<C: Constraint<V>>(&mut self, constraint: C)
        requires
            old(self).varmap.wf(),
            constraint.fits(old(self).varmap@),
        ensures
            final(self).varmap.wf(),
            final(self).varmap@ == constraint.encoded(old(self).varmap@).names,
            final(self).backend.clauses() == old(self).backend.clauses() + constraint.encoded(
                old(self).varmap@,
            ).clauses,
            final(self).debug == old(self).debug,
    {
        if self.debug {
            let text = debug_text(&constraint);
            self.backend.add_debug_info(text.as_str());
        }
        constraint.encode(&mut self.backend, &mut self.varmap);
    }

    /// Encodes `constraint` so that the returned literal is true whenever
    /// the constraint holds.
    pub fn add_constraint_implies_repr<C: ConstraintRepr<V>>(&mut self, constraint: C) -> (r:
        VarType<V>)
        requires
            old(self).varmap.wf(),
            constraint.implies_fits(None, old(self).varmap@),
        ensures
            final(self).varmap.wf(),
            final(self).varmap@ == constraint.implies_encoded(None, old(self).varmap@).names,
            final(self).backend.clauses() == old(self).backend.clauses()
                + constraint.implies_encoded(None, old(self).varmap@).clauses,
            r matches VarType::Unnamed(i) && i == constraint.implies_encoded(
                None,
                old(self).varmap@,
            ).repr,
            r.well_formed(),
            final(self).debug == old(self).debug,
    {
        if self.debug {
            let text = debug_text(&constraint);
            self.backend.add_debug_info(text.as_str());
        }
        let repr = constraint.encode_constraint_implies_repr(
            None,
            &mut self.backend,
            &mut self.varmap,
        );
        if self.debug {
            let text = repr_text("=>", repr);
            self.backend.append_debug_info(text.as_str());
        }
        VarType::Unnamed(repr)
    }

    /// Encodes `constraint` so that the returned literal is true exactly if
    /// the constraint holds.
    pub fn add_constraint_equals_repr<C: ConstraintRepr<V>>(&mut self, constraint: C) -> (r:
        VarType<V>)
        requires
            old(self).varmap.wf(),
            constraint.equals_fits(None, old(self).varmap@),
        ensures
            final(self).varmap.wf(),
            final(self).varmap@ == constraint.equals_encoded(None, old(self).varmap@).names,
            final(self).backend.clauses() == old(self).backend.clauses()
                + constraint.equals_encoded(None, old(self).varmap@).clauses,
            r matches VarType::Unnamed(i) && i == constraint.equals_encoded(
                None,
                old(self).varmap@,
            ).repr,
            r.well_formed(),
            final(self).debug == old(self).debug,
    {
        if self.debug {
            let text = debug_text(&constraint);
            self.backend.add_debug_info(text.as_str());
        }
        let repr = constraint.encode_constraint_equals_repr(
            None,
            &mut self.backend,
            &mut self.varmap,
        );
        if self.debug {
            let text = repr_text("==", repr);
            self.backend.append_debug_info(text.as_str());
        }
        VarType::Unnamed(repr)
    }
}

/// Asks `backend`, which holds a model, for the truth value of each of the
/// variables `1 ..= n`, and returns the values in this order.
pub fn read_values<S: Solver>(backend: &mut S, n: usize) -> (values: Vec<bool>)
    requires
        old(backend).has_model(),
        n < i32::MAX,
    ensures
        values@.len() == n,
        forall|i: int|
            0 <= i < n ==> #[trigger] values@[i] == final(backend).model_value((i + 1) as i32),
        forall|v: i32| #[trigger] final(backend).model_value(v) == old(backend).model_value(v),
        final(backend).has_model(),
        final(backend).clauses() == old(backend).clauses(),
{
    let mut values: Vec<bool> = Vec::new();
    let mut i: usize = 0;
    while i < n
        invariant
            i <= n,
            n < i32::MAX,
            values@.len() == i,
            forall|j: int| 0 <= j < i ==> #[trigger] values@[j] == old(backend).model_value(
                (j + 1) as i32,
            ),
            forall|v: i32| #[trigger] backend.model_value(v) == old(backend).model_value(v),
            backend.has_model(),
            backend.clauses() == old(backend).clauses(),
        decreases n - i,
    {
        let b = backend.value((i + 1) as i32);
        values.push(b);
        i += 1;
    }
    values
}

impl<V: SatVar, S: Solver> Encoder<V, S> {
    /// Asks the backend for a satisfying assignment. Where it finds one, the
    /// model gives every variable numbered so far the truth value that the
    /// backend's assignment gives it; where the clauses cannot be satisfied,
    /// or the backend gives up, the result is `None`.
    pub fn solve(&mut self) -> (r: Option<Model<V>>)
        requires
            old(self).varmap.wf(),
        ensures
            final(self).varmap == old(self).varmap,
            final(self).debug == old(self).debug,
            final(self).backend.clauses() == old(self).backend.clauses(),
            r is Some == final(self).backend.has_model(),
            r matches Some(m) ==> m.wf() && m.names() == old(self).varmap@ && forall|i: int|
                0 <= i < m.values().len() ==> #[trigger] m.values()[i] == final(self)
                    .backend.model_value((i + 1) as i32),
    {
        match self.backend.solve() {
            SolveResult::Sat => {
                proof {
                    self.varmap.lemma_wf();
                }
                let n = self.varmap.num_vars();
                let values = read_values(&mut self.backend, n as usize);
                Some(Model::from_values(&self.varmap, values))
            },
            _ => None,
        }
    }
}

} // verus!
