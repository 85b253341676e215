//! Literals, clauses and equalities as constraints.

use vstd::prelude::*;
use crate::backend::{all_literals, ints, is_literal, Backend};
use crate::circuit::{clause1, clause2, equal_clauses, only_if, or_clauses, Circuit, Direction};
use crate::constraints::util::{pick_repr, repr_lit, repr_names};
use crate::constraints::{repr_ok, Constraint, ConstraintRepr, Encoded};
use crate::lit::{Lit, VarType};
use crate::varmap::{
    all_well_formed, lemma_with_lit_extends, lemma_with_lits_extends, lit_id, lit_ids, with_lit,
    with_lits, SatVar, VarMap,
};

verus! {

/// Whether the literal `lit` can be numbered in `names`.
pub open spec fn lit_fits<V>(names: Seq<Option<V>>, lit: VarType<V>) -> bool {
    lit.well_formed() && with_lit(names, lit).len() < i32::MAX
}

/// The encoding of "`lit` is true": its unit clause.
pub open spec fn lit_encoded<V>(names: Seq<Option<V>>, lit: VarType<V>) -> Encoded<V> {
    let named = with_lit(names, lit);
    Encoded { names: named, clauses: seq![seq![lit_id(named, lit)]], repr: 0 }
}

/// The reification of "`lit` is true": the literal represents itself; a
/// representative `r` given from outside gets the clause `{-lit, r}`, and,
/// where it shall equal the literal, `{lit, -r}` too.
pub open spec fn lit_repr_encoded<V>(
    names: Seq<Option<V>>,
    lit: VarType<V>,
    repr: Option<i32>,
    equal: bool,
) -> Encoded<V> {
    let named = with_lit(names, lit);
    let id = lit_id(named, lit);
    match repr {
        Some(r) => Encoded {
            names: named,
            clauses: seq![seq![-id, r as int]] + only_if(equal, seq![seq![id, -r]]),
            repr: r as int,
        },
        None => Encoded { names: named, clauses: Seq::empty(), repr: id },
    }
}

/// Writes a reification of "`lit` is true".
pub fn encode_lit_repr<V: SatVar, B: Backend>(
    lit: VarType<V>,
    repr: Option<i32>,
    equal: bool,
    backend: &mut B,
    varmap: &mut VarMap<V>,
) -> (r: i32)
    requires
        old(varmap).wf(),
        repr_ok(repr),
        lit_fits(old(varmap)@, lit),
    ensures
        final(varmap).wf(),
        final(varmap)@ == lit_repr_encoded(old(varmap)@, lit, repr, equal).names,
        final(backend).clauses() == old(backend).clauses() + lit_repr_encoded(
            old(varmap)@,
            lit,
            repr,
            equal,
        ).clauses,
        r == lit_repr_encoded(old(varmap)@, lit, repr, equal).repr,
        is_literal(r),
        repr is Some ==> r == repr->0,
{
    let id = varmap.add_var(lit);
    match repr {
        Some(r) => {
            backend.add_clause(&clause2(-id, r));
            if equal {
                backend.add_clause(&clause2(id, -r));
            }
            assert(backend.clauses() =~= old(backend).clauses() + lit_repr_encoded(
                old(varmap)@,
                lit,
                repr,
                equal,
            ).clauses);
            r
        },
        None => {
            assert(backend.clauses() =~= old(backend).clauses() + Seq::<Seq<int>>::empty());
            id
        },
    }
}

impl<V: SatVar> Constraint<V> for VarType<V> {
    open spec fn fits(self, names: Seq<Option<V>>) -> bool {
        lit_fits(names, self)
    }

    open spec fn encoded(self, names: Seq<Option<V>>) -> Encoded<V> {
        lit_encoded(names, self)
    }

    fn encode<B: Backend>(self, backend: &mut B, varmap: &mut VarMap<V>) {
        let id = varmap.add_var(self);
        backend.add_clause(&clause1(id));
        assert(backend.clauses() =~= old(backend).clauses() + lit_encoded(
            old(varmap)@,
            self,
        ).clauses);
    }
}

impl<V: SatVar> ConstraintRepr<V> for VarType<V> {
    open spec fn implies_fits(self, repr: Option<i32>, names: Seq<Option<V>>) -> bool {
        lit_fits(names, self)
    }

    open spec fn implies_encoded(self, repr: Option<i32>, names: Seq<Option<V>>) -> Encoded<V> {
        lit_repr_encoded(names, self, repr, false)
    }

    open spec fn equals_fits(self, repr: Option<i32>, names: Seq<Option<V>>) -> bool {
        lit_fits(names, self)
    }

    open spec fn equals_encoded(self, repr: Option<i32>, names: Seq<Option<V>>) -> Encoded<V> {
        lit_repr_encoded(names, self, repr, true)
    }

    fn encode_constraint_implies_repr<B: Backend>(
        self,
        repr: Option<i32>,
        backend: &mut B,
        varmap: &mut VarMap<V>,
    ) -> (r: i32) {
        encode_lit_repr(self, repr, false, backend, varmap)
    }

    fn encode_constraint_equals_repr<B: Backend>(
        self,
        repr: Option<i32>,
        backend: &mut B,
        varmap: &mut VarMap<V>,
    ) -> (r: i32) {
        encode_lit_repr(self, repr, true, backend, varmap)
    }
}

impl<V: SatVar> Constraint<V> for Lit<V> {
    open spec fn fits(self, names: Seq<Option<V>>) -> bool {
        lit_fits(names, VarType::Named(self))
    }

    open spec fn encoded(self, names: Seq<Option<V>>) -> Encoded<V> {
        lit_encoded(names, VarType::Named(self))
    }

    fn encode<B: Backend>(self, backend: &mut B, varmap: &mut VarMap<V>) {
        VarType::Named(self).encode(backend, varmap)
    }
}

impl<V: SatVar> ConstraintRepr<V> for Lit<V> {
    open spec fn implies_fits(self, repr: Option<i32>, names: Seq<Option<V>>) -> bool {
        lit_fits(names, VarType::Named(self))
    }

    open spec fn implies_encoded(self, repr: Option<i32>, names: Seq<Option<V>>) -> Encoded<V> {
        lit_repr_encoded(names, VarType::Named(self), repr, false)
    }

    open spec fn equals_fits(self, repr: Option<i32>, names: Seq<Option<V>>) -> bool {
        lit_fits(names, VarType::Named(self))
    }

    open spec fn equals_encoded(self, repr: Option<i32>, names: Seq<Option<V>>) -> Encoded<V> {
        lit_repr_encoded(names, VarType::Named(self), repr, true)
    }

    fn encode_constraint_implies_repr<B: Backend>(
        self,
        repr: Option<i32>,
        backend: &mut B,
        varmap: &mut VarMap<V>,
    ) -> (r: i32) {
        encode_lit_repr(VarType::Named(self), repr, false, backend, varmap)
    }

    fn encode_constraint_equals_repr<B: Backend>(
        self,
        repr: Option<i32>,
        backend: &mut B,
        varmap: &mut VarMap<V>,
    ) -> (r: i32) {
        encode_lit_repr(VarType::Named(self), repr, true, backend, varmap)
    }
}

/// At least one of the literals is true.
#[derive(Debug, Clone)]
pub struct Clause<V>(pub Vec<VarType<V>>);

/// Whether the literals `lits` can be numbered in `names`.
pub open spec fn lits_fit<V>(names: Seq<Option<V>>, lits: Seq<VarType<V>>) -> bool {
    all_well_formed(lits) && with_lits(names, lits).len() < i32::MAX
}

/// The encoding of "one of `lits` is true": the one clause of all of them.
pub open spec fn clause_encoded<V>(names: Seq<Option<V>>, lits: Seq<VarType<V>>) -> Encoded<V> {
    let named = with_lits(names, lits);
    Encoded { names: named, clauses: seq![lit_ids(named, lits)], repr: 0 }
}

/// The reification of "one of `lits` is true": the representative as the
/// output of an OR gate over the literals, written forward, or in both
/// directions where it shall equal the clause.
pub open spec fn clause_repr_encoded<V>(
    names: Seq<Option<V>>,
    lits: Seq<VarType<V>>,
    repr: Option<i32>,
    equal: bool,
) -> Encoded<V> {
    let r = repr_lit(names, repr);
    let named = with_lits(repr_names(names, repr), lits);
    Encoded {
        names: named,
        clauses: or_clauses(
            if equal {
                Direction::Both
            } else {
                Direction::InToOut
            },
            lit_ids(named, lits),
            r,
        ),
        repr: r,
    }
}

/// Writes a reification of "one of `lits` is true".
pub fn encode_clause_repr<V: SatVar, B: Backend>(
    lits: &Vec<VarType<V>>,
    repr: Option<i32>,
    equal: bool,
    backend: &mut B,
    varmap: &mut VarMap<V>,
) -> (r: i32)
    requires
        old(varmap).wf(),
        repr_ok(repr),
        lits_fit(repr_names(old(varmap)@, repr), lits@),
    ensures
        final(varmap).wf(),
        final(varmap)@ == clause_repr_encoded(old(varmap)@, lits@, repr, equal).names,
        final(backend).clauses() == old(backend).clauses() + clause_repr_encoded(
            old(varmap)@,
            lits@,
            repr,
            equal,
        ).clauses,
        r == clause_repr_encoded(old(varmap)@, lits@, repr, equal).repr,
        is_literal(r),
        repr is Some ==> r == repr->0,
{
    proof {
        lemma_with_lits_extends(repr_names(varmap@, repr), lits@);
    }
    let r = pick_repr(repr, varmap);
    let ids = varmap.add_vars(lits);
    let circuit = Circuit::new(if equal { Direction::Both } else { Direction::InToOut });
    circuit.or_gate(backend, &ids, r);
    r
}

impl<V: SatVar> Constraint<V> for Clause<V> {
    open spec fn fits(self, names: Seq<Option<V>>) -> bool {
        lits_fit(names, self.0@)
    }

    open spec fn encoded(self, names: Seq<Option<V>>) -> Encoded<V> {
        clause_encoded(names, self.0@)
    }

    fn encode<B: Backend>(self, backend: &mut B, varmap: &mut VarMap<V>) {
        let ids = varmap.add_vars(&self.0);
        backend.add_clause(&ids);
        assert(backend.clauses() =~= old(backend).clauses() + clause_encoded(
            old(varmap)@,
            self.0@,
        ).clauses);
    }
}

impl<V: SatVar> ConstraintRepr<V> for Clause<V> {
    open spec fn implies_fits(self, repr: Option<i32>, names: Seq<Option<V>>) -> bool {
        lits_fit(repr_names(names, repr), self.0@)
    }

    open spec fn implies_encoded(self, repr: Option<i32>, names: Seq<Option<V>>) -> Encoded<V> {
        clause_repr_encoded(names, self.0@, repr, false)
    }

    open spec fn equals_fits(self, repr: Option<i32>, names: Seq<Option<V>>) -> bool {
        lits_fit(repr_names(names, repr), self.0@)
    }

    open spec fn equals_encoded(self, repr: Option<i32>, names: Seq<Option<V>>) -> Encoded<V> {
        clause_repr_encoded(names, self.0@, repr, true)
    }

    fn encode_constraint_implies_repr<B: Backend>(
        self,
        repr: Option<i32>,
        backend: &mut B,
        varmap: &mut VarMap<V>,
    ) -> (r: i32) {
        encode_clause_repr(&self.0, repr, false, backend, varmap)
    }

    fn encode_constraint_equals_repr<B: Backend>(
        self,
        repr: Option<i32>,
        backend: &mut B,
        varmap: &mut VarMap<V>,
    ) -> (r: i32) {
        encode_clause_repr(&self.0, repr, true, backend, varmap)
    }
}

/// All the literals have the same truth value.
#[derive(Debug, Clone)]
pub struct Equal<V>(pub Vec<VarType<V>>);

/// The clauses that make each of `ids` equal to the one after it.
pub open spec fn equal_chain(ids: Seq<int>, i: int) -> Seq<Seq<int>>
    decreases i,
{
    if i <= 0 {
        Seq::empty()
    } else {
        equal_chain(ids, i - 1) + equal_clauses(Direction::Both, ids[i - 1], ids[i])
    }
}

/// The encoding of "all of `lits` are equal": each literal is made equal to
/// the one after it.
pub open spec fn equal_encoded<V>(names: Seq<Option<V>>, lits: Seq<VarType<V>>) -> Encoded<V> {
    let named = with_lits(names, lits);
    Encoded { names: named, clauses: equal_chain(lit_ids(named, lits), lits.len() - 1), repr: 0 }
}

impl<V: SatVar> Constraint<V> for Equal<V> {
    open spec fn fits(self, names: Seq<Option<V>>) -> bool {
        lits_fit(names, self.0@)
    }

    open spec fn encoded(self, names: Seq<Option<V>>) -> Encoded<V> {
        equal_encoded(names, self.0@)
    }

    fn encode<B: Backend>(self, backend: &mut B, varmap: &mut VarMap<V>) {
        let ids = varmap.add_vars(&self.0);
        let circuit = Circuit::new(Direction::Both);
        let ghost iv = ints(ids@);
        let n = ids.len();
        let mut i: usize = 1;
        assert(backend.clauses() =~= old(backend).clauses() + equal_chain(iv, 0));
        while i < n
            invariant
                1 <= i,
                i <= n || (n == 0 && i == 1),
                n == ids@.len(),
                all_literals(ids@),
                iv == ints(ids@),
                circuit.dir == Direction::Both,
                backend.clauses() == old(backend).clauses() + equal_chain(iv, i - 1),
            decreases n - i,
        {
            assert(iv[i - 1] == ids@[i - 1] && iv[i as int] == ids@[i as int]);
            circuit.equal(backend, ids[i - 1], ids[i]);
            assert(backend.clauses() =~= old(backend).clauses() + equal_chain(iv, i as int));
            i += 1;
        }
        proof {
            if n == 0 {
                assert(equal_chain(iv, -1) == Seq::<Seq<int>>::empty());
                assert(equal_chain(iv, 0) == Seq::<Seq<int>>::empty());
            }
            assert(backend.clauses() == old(backend).clauses() + equal_chain(iv, n as int - 1));
            assert(iv == lit_ids(varmap@, self.0@));
            assert(n as int - 1 == self.0@.len() - 1);
        }
    }
}

} // verus!
