//! Bounds on how many of a list of literals are true.

use vstd::prelude::*;
use crate::backend::{ints, is_literal, Backend};
use crate::circuit::{clause1, clause2, clause3, guard_clauses, only_if, Direction};
use crate::constraints::cardinality::{counter_encoded, counter_fits, encode_cardinality_constraint};
use crate::constraints::util::{
    add_guards, add_negated_units, clause_with, pick_repr, repr_lit, repr_names, tie_clauses,
    tie_repr, tied, unit_negs,
};
use crate::constraints::{repr_ok, Constraint, ConstraintRepr, Encoded};
use crate::lit::VarType;
use crate::varmap::{all_well_formed, lemma_with_lits_extends, lit_ids, with_lits, SatVar, VarMap};

verus! {

/// The direction of the counter behind a reified bound.
pub open spec fn repr_dir(equal: bool, one_sided: Direction) -> Direction {
    if equal {
        Direction::Both
    } else {
        one_sided
    }
}

/// Computes `repr_dir`.
pub fn pick_dir(equal: bool, one_sided: Direction) -> (d: Direction)
    ensures
        d == repr_dir(equal, one_sided),
{
    if equal {
        Direction::Both
    } else {
        one_sided
    }
}

/// Whether "no literal is true, or the representative is" can be encoded.
pub open spec fn none_repr_fits<V>(
    names: Seq<Option<V>>,
    lits: Seq<VarType<V>>,
    repr: Option<i32>,
) -> bool {
    &&& all_well_formed(lits)
    &&& with_lits(repr_names(names, repr), lits).len() < i32::MAX
}

/// The reification of "no literal of `lits` is true": the clause
/// `{l1, .., ln, r}`, and, where the representative shall equal the
/// constraint, a clause `{-li, -r}` for every literal.
pub open spec fn none_repr_encoded<V>(
    names: Seq<Option<V>>,
    lits: Seq<VarType<V>>,
    repr: Option<i32>,
    equal: bool,
) -> Encoded<V> {
    let r = repr_lit(names, repr);
    let named = with_lits(repr_names(names, repr), lits);
    let ids = lit_ids(named, lits);
    Encoded {
        names: named,
        clauses: seq![ids.push(r)] + only_if(equal, guard_clauses(ids, -r)),
        repr: r,
    }
}

/// Writes the reification of "no literal of `lits` is true".
pub fn encode_none_repr<V: SatVar, B: Backend>(
    lits: &Vec<VarType<V>>,
    repr: Option<i32>,
    equal: bool,
    backend: &mut B,
    varmap: &mut VarMap<V>,
) -> (r: i32)
    requires
        old(varmap).wf(),
        repr_ok(repr),
        none_repr_fits(old(varmap)@, lits@, repr),
    ensures
        final(varmap).wf(),
        final(varmap)@ == none_repr_encoded(old(varmap)@, lits@, repr, equal).names,
        final(backend).clauses() == old(backend).clauses() + none_repr_encoded(
            old(varmap)@,
            lits@,
            repr,
            equal,
        ).clauses,
        r == none_repr_encoded(old(varmap)@, lits@, repr, equal).repr,
        is_literal(r),
        repr is Some ==> r == repr->0,
{
    proof {
        lemma_with_lits_extends(repr_names(varmap@, repr), lits@);
    }
    let r = pick_repr(repr, varmap);
    let ids = varmap.add_vars(lits);
    backend.add_clause(&clause_with(&ids, r));
    if equal {
        add_guards(backend, &ids, -r);
    }
    assert(backend.clauses() =~= old(backend).clauses() + none_repr_encoded(
        old(varmap)@,
        lits@,
        repr,
        equal,
    ).clauses);
    r
}

/// Whether "no literal is true" can be encoded.
pub open spec fn none_fits<V>(names: Seq<Option<V>>, lits: Seq<VarType<V>>) -> bool {
    &&& all_well_formed(lits)
    &&& with_lits(names, lits).len() < i32::MAX
}

/// The encoding of "no literal of `lits` is true": a unit clause against
/// every literal.
pub open spec fn none_encoded<V>(names: Seq<Option<V>>, lits: Seq<VarType<V>>) -> Encoded<V> {
    let named = with_lits(names, lits);
    Encoded { names: named, clauses: unit_negs(lit_ids(named, lits)), repr: 0 }
}

/// Writes a unit clause against every literal of `lits`.
pub fn encode_none<V: SatVar, B: Backend>(
    lits: &Vec<VarType<V>>,
    backend: &mut B,
    varmap: &mut VarMap<V>,
)
    requires
        old(varmap).wf(),
        none_fits(old(varmap)@, lits@),
    ensures
        final(varmap).wf(),
        final(varmap)@ == none_encoded(old(varmap)@, lits@).names,
        final(backend).clauses() == old(backend).clauses() + none_encoded(
            old(varmap)@,
            lits@,
        ).clauses,
{
    let ids = varmap.add_vars(lits);
    add_negated_units(backend, &ids);
}

/// At most `k` of `lits` are true.
#[derive(Debug, Clone)]
pub struct AtMostK<V> {
    pub lits: Vec<VarType<V>>,
    pub k: u32,
}

/// Whether a counter with `k + 1` outputs over `lits` can be encoded.
pub open spec fn over_fits<V>(names: Seq<Option<V>>, lits: Seq<VarType<V>>, k: u32) -> bool {
    k < u32::MAX && counter_fits(names, lits, k + 1, false)
}

/// Whether "at most `k` of `lits`" can be encoded into `names`.
pub open spec fn at_most_fits<V>(names: Seq<Option<V>>, lits: Seq<VarType<V>>, k: u32) -> bool {
    if k == 0 {
        none_fits(names, lits)
    } else {
        over_fits(names, lits, k)
    }
}

/// The encoding of "at most `k` of `lits`": for `k = 0` a unit clause
/// against every literal; else a counter with `k + 1` outputs in which the
/// inputs force the outputs, and the unit clause against its last output.
pub open spec fn at_most_encoded<V>(names: Seq<Option<V>>, lits: Seq<VarType<V>>, k: u32) -> Encoded<
    V,
> {
    if k == 0 {
        none_encoded(names, lits)
    } else {
        let c = counter_encoded(names, lits, k + 1, Direction::InToOut, None);
        Encoded { names: c.0, clauses: c.1.push(seq![-c.2[k as int]]), repr: 0 }
    }
}

/// Whether a reification of "at most `k` of `lits`" can be encoded.
pub open spec fn at_most_repr_fits<V>(
    names: Seq<Option<V>>,
    lits: Seq<VarType<V>>,
    k: u32,
    repr: Option<i32>,
) -> bool {
    if k == 0 {
        none_repr_fits(names, lits, repr)
    } else {
        over_fits(names, lits, k)
    }
}

/// The reification of "at most `k` of `lits`": for `k = 0` that of "no
/// literal is true"; else a counter with `k + 1` outputs, whose negated last
/// output represents the constraint and is made equal to a representative
/// given from outside. The counter's outputs force its inputs; where the
/// representative shall equal the constraint, the counter is written in
/// both directions.
pub open spec fn at_most_repr_encoded<V>(
    names: Seq<Option<V>>,
    lits: Seq<VarType<V>>,
    k: u32,
    repr: Option<i32>,
    equal: bool,
) -> Encoded<V> {
    if k == 0 {
        none_repr_encoded(names, lits, repr, equal)
    } else {
        let c = counter_encoded(names, lits, k + 1, repr_dir(equal, Direction::OutToIn), None);
        let r = -c.2[k as int];
        Encoded { names: c.0, clauses: c.1 + tie_clauses(r, repr), repr: tied(r, repr) }
    }
}

/// Writes a reification of "at most `k` of `lits`".
pub fn encode_at_most_repr<V: SatVar, B: Backend>(
    lits: &Vec<VarType<V>>,
    k: u32,
    repr: Option<i32>,
    equal: bool,
    backend: &mut B,
    varmap: &mut VarMap<V>,
) -> (r: i32)
    requires
        old(varmap).wf(),
        repr_ok(repr),
        at_most_repr_fits(old(varmap)@, lits@, k, repr),
    ensures
        final(varmap).wf(),
        final(varmap)@ == at_most_repr_encoded(old(varmap)@, lits@, k, repr, equal).names,
        final(backend).clauses() == old(backend).clauses() + at_most_repr_encoded(
            old(varmap)@,
            lits@,
            k,
            repr,
            equal,
        ).clauses,
        r == at_most_repr_encoded(old(varmap)@, lits@, k, repr, equal).repr,
        is_literal(r),
        repr is Some ==> r == repr->0,
{
    if k == 0 {
        encode_none_repr(lits, repr, equal, backend, varmap)
    } else {
        let dir = pick_dir(equal, Direction::OutToIn);
        let out = encode_cardinality_constraint(lits, k + 1, dir, None, backend, varmap);
        assert(ints(out@)[k as int] == out@[k as int]);
        let r: i32 = -out[k as usize];
        tie_repr(r, repr, backend)
    }
}

impl<V: SatVar> Constraint<V> for AtMostK<V> {
    open spec fn fits(self, names: Seq<Option<V>>) -> bool {
        at_most_fits(names, self.lits@, self.k)
    }

    open spec fn encoded(self, names: Seq<Option<V>>) -> Encoded<V> {
        at_most_encoded(names, self.lits@, self.k)
    }

    fn encode<B: Backend>(self, backend: &mut B, varmap: &mut VarMap<V>) {
        if self.k == 0 {
            encode_none(&self.lits, backend, varmap);
        } else {
            let out = encode_cardinality_constraint(
                &self.lits,
                self.k + 1,
                Direction::InToOut,
                None,
                backend,
                varmap,
            );
            assert(ints(out@)[self.k as int] == out@[self.k as int]);
            backend.add_clause(&clause1(-out[self.k as usize]));
        }
    }
}

impl<V: SatVar> ConstraintRepr<V> for AtMostK<V> {
    open spec fn implies_fits(self, repr: Option<i32>, names: Seq<Option<V>>) -> bool {
        at_most_repr_fits(names, self.lits@, self.k, repr)
    }

    open spec fn implies_encoded(self, repr: Option<i32>, names: Seq<Option<V>>) -> Encoded<V> {
        at_most_repr_encoded(names, self.lits@, self.k, repr, false)
    }

    open spec fn equals_fits(self, repr: Option<i32>, names: Seq<Option<V>>) -> bool {
        at_most_repr_fits(names, self.lits@, self.k, repr)
    }

    open spec fn equals_encoded(self, repr: Option<i32>, names: Seq<Option<V>>) -> Encoded<V> {
        at_most_repr_encoded(names, self.lits@, self.k, repr, true)
    }

    fn encode_constraint_implies_repr<B: Backend>(
        self,
        repr: Option<i32>,
        backend: &mut B,
        varmap: &mut VarMap<V>,
    ) -> (r: i32) {
        encode_at_most_repr(&self.lits, self.k, repr, false, backend, varmap)
    }

    fn encode_constraint_equals_repr<B: Backend>(
        self,
        repr: Option<i32>,
        backend: &mut B,
        varmap: &mut VarMap<V>,
    ) -> (r: i32) {
        encode_at_most_repr(&self.lits, self.k, repr, true, backend, varmap)
    }
}

/// At least `k` of `lits` are true.
#[derive(Debug, Clone)]
pub struct AtleastK<V> {
    pub lits: Vec<VarType<V>>,
    pub k: u32,
}

/// Whether "at least `k` of `lits`" can be encoded into `names`.
pub open spec fn at_least_fits<V>(names: Seq<Option<V>>, lits: Seq<VarType<V>>, k: u32) -> bool {
    k == 0 || counter_fits(names, lits, k as int, false)
}

/// The encoding of "at least `k` of `lits`": nothing for `k = 0`; else a
/// counter with `k` outputs in which the outputs force the inputs, and the
/// unit clause of its last output.
pub open spec fn at_least_encoded<V>(
    names: Seq<Option<V>>,
    lits: Seq<VarType<V>>,
    k: u32,
) -> Encoded<V> {
    if k == 0 {
        Encoded { names: names, clauses: Seq::empty(), repr: 0 }
    } else {
        let c = counter_encoded(names, lits, k as int, Direction::OutToIn, None);
        Encoded { names: c.0, clauses: c.1.push(seq![c.2[k - 1]]), repr: 0 }
    }
}

/// Whether a reification of "at least `k` of `lits`" can be encoded.
pub open spec fn at_least_repr_fits<V>(
    names: Seq<Option<V>>,
    lits: Seq<VarType<V>>,
    k: u32,
    repr: Option<i32>,
) -> bool {
    if k == 0 {
        repr_names(names, repr).len() < i32::MAX
    } else {
        counter_fits(names, lits, k as int, false)
    }
}

/// The reification of "at least `k` of `lits`": for `k = 0` the
/// representative as a unit clause; else a counter with `k` outputs, whose
/// last output represents the constraint and is made equal to a
/// representative given from outside. The counter's inputs force its
/// outputs; where the representative shall equal the constraint, the
/// counter is written in both directions.
pub open spec fn at_least_repr_encoded<V>(
    names: Seq<Option<V>>,
    lits: Seq<VarType<V>>,
    k: u32,
    repr: Option<i32>,
    equal: bool,
) -> Encoded<V> {
    if k == 0 {
        let r = repr_lit(names, repr);
        Encoded { names: repr_names(names, repr), clauses: seq![seq![r]], repr: r }
    } else {
        let c = counter_encoded(names, lits, k as int, repr_dir(equal, Direction::InToOut), None);
        let r = c.2[k - 1];
        Encoded { names: c.0, clauses: c.1 + tie_clauses(r, repr), repr: tied(r, repr) }
    }
}

/// Writes a reification of "at least `k` of `lits`".
pub fn encode_at_least_repr<V: SatVar, B: Backend>(
    lits: &Vec<VarType<V>>,
    k: u32,
    repr: Option<i32>,
    equal: bool,
    backend: &mut B,
    varmap: &mut VarMap<V>,
) -> (r: i32)
    requires
        old(varmap).wf(),
        repr_ok(repr),
        at_least_repr_fits(old(varmap)@, lits@, k, repr),
    ensures
        final(varmap).wf(),
        final(varmap)@ == at_least_repr_encoded(old(varmap)@, lits@, k, repr, equal).names,
        final(backend).clauses() == old(backend).clauses() + at_least_repr_encoded(
            old(varmap)@,
            lits@,
            k,
            repr,
            equal,
        ).clauses,
        r == at_least_repr_encoded(old(varmap)@, lits@, k, repr, equal).repr,
        is_literal(r),
        repr is Some ==> r == repr->0,
{
    if k == 0 {
        let r = pick_repr(repr, varmap);
        backend.add_clause(&clause1(r));
        assert(backend.clauses() =~= old(backend).clauses() + seq![seq![r as int]]);
        r
    } else {
        let dir = pick_dir(equal, Direction::InToOut);
        let out = encode_cardinality_constraint(lits, k, dir, None, backend, varmap);
        assert(ints(out@)[k - 1] == out@[k - 1]);
        let r: i32 = out[(k - 1) as usize];
        tie_repr(r, repr, backend)
    }
}

impl<V: SatVar> Constraint<V> for AtleastK<V> {
    open spec fn fits(self, names: Seq<Option<V>>) -> bool {
        at_least_fits(names, self.lits@, self.k)
    }

    open spec fn encoded(self, names: Seq<Option<V>>) -> Encoded<V> {
        at_least_encoded(names, self.lits@, self.k)
    }

    fn encode<B: Backend>(self, backend: &mut B, varmap: &mut VarMap<V>) {
        if self.k == 0 {
            assert(backend.clauses() =~= old(backend).clauses() + Seq::<Seq<int>>::empty());
        } else {
            let out = encode_cardinality_constraint(
                &self.lits,
                self.k,
                Direction::OutToIn,
                None,
                backend,
                varmap,
            );
            assert(ints(out@)[self.k - 1] == out@[self.k - 1]);
            backend.add_clause(&clause1(out[(self.k - 1) as usize]));
        }
    }
}

impl<V: SatVar> ConstraintRepr<V> for AtleastK<V> {
    open spec fn implies_fits(self, repr: Option<i32>, names: Seq<Option<V>>) -> bool {
        at_least_repr_fits(names, self.lits@, self.k, repr)
    }

    open spec fn implies_encoded(self, repr: Option<i32>, names: Seq<Option<V>>) -> Encoded<V> {
        at_least_repr_encoded(names, self.lits@, self.k, repr, false)
    }

    open spec fn equals_fits(self, repr: Option<i32>, names: Seq<Option<V>>) -> bool {
        at_least_repr_fits(names, self.lits@, self.k, repr)
    }

    open spec fn equals_encoded(self, repr: Option<i32>, names: Seq<Option<V>>) -> Encoded<V> {
        at_least_repr_encoded(names, self.lits@, self.k, repr, true)
    }

    fn encode_constraint_implies_repr<B: Backend>(
        self,
        repr: Option<i32>,
        backend: &mut B,
        varmap: &mut VarMap<V>,
    ) -> (r: i32) {
        encode_at_least_repr(&self.lits, self.k, repr, false, backend, varmap)
    }

    fn encode_constraint_equals_repr<B: Backend>(
        self,
        repr: Option<i32>,
        backend: &mut B,
        varmap: &mut VarMap<V>,
    ) -> (r: i32) {
        encode_at_least_repr(&self.lits, self.k, repr, true, backend, varmap)
    }
}

/// Exactly `k` of `lits` are true.
#[derive(Debug, Clone)]
pub struct ExactlyK<V> {
    pub lits: Vec<VarType<V>>,
    pub k: u32,
}

/// The encoding of "exactly `k` of `lits`": for `k = 0` a unit clause
/// against every literal; else a counter with `k + 1` outputs in both
/// directions, the unit clause of output `k - 1` and the unit clause against
/// output `k`.
pub open spec fn exactly_encoded<V>(names: Seq<Option<V>>, lits: Seq<VarType<V>>, k: u32) -> Encoded<
    V,
> {
    if k == 0 {
        none_encoded(names, lits)
    } else {
        let c = counter_encoded(names, lits, k + 1, Direction::Both, None);
        Encoded {
            names: c.0,
            clauses: c.1 + seq![seq![c.2[k - 1]], seq![-c.2[k as int]]],
            repr: 0,
        }
    }
}

/// Whether a reification of "exactly `k` of `lits`" can be encoded.
pub open spec fn exactly_repr_fits<V>(
    names: Seq<Option<V>>,
    lits: Seq<VarType<V>>,
    k: u32,
    repr: Option<i32>,
) -> bool {
    if k == 0 {
        none_repr_fits(names, lits, repr)
    } else {
        repr_names(names, repr).len() < i32::MAX && over_fits(repr_names(names, repr), lits, k)
    }
}

/// The reification of "exactly `k` of `lits`": for `k = 0` that of "no
/// literal is true"; else, after the representative `r` was chosen, a
/// counter with `k + 1` outputs in both directions and the clause
/// `{-out[k-1], out[k], r}`; where the representative shall equal the
/// constraint, also `{out[k-1], -r}` and `{-out[k], -r}`.
pub open spec fn exactly_repr_encoded<V>(
    names: Seq<Option<V>>,
    lits: Seq<VarType<V>>,
    k: u32,
    repr: Option<i32>,
    equal: bool,
) -> Encoded<V> {
    if k == 0 {
        none_repr_encoded(names, lits, repr, equal)
    } else {
        let r = repr_lit(names, repr);
        let c = counter_encoded(repr_names(names, repr), lits, k + 1, Direction::Both, None);
        let r1 = c.2[k - 1];
        let r2 = c.2[k as int];
        Encoded {
            names: c.0,
            clauses: c.1 + seq![seq![-r1, r2, r]] + only_if(equal, seq![seq![r1, -r], seq![-r2, -r]]),
            repr: r,
        }
    }
}

/// Writes a reification of "exactly `k` of `lits`".
pub fn encode_exactly_repr<V: SatVar, B: Backend>(
    lits: &Vec<VarType<V>>,
    k: u32,
    repr: Option<i32>,
    equal: bool,
    backend: &mut B,
    varmap: &mut VarMap<V>,
) -> (r: i32)
    requires
        old(varmap).wf(),
        repr_ok(repr),
        exactly_repr_fits(old(varmap)@, lits@, k, repr),
    ensures
        final(varmap).wf(),
        final(varmap)@ == exactly_repr_encoded(old(varmap)@, lits@, k, repr, equal).names,
        final(backend).clauses() == old(backend).clauses() + exactly_repr_encoded(
            old(varmap)@,
            lits@,
            k,
            repr,
            equal,
        ).clauses,
        r == exactly_repr_encoded(old(varmap)@, lits@, k, repr, equal).repr,
        is_literal(r),
        repr is Some ==> r == repr->0,
{
    if k == 0 {
        encode_none_repr(lits, repr, equal, backend, varmap)
    } else {
        let r = pick_repr(repr, varmap);
        let out = encode_cardinality_constraint(
            lits,
            k + 1,
            Direction::Both,
            None,
            backend,
            varmap,
        );
        assert(ints(out@)[k - 1] == out@[k - 1]);
        assert(ints(out@)[k as int] == out@[k as int]);
        let r1: i32 = out[(k - 1) as usize];
        let r2: i32 = out[k as usize];
        backend.add_clause(&clause3(-r1, r2, r));
        if equal {
            backend.add_clause(&clause2(r1, -r));
            backend.add_clause(&clause2(-r2, -r));
        }
        assert(backend.clauses() =~= old(backend).clauses() + exactly_repr_encoded(
            old(varmap)@,
            lits@,
            k,
            repr,
            equal,
        ).clauses);
        r
    }
}

impl<V: SatVar> Constraint<V> for ExactlyK<V> {
    open spec fn fits(self, names: Seq<Option<V>>) -> bool {
        at_most_fits(names, self.lits@, self.k)
    }

    open spec fn encoded(self, names: Seq<Option<V>>) -> Encoded<V> {
        exactly_encoded(names, self.lits@, self.k)
    }

    fn encode<B: Backend>(self, backend: &mut B, varmap: &mut VarMap<V>) {
        if self.k == 0 {
            encode_none(&self.lits, backend, varmap);
        } else {
            let out = encode_cardinality_constraint(
                &self.lits,
                self.k + 1,
                Direction::Both,
                None,
                backend,
                varmap,
            );
            assert(ints(out@)[self.k - 1] == out@[self.k - 1]);
            assert(ints(out@)[self.k as int] == out@[self.k as int]);
            backend.add_clause(&clause1(out[(self.k - 1) as usize]));
            backend.add_clause(&clause1(-out[self.k as usize]));
            assert(backend.clauses() =~= old(backend).clauses() + exactly_encoded(
                old(varmap)@,
                self.lits@,
                self.k,
            ).clauses);
        }
    }
}

impl<V: SatVar> ConstraintRepr<V> for ExactlyK<V> {
    open spec fn implies_fits(self, repr: Option<i32>, names: Seq<Option<V>>) -> bool {
        exactly_repr_fits(names, self.lits@, self.k, repr)
    }

    open spec fn implies_encoded(self, repr: Option<i32>, names: Seq<Option<V>>) -> Encoded<V> {
        exactly_repr_encoded(names, self.lits@, self.k, repr, false)
    }

    open spec fn equals_fits(self, repr: Option<i32>, names: Seq<Option<V>>) -> bool {
        exactly_repr_fits(names, self.lits@, self.k, repr)
    }

    open spec fn equals_encoded(self, repr: Option<i32>, names: Seq<Option<V>>) -> Encoded<V> {
        exactly_repr_encoded(names, self.lits@, self.k, repr, true)
    }

    fn encode_constraint_implies_repr<B: Backend>(
        self,
        repr: Option<i32>,
        backend: &mut B,
        varmap: &mut VarMap<V>,
    ) -> (r: i32) {
        encode_exactly_repr(&self.lits, self.k, repr, false, backend, varmap)
    }

    fn encode_constraint_equals_repr<B: Backend>(
        self,
        repr: Option<i32>,
        backend: &mut B,
        varmap: &mut VarMap<V>,
    ) -> (r: i32) {
        encode_exactly_repr(&self.lits, self.k, repr, true, backend, varmap)
    }
}

} // verus!
