//! Small building blocks shared by the encodings.

use vstd::prelude::*;
use crate::backend::{all_literals, ints, is_literal, lemma_ints_push, Backend};
use crate::circuit::{clause1, clause2, guard_clauses};
use crate::constraints::{Constraint, ConstraintRepr};
use crate::varmap::{SatVar, VarMap};

verus! {

/// For each literal of `lits`, in order, the clause that negates it.
pub open spec fn unit_negs(lits: Seq<int>) -> Seq<Seq<int>> {
    Seq::new(lits.len(), |i: int| seq![-lits[i]])
}

/// The table after a representative was chosen: unchanged where one is
/// given, else with one more anonymous variable.
pub open spec fn repr_names<V>(names: Seq<Option<V>>, repr: Option<i32>) -> Seq<Option<V>> {
    match repr {
        Some(_) => names,
        None => names.push(None),
    }
}

/// The representative chosen: the one given, else the next free variable.
pub open spec fn repr_lit<V>(names: Seq<Option<V>>, repr: Option<i32>) -> int {
    match repr {
        Some(r) => r as int,
        None => names.len() as int + 1,
    }
}

/// The clauses that make a given representative equal to the literal `r`
/// that the encoding found; none where no representative was given.
pub open spec fn tie_clauses(r: int, repr: Option<i32>) -> Seq<Seq<int>> {
    match repr {
        Some(p) => seq![seq![-r, p as int], seq![r, -p]],
        None => Seq::empty(),
    }
}

/// The representative returned after tying: the one given, else `r`.
pub open spec fn tied(r: int, repr: Option<i32>) -> int {
    match repr {
        Some(p) => p as int,
        None => r,
    }
}

/// Returns the representative given, or a fresh anonymous variable.
pub fn pick_repr<V: SatVar>(repr: Option<i32>, varmap: &mut VarMap<V>) -> (r: i32)
    requires
        old(varmap).wf(),
        repr is Some ==> is_literal(repr->0),
        repr_names(old(varmap)@, repr).len() < i32::MAX,
    ensures
        final(varmap).wf(),
        final(varmap)@ == repr_names(old(varmap)@, repr),
        r == repr_lit(old(varmap)@, repr),
        is_literal(r),
{
    match repr {
        Some(r) => r,
        None => varmap.new_var(),
    }
}

/// Makes a given representative equal to `r` and returns it; returns `r`
/// where none is given.
pub fn tie_repr<B: Backend>(r: i32, repr: Option<i32>, backend: &mut B) -> (res: i32)
    requires
        is_literal(r),
        repr is Some ==> is_literal(repr->0),
    ensures
        final(backend).clauses() == old(backend).clauses() + tie_clauses(r as int, repr),
        res == tied(r as int, repr),
        is_literal(res),
{
    match repr {
        Some(p) => {
            backend.add_clause(&clause2(-r, p));
            backend.add_clause(&clause2(r, -p));
            assert(backend.clauses() =~= old(backend).clauses() + tie_clauses(r as int, repr));
            p
        },
        None => {
            assert(backend.clauses() =~= old(backend).clauses() + tie_clauses(r as int, repr));
            r
        },
    }
}

/// Writes, for each literal of `lits`, the clause that negates it.
pub fn add_negated_units<B: Backend>(backend: &mut B, lits: &Vec<i32>)
    requires
        all_literals(lits@),
    ensures
        final(backend).clauses() == old(backend).clauses() + unit_negs(ints(lits@)),
{
    let mut i: usize = 0;
    while i < lits.len()
        invariant
            i <= lits@.len(),
            all_literals(lits@),
            backend.clauses() == old(backend).clauses() + unit_negs(ints(lits@)).take(i as int),
        decreases lits@.len() - i,
    {
        backend.add_clause(&clause1(-lits[i]));
        assert(backend.clauses() =~= old(backend).clauses() + unit_negs(ints(lits@)).take(
            i as int + 1,
        ));
        i += 1;
    }
    assert(unit_negs(ints(lits@)).take(lits@.len() as int) =~= unit_negs(ints(lits@)));
}

/// Writes, for each literal `l` of `lits`, the clause `{-l, last}`.
pub fn add_guards<B: Backend>(backend: &mut B, lits: &Vec<i32>, last: i32)
    requires
        all_literals(lits@),
        is_literal(last),
    ensures
        final(backend).clauses() == old(backend).clauses() + guard_clauses(
            ints(lits@),
            last as int,
        ),
{
    let mut i: usize = 0;
    while i < lits.len()
        invariant
            i <= lits@.len(),
            all_literals(lits@),
            is_literal(last),
            backend.clauses() == old(backend).clauses() + guard_clauses(
                ints(lits@),
                last as int,
            ).take(i as int),
        decreases lits@.len() - i,
    {
        backend.add_clause(&clause2(-lits[i], last));
        assert(backend.clauses() =~= old(backend).clauses() + guard_clauses(
            ints(lits@),
            last as int,
        ).take(i as int + 1));
        i += 1;
    }
    assert(guard_clauses(ints(lits@), last as int).take(lits@.len() as int) =~= guard_clauses(
        ints(lits@),
        last as int,
    ));
}

/// The clause made of `lits` followed by `last`.
pub fn clause_with(lits: &Vec<i32>, last: i32) -> (c: Vec<i32>)
    requires
        all_literals(lits@),
        is_literal(last),
    ensures
        ints(c@) == ints(lits@).push(last as int),
        all_literals(c@),
{
    let mut c: Vec<i32> = crate::mock::copy_row(lits);
    proof {
        lemma_ints_push(c@, last);
    }
    c.push(last);
    c
}

/// `l` where it is a signed solver literal, else the literal 1.
pub open spec fn mended(l: i32) -> i32 {
    if is_literal(l) {
        l
    } else {
        1
    }
}

/// Computes `mended`.
fn mend(l: i32) -> (r: i32)
    ensures
        r == mended(l),
        is_literal(r),
{
    if l == 0 || l == i32::MIN {
        1
    } else {
        l
    }
}

/// The clause held in `row`: its entries, mended.
pub open spec fn held(row: Seq<i32>) -> Seq<int> {
    Seq::new(row.len(), |i: int| mended(row[i]) as int)
}

/// A backend that keeps the clauses it is given.
struct Recorder {
    rows: Vec<Vec<i32>>,
}

impl Backend for Recorder {
    closed spec fn clauses(&self) -> Seq<Seq<int>> {
        Seq::new(self.rows@.len(), |i: int| held(self.rows@[i]@))
    }

    fn add_clause(&mut self, lits: &Vec<i32>) {
        let row = crate::mock::copy_row(lits);
        self.rows.push(row);
        assert(held(lits@) =~= ints(lits@));
        assert(self.clauses() =~= old(self).clauses().push(ints(lits@)));
    }
}

/// Every clause of `clauses` with the literal `guard` appended.
pub open spec fn guarded(clauses: Seq<Seq<int>>, guard: int) -> Seq<Seq<int>> {
    Seq::new(clauses.len(), |i: int| clauses[i].push(guard))
}

/// The clause held in `row`, followed by `guard`.
fn guarded_row(row: &Vec<i32>, guard: i32) -> (c: Vec<i32>)
    requires
        is_literal(guard),
    ensures
        all_literals(c@),
        ints(c@) == held(row@).push(guard as int),
{
    let mut c: Vec<i32> = Vec::new();
    let mut i: usize = 0;
    while i < row.len()
        invariant
            i <= row@.len(),
            all_literals(c@),
            ints(c@) == held(row@).take(i as int),
        decreases row@.len() - i,
    {
        let l = mend(row[i]);
        proof {
            lemma_ints_push(c@, l);
        }
        c.push(l);
        assert(ints(c@) =~= held(row@).take(i as int + 1));
        i += 1;
    }
    proof {
        assert(held(row@).take(row@.len() as int) =~= held(row@));
        lemma_ints_push(c@, guard);
    }
    c.push(guard);
    c
}

/// Encodes `constraint` so that it has to hold only where `repr` is true:
/// every clause of the constraint is written with the negation of `repr`
/// appended.
pub fn repr_implies_constraint<V: SatVar, C: Constraint<V>, B: Backend>(
    constraint: C,
    repr: i32,
    backend: &mut B,
    varmap: &mut VarMap<V>,
)
    requires
        old(varmap).wf(),
        is_literal(repr),
        constraint.fits(old(varmap)@),
    ensures
        final(varmap).wf(),
        final(varmap)@ == constraint.encoded(old(varmap)@).names,
        final(backend).clauses() == old(backend).clauses() + guarded(
            constraint.encoded(old(varmap)@).clauses,
            -repr,
        ),
{
    let mut recorder = Recorder { rows: Vec::new() };
    assert(recorder.clauses() =~= Seq::<Seq<int>>::empty());
    constraint.encode(&mut recorder, varmap);
    let ghost seen = recorder.clauses();
    assert(seen =~= constraint.encoded(old(varmap)@).clauses);
    let mut i: usize = 0;
    while i < recorder.rows.len()
        invariant
            i <= recorder.rows@.len(),
            is_literal(repr),
            seen == recorder.clauses(),
            backend.clauses() == old(backend).clauses() + guarded(seen, -repr).take(i as int),
        decreases recorder.rows@.len() - i,
    {
        let c = guarded_row(&recorder.rows[i], -repr);
        backend.add_clause(&c);
        assert(seen[i as int] == held(recorder.rows@[i as int]@));
        assert(backend.clauses() =~= old(backend).clauses() + guarded(seen, -repr).take(
            i as int + 1,
        ));
        i += 1;
    }
    assert(guarded(seen, -repr).take(recorder.rows@.len() as int) =~= guarded(seen, -repr));
}

/// Makes a two-sided reification out of a one-sided one: `first` is
/// encoded so that it forces its representative, and `second`, which is to
/// be a copy of `first`, so that it has to hold where the representative is
/// true.
pub fn equals_repr_by_guard<V: SatVar, C: ConstraintRepr<V>, B: Backend>(
    first: C,
    second: C,
    repr: Option<i32>,
    backend: &mut B,
    varmap: &mut VarMap<V>,
) -> (r: i32)
    requires
        old(varmap).wf(),
        crate::constraints::repr_ok(repr),
        first.implies_fits(repr, old(varmap)@),
        second.fits(first.implies_encoded(repr, old(varmap)@).names),
    ensures
        final(varmap).wf(),
        r == first.implies_encoded(repr, old(varmap)@).repr,
        is_literal(r),
        repr is Some ==> r == repr->0,
        final(varmap)@ == second.encoded(first.implies_encoded(repr, old(varmap)@).names).names,
        final(backend).clauses() == old(backend).clauses() + first.implies_encoded(
            repr,
            old(varmap)@,
        ).clauses + guarded(
            second.encoded(first.implies_encoded(repr, old(varmap)@).names).clauses,
            -r,
        ),
{
    let r = first.encode_constraint_implies_repr(repr, backend, varmap);
    repr_implies_constraint(second, r, backend, varmap);
    r
}

} // verus!
