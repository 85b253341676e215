//! Conjunction, disjunction and implication of constraints.

use vstd::prelude::*;
use crate::backend::{all_literals, ints, is_literal, lemma_ints_push, Backend};
use crate::circuit::{and_clauses, clause2, or_clauses, Circuit, Direction};
use crate::constraints::bounds::{pick_dir, repr_dir};
use crate::constraints::util::{pick_repr, repr_lit, repr_names};
use crate::constraints::{repr_ok, Constraint, ConstraintRepr, Encoded};
use crate::varmap::{SatVar, VarMap};

verus! {

/// `v` in the opposite order.
pub fn reversed<T>(v: Vec<T>) -> (out: Vec<T>)
    ensures
        out@ == v@.reverse(),
{
    let mut v = v;
    let ghost all = v@;
    let mut out: Vec<T> = Vec::new();
    while v.len() > 0
        invariant
            v@.len() <= all.len(),
            v@ == all.take(v@.len() as int),
            out@ == all.reverse().take(all.len() - v@.len()),
        decreases v@.len(),
    {
        let ghost before = v@;
        let x = v.pop().unwrap();
        out.push(x);
        assert(v@ =~= all.take(v@.len() as int));
        assert(out@ =~= all.reverse().take(all.len() - v@.len()));
    }
    assert(all.reverse().take(all.len() as int) =~= all.reverse());
    out
}

/// The encoding of the first `i` of the constraints `cs`, one after the
/// other.
pub open spec fn each_encoded<V: SatVar, C: Constraint<V>>(
    names: Seq<Option<V>>,
    cs: Seq<C>,
    i: int,
) -> Encoded<V>
    decreases i,
{
    if i <= 0 {
        Encoded { names: names, clauses: Seq::empty(), repr: 0 }
    } else {
        let p = each_encoded(names, cs, i - 1);
        let e = cs[i - 1].encoded(p.names);
        Encoded { names: e.names, clauses: p.clauses + e.clauses, repr: 0 }
    }
}

/// Whether the first `i` of the constraints `cs` can be encoded one after
/// the other.
pub open spec fn each_fits<V: SatVar, C: Constraint<V>>(
    names: Seq<Option<V>>,
    cs: Seq<C>,
    i: int,
) -> bool
    decreases i,
{
    i <= 0 || (each_fits(names, cs, i - 1) && cs[i - 1].fits(each_encoded(names, cs, i - 1).names))
}

/// The reification of one constraint without a given representative.
pub open spec fn reified<V: SatVar, C: ConstraintRepr<V>>(
    c: C,
    names: Seq<Option<V>>,
    equal: bool,
) -> Encoded<V> {
    if equal {
        c.equals_encoded(None, names)
    } else {
        c.implies_encoded(None, names)
    }
}

/// Whether one constraint can be reified without a given representative.
pub open spec fn reifies<V: SatVar, C: ConstraintRepr<V>>(
    c: C,
    names: Seq<Option<V>>,
    equal: bool,
) -> bool {
    if equal {
        c.equals_fits(None, names)
    } else {
        c.implies_fits(None, names)
    }
}

/// The reifications of the first `i` of the constraints `cs`, one after the
/// other: the table afterwards, the clauses, and the representatives.
pub open spec fn reprs_encoded<V: SatVar, C: ConstraintRepr<V>>(
    names: Seq<Option<V>>,
    cs: Seq<C>,
    equal: bool,
    i: int,
) -> (Seq<Option<V>>, Seq<Seq<int>>, Seq<int>)
    decreases i,
{
    if i <= 0 {
        (names, Seq::empty(), Seq::empty())
    } else {
        let p = reprs_encoded(names, cs, equal, i - 1);
        let e = reified(cs[i - 1], p.0, equal);
        (e.names, p.1 + e.clauses, p.2.push(e.repr))
    }
}

/// Whether the first `i` of the constraints `cs` can be reified one after
/// the other.
pub open spec fn reprs_fit<V: SatVar, C: ConstraintRepr<V>>(
    names: Seq<Option<V>>,
    cs: Seq<C>,
    equal: bool,
    i: int,
) -> bool
    decreases i,
{
    i <= 0 || (reprs_fit(names, cs, equal, i - 1) && reifies(
        cs[i - 1],
        reprs_encoded(names, cs, equal, i - 1).0,
        equal,
    ))
}

/// Reifying fewer constraints fits too.
pub proof fn lemma_reprs_fit_prefix<V: SatVar, C: ConstraintRepr<V>>(
    names: Seq<Option<V>>,
    cs: Seq<C>,
    equal: bool,
    i: int,
    n: int,
)
    requires
        0 <= i <= n,
        reprs_fit(names, cs, equal, n),
    ensures
        reprs_fit(names, cs, equal, i),
    decreases n,
{
    if i < n {
        lemma_reprs_fit_prefix(names, cs, equal, i, n - 1);
    }
}

/// Encoding fewer constraints fits too.
pub proof fn lemma_each_fits_prefix<V: SatVar, C: Constraint<V>>(
    names: Seq<Option<V>>,
    cs: Seq<C>,
    i: int,
    n: int,
)
    requires
        0 <= i <= n,
        each_fits(names, cs, n),
    ensures
        each_fits(names, cs, i),
    decreases n,
{
    if i < n {
        lemma_each_fits_prefix(names, cs, i, n - 1);
    }
}

/// Reifies one constraint without a given representative.
pub fn encode_reified<V: SatVar, C: ConstraintRepr<V>, B: Backend>(
    c: C,
    equal: bool,
    backend: &mut B,
    varmap: &mut VarMap<V>,
) -> (r: i32)
    requires
        old(varmap).wf(),
        reifies(c, old(varmap)@, equal),
    ensures
        final(varmap).wf(),
        final(varmap)@ == reified(c, old(varmap)@, equal).names,
        final(backend).clauses() == old(backend).clauses() + reified(
            c,
            old(varmap)@,
            equal,
        ).clauses,
        r == reified(c, old(varmap)@, equal).repr,
        is_literal(r),
{
    if equal {
        c.encode_constraint_equals_repr(None, backend, varmap)
    } else {
        c.encode_constraint_implies_repr(None, backend, varmap)
    }
}

/// Reifies the constraints `cs` one after the other and returns their
/// representatives.
pub fn encode_reprs<V: SatVar, C: ConstraintRepr<V>, B: Backend>(
    cs: Vec<C>,
    equal: bool,
    backend: &mut B,
    varmap: &mut VarMap<V>,
) -> (reprs: Vec<i32>)
    requires
        old(varmap).wf(),
        reprs_fit(old(varmap)@, cs@, equal, cs@.len() as int),
    ensures
        final(varmap).wf(),
        final(varmap)@ == reprs_encoded(old(varmap)@, cs@, equal, cs@.len() as int).0,
        final(backend).clauses() == old(backend).clauses() + reprs_encoded(
            old(varmap)@,
            cs@,
            equal,
            cs@.len() as int,
        ).1,
        ints(reprs@) == reprs_encoded(old(varmap)@, cs@, equal, cs@.len() as int).2,
        all_literals(reprs@),
{
    let ghost all = cs@;
    let ghost names = varmap@;
    let ghost n = all.len() as int;
    let mut rest = reversed(cs);
    let mut reprs: Vec<i32> = Vec::new();
    proof {
        assert(backend.clauses() =~= old(backend).clauses() + Seq::<Seq<int>>::empty());
        assert(ints(reprs@) =~= Seq::<int>::empty());
    }
    while rest.len() > 0
        invariant
            n == all.len(),
            rest@.len() <= n,
            rest@ == all.reverse().take(rest@.len() as int),
            reprs_fit(names, all, equal, n),
            varmap.wf(),
            varmap@ == reprs_encoded(names, all, equal, n - rest@.len()).0,
            backend.clauses() == old(backend).clauses() + reprs_encoded(
                names,
                all,
                equal,
                n - rest@.len(),
            ).1,
            ints(reprs@) == reprs_encoded(names, all, equal, n - rest@.len()).2,
            all_literals(reprs@),
        decreases rest@.len(),
    {
        let ghost i = n - rest@.len();
        let ghost before = rest@;
        proof {
            lemma_reprs_fit_prefix(names, all, equal, i + 1, n);
        }
        let c = rest.pop().unwrap();
        assert(c == all[i]) by {
            assert(before[before.len() - 1] == all.reverse()[before.len() - 1]);
        }
        assert(rest@ =~= all.reverse().take(rest@.len() as int));
        let r = encode_reified(c, equal, backend, varmap);
        proof {
            lemma_ints_push(reprs@, r);
        }
        reprs.push(r);
        assert(backend.clauses() =~= old(backend).clauses() + reprs_encoded(
            names,
            all,
            equal,
            i + 1,
        ).1);
    }
    reprs
}

/// All of the constraints hold.
#[derive(Debug, Clone)]
pub struct And<C>(pub Vec<C>);

/// The reification of a conjunction or disjunction: the constraints are
/// reified one after the other, then the representative is chosen and
/// defined by a gate over their representatives, which is an AND gate where
/// `conj` and else an OR gate. It is written forward, or in both
/// directions where the representative shall equal the constraint.
pub open spec fn gate_encoded<V: SatVar, C: ConstraintRepr<V>>(
    names: Seq<Option<V>>,
    cs: Seq<C>,
    repr: Option<i32>,
    equal: bool,
    conj: bool,
) -> Encoded<V> {
    let p = reprs_encoded(names, cs, equal, cs.len() as int);
    let r = repr_lit(p.0, repr);
    let dir = repr_dir(equal, Direction::InToOut);
    Encoded {
        names: repr_names(p.0, repr),
        clauses: p.1 + if conj {
            and_clauses(dir, p.2, r)
        } else {
            or_clauses(dir, p.2, r)
        },
        repr: r,
    }
}

/// Whether a conjunction or disjunction can be reified.
pub open spec fn gate_fits<V: SatVar, C: ConstraintRepr<V>>(
    names: Seq<Option<V>>,
    cs: Seq<C>,
    repr: Option<i32>,
    equal: bool,
) -> bool {
    &&& reprs_fit(names, cs, equal, cs.len() as int)
    &&& repr_names(reprs_encoded(names, cs, equal, cs.len() as int).0, repr).len() < i32::MAX
}

/// Writes the reification of a conjunction or disjunction.
pub fn encode_gate<V: SatVar, C: ConstraintRepr<V>, B: Backend>(
    cs: Vec<C>,
    repr: Option<i32>,
    equal: bool,
    conj: bool,
    backend: &mut B,
    varmap: &mut VarMap<V>,
) -> (r: i32)
    requires
        old(varmap).wf(),
        repr_ok(repr),
        gate_fits(old(varmap)@, cs@, repr, equal),
    ensures
        final(varmap).wf(),
        final(varmap)@ == gate_encoded(old(varmap)@, cs@, repr, equal, conj).names,
        final(backend).clauses() == old(backend).clauses() + gate_encoded(
            old(varmap)@,
            cs@,
            repr,
            equal,
            conj,
        ).clauses,
        r == gate_encoded(old(varmap)@, cs@, repr, equal, conj).repr,
        is_literal(r),
        repr is Some ==> r == repr->0,
{
    let ghost all = cs@;
    let reprs = encode_reprs(cs, equal, backend, varmap);
    let r = pick_repr(repr, varmap);
    let circuit = Circuit::new(pick_dir(equal, Direction::InToOut));
    if conj {
        circuit.and_gate(backend, &reprs, r);
    } else {
        circuit.or_gate(backend, &reprs, r);
    }
    assert(backend.clauses() =~= old(backend).clauses() + gate_encoded(
        old(varmap)@,
        all,
        repr,
        equal,
        conj,
    ).clauses);
    r
}

impl<V: SatVar, C: Constraint<V>> Constraint<V> for And<C> {
    open spec fn fits(self, names: Seq<Option<V>>) -> bool {
        each_fits(names, self.0@, self.0@.len() as int)
    }

    open spec fn encoded(self, names: Seq<Option<V>>) -> Encoded<V> {
        each_encoded(names, self.0@, self.0@.len() as int)
    }

    fn encode<B: Backend>(self, backend: &mut B, varmap: &mut VarMap<V>) {
        let ghost all = self.0@;
        let ghost names = varmap@;
        let ghost n = all.len() as int;
        let mut rest = reversed(self.0);
        assert(backend.clauses() =~= old(backend).clauses() + Seq::<Seq<int>>::empty());
        while rest.len() > 0
            invariant
                n == all.len(),
                rest@.len() <= n,
                rest@ == all.reverse().take(rest@.len() as int),
                each_fits(names, all, n),
                varmap.wf(),
                varmap@ == each_encoded(names, all, n - rest@.len()).names,
                backend.clauses() == old(backend).clauses() + each_encoded(
                    names,
                    all,
                    n - rest@.len(),
                ).clauses,
            decreases rest@.len(),
        {
            let ghost i = n - rest@.len();
            let ghost before = rest@;
            proof {
                lemma_each_fits_prefix(names, all, i + 1, n);
            }
            let c = rest.pop().unwrap();
            assert(c == all[i]) by {
                assert(before[before.len() - 1] == all.reverse()[before.len() - 1]);
            }
            assert(rest@ =~= all.reverse().take(rest@.len() as int));
            c.encode(backend, varmap);
            assert(backend.clauses() =~= old(backend).clauses() + each_encoded(
                names,
                all,
                i + 1,
            ).clauses);
        }
    }
}

impl<V: SatVar, C: ConstraintRepr<V>> ConstraintRepr<V> for And<C> {
    open spec fn implies_fits(self, repr: Option<i32>, names: Seq<Option<V>>) -> bool {
        gate_fits(names, self.0@, repr, false)
    }

    open spec fn implies_encoded(self, repr: Option<i32>, names: Seq<Option<V>>) -> Encoded<V> {
        gate_encoded(names, self.0@, repr, false, true)
    }

    open spec fn equals_fits(self, repr: Option<i32>, names: Seq<Option<V>>) -> bool {
        gate_fits(names, self.0@, repr, true)
    }

    open spec fn equals_encoded(self, repr: Option<i32>, names: Seq<Option<V>>) -> Encoded<V> {
        gate_encoded(names, self.0@, repr, true, true)
    }

    fn encode_constraint_implies_repr<B: Backend>(
        self,
        repr: Option<i32>,
        backend: &mut B,
        varmap: &mut VarMap<V>,
    ) -> (r: i32) {
        encode_gate(self.0, repr, false, true, backend, varmap)
    }

    fn encode_constraint_equals_repr<B: Backend>(
        self,
        repr: Option<i32>,
        backend: &mut B,
        varmap: &mut VarMap<V>,
    ) -> (r: i32) {
        encode_gate(self.0, repr, true, true, backend, varmap)
    }
}

/// At least one of the constraints holds.
#[derive(Debug, Clone)]
pub struct Or<C>(pub Vec<C>);

/// The encoding of a disjunction: every constraint is reified so that its
/// representative equals it, and the representatives form one clause.
pub open spec fn or_encoded<V: SatVar, C: ConstraintRepr<V>>(
    names: Seq<Option<V>>,
    cs: Seq<C>,
) -> Encoded<V> {
    let p = reprs_encoded(names, cs, true, cs.len() as int);
    Encoded { names: p.0, clauses: p.1.push(p.2), repr: 0 }
}

impl<V: SatVar, C: ConstraintRepr<V>> Constraint<V> for Or<C> {
    open spec fn fits(self, names: Seq<Option<V>>) -> bool {
        reprs_fit(names, self.0@, true, self.0@.len() as int)
    }

    open spec fn encoded(self, names: Seq<Option<V>>) -> Encoded<V> {
        or_encoded(names, self.0@)
    }

    fn encode<B: Backend>(self, backend: &mut B, varmap: &mut VarMap<V>) {
        let reprs = encode_reprs(self.0, true, backend, varmap);
        backend.add_clause(&reprs);
    }
}

impl<V: SatVar, C: ConstraintRepr<V>> ConstraintRepr<V> for Or<C> {
    open spec fn implies_fits(self, repr: Option<i32>, names: Seq<Option<V>>) -> bool {
        gate_fits(names, self.0@, repr, false)
    }

    open spec fn implies_encoded(self, repr: Option<i32>, names: Seq<Option<V>>) -> Encoded<V> {
        gate_encoded(names, self.0@, repr, false, false)
    }

    open spec fn equals_fits(self, repr: Option<i32>, names: Seq<Option<V>>) -> bool {
        gate_fits(names, self.0@, repr, true)
    }

    open spec fn equals_encoded(self, repr: Option<i32>, names: Seq<Option<V>>) -> Encoded<V> {
        gate_encoded(names, self.0@, repr, true, false)
    }

    fn encode_constraint_implies_repr<B: Backend>(
        self,
        repr: Option<i32>,
        backend: &mut B,
        varmap: &mut VarMap<V>,
    ) -> (r: i32) {
        encode_gate(self.0, repr, false, false, backend, varmap)
    }

    fn encode_constraint_equals_repr<B: Backend>(
        self,
        repr: Option<i32>,
        backend: &mut B,
        varmap: &mut VarMap<V>,
    ) -> (r: i32) {
        encode_gate(self.0, repr, true, false, backend, varmap)
    }
}

/// If `cond` holds, `conseq` holds.
#[derive(Debug, Clone)]
pub struct If<C, T> {
    pub cond: C,
    pub conseq: T,
}

/// The encoding of an implication: the condition is reified so that it
/// forces its representative `c`, the consequence so that its
/// representative `t` equals it, and the clause `{-c, t}` ties them.
pub open spec fn if_encoded<V: SatVar, C: ConstraintRepr<V>, T: ConstraintRepr<V>>(
    names: Seq<Option<V>>,
    cond: C,
    conseq: T,
) -> Encoded<V> {
    let c = cond.implies_encoded(None, names);
    let t = conseq.equals_encoded(None, c.names);
    Encoded { names: t.names, clauses: (c.clauses + t.clauses).push(seq![-c.repr, t.repr]), repr: 0 }
}

impl<V: SatVar, C: ConstraintRepr<V>, T: ConstraintRepr<V>> Constraint<V> for If<C, T> {
    open spec fn fits(self, names: Seq<Option<V>>) -> bool {
        &&& self.cond.implies_fits(None, names)
        &&& self.conseq.equals_fits(None, self.cond.implies_encoded(None, names).names)
    }

    open spec fn encoded(self, names: Seq<Option<V>>) -> Encoded<V> {
        if_encoded(names, self.cond, self.conseq)
    }

    fn encode<B: Backend>(self, backend: &mut B, varmap: &mut VarMap<V>) {
        let c = self.cond.encode_constraint_implies_repr(None, backend, varmap);
        let t = self.conseq.encode_constraint_equals_repr(None, backend, varmap);
        backend.add_clause(&clause2(-c, t));
        assert(backend.clauses() =~= old(backend).clauses() + if_encoded(
            old(varmap)@,
            self.cond,
            self.conseq,
        ).clauses);
    }
}

} // verus!
