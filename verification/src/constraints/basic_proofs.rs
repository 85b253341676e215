//! The meaning of the reifications of literals and clauses.

use vstd::prelude::*;
use crate::circuit::{guard_clauses, only_if, or_clauses, Direction};
use crate::constraints::basic::{
    clause_encoded, clause_repr_encoded, lit_encoded, lit_fits, lit_repr_encoded, lits_fit,
};
use crate::constraints::bounds_proofs::{
    input_ids, known, lemma_input_ids, lemma_inputs_avoid_repr, none_repr_inputs, same_inputs,
};
use crate::constraints::util::{repr_lit, repr_names};
use crate::lit::VarType;
use crate::semantics::{
    all_nonzero, all_true, clause_true, lemma_all_true_concat, lemma_all_true_one, lemma_clause1,
    lemma_clause2, lemma_guards, lit_true, none_true, var_of, with_value, Assignment,
};
use crate::varmap::{lemma_with_lit_extends, lit_id, with_lit, with_lits};

verus! {

/// The solver literal of the input `lit`.
pub open spec fn input_id<V>(names: Seq<Option<V>>, lit: VarType<V>) -> int {
    lit_id(with_lit(names, lit), lit)
}

/// Every model of a literal has the literal true, and every assignment
/// that has it true is a model.
pub proof fn lit_meaning<V>(names: Seq<Option<V>>, lit: VarType<V>, a: Assignment)
    requires
        lit_fits(names, lit),
    ensures
        all_true(a, lit_encoded(names, lit).clauses) == lit_true(a, input_id(names, lit)),
{
    let id = input_id(names, lit);
    lemma_all_true_one(a, seq![id]);
    lemma_clause1(a, id);
}

/// In every model of a reification of a literal, the representative is
/// true where the literal is; and where the representative shall equal the
/// literal, or is the literal itself, it is true only there.
pub proof fn lit_repr_sound<V>(
    names: Seq<Option<V>>,
    lit: VarType<V>,
    repr: Option<i32>,
    equal: bool,
    a: Assignment,
)
    requires
        lit_fits(names, lit),
        crate::constraints::repr_ok(repr),
        all_true(a, lit_repr_encoded(names, lit, repr, equal).clauses),
    ensures
        lit_true(a, input_id(names, lit)) ==> lit_true(
            a,
            lit_repr_encoded(names, lit, repr, equal).repr,
        ),
        (equal || repr is None) && lit_true(a, lit_repr_encoded(names, lit, repr, equal).repr)
            ==> lit_true(a, input_id(names, lit)),
{
    let id = input_id(names, lit);
    lemma_with_lit_extends(names, lit);
    match repr {
        Some(r) => {
            let back = only_if(equal, seq![seq![id, -r]]);
            lemma_all_true_concat(a, seq![seq![-id, r as int]], back);
            lemma_all_true_one(a, seq![-id, r as int]);
            lemma_clause2(a, -id, r as int);
            if equal {
                lemma_all_true_one(a, seq![id, -r]);
                lemma_clause2(a, id, -r);
            }
        },
        None => {},
    }
}

/// What the clauses of an OR gate say.
pub proof fn lemma_or_gate(a: Assignment, dir: Direction, inputs: Seq<int>, o: int)
    requires
        all_nonzero(inputs),
        o != 0,
    ensures
        all_true(a, or_clauses(dir, inputs, o)) == ((dir.forward() ==> (!none_true(a, inputs)
            ==> lit_true(a, o))) && (dir.backward() ==> (lit_true(a, o) ==> !none_true(
            a,
            inputs,
        )))),
{
    let f = only_if(dir.forward(), guard_clauses(inputs, o));
    let bc = seq![-o] + inputs;
    let b = only_if(dir.backward(), seq![bc]);
    lemma_all_true_concat(a, f, b);
    lemma_guards(a, inputs, o);
    lemma_all_true_one(a, bc);
    if !none_true(a, inputs) {
        let j = choose|j: int| 0 <= j < inputs.len() && lit_true(a, #[trigger] inputs[j]);
        assert(bc[j + 1] == inputs[j]);
    }
    if clause_true(a, bc) {
        let i = choose|i: int| 0 <= i < bc.len() && lit_true(a, #[trigger] bc[i]);
        if i >= 1 {
            assert(bc[i] == inputs[i - 1]);
        } else {
            assert(bc[0] == -o);
        }
    }
    if !lit_true(a, o) {
        assert(bc[0] == -o);
    }
}

/// Every model of a clause has one of its literals true, and every
/// assignment that has one of them true is a model.
pub proof fn clause_meaning<V>(names: Seq<Option<V>>, lits: Seq<VarType<V>>, a: Assignment)
    requires
        lits_fit(names, lits),
    ensures
        all_true(a, clause_encoded(names, lits).clauses) == !none_true(a, input_ids(names, lits)),
{
    let ids = input_ids(names, lits);
    lemma_all_true_one(a, ids);
    if clause_true(a, ids) {
        let j = choose|j: int| 0 <= j < ids.len() && lit_true(a, #[trigger] ids[j]);
    }
    if !none_true(a, ids) {
        let j = choose|j: int| 0 <= j < ids.len() && lit_true(a, #[trigger] ids[j]);
    }
}

/// In every model of a reification of a clause, the representative is
/// true where a literal of the clause is; and where the representative
/// shall equal the clause, it is true only there.
pub proof fn clause_repr_sound<V>(
    names: Seq<Option<V>>,
    lits: Seq<VarType<V>>,
    repr: Option<i32>,
    equal: bool,
    a: Assignment,
)
    requires
        lits_fit(repr_names(names, repr), lits),
        crate::constraints::repr_ok(repr),
        all_true(a, clause_repr_encoded(names, lits, repr, equal).clauses),
    ensures
        !none_true(a, none_repr_inputs(names, lits, repr)) ==> lit_true(
            a,
            clause_repr_encoded(names, lits, repr, equal).repr,
        ),
        equal && lit_true(a, clause_repr_encoded(names, lits, repr, equal).repr) ==> !none_true(
            a,
            none_repr_inputs(names, lits, repr),
        ),
{
    let ids = none_repr_inputs(names, lits, repr);
    let r = repr_lit(names, repr);
    lemma_input_ids(repr_names(names, repr), lits);
    lemma_or_gate(a, if equal { Direction::Both } else { Direction::InToOut }, ids, r);
}

/// Every assignment extends to a model of a reification of a clause in
/// which the representative has the value `want`, provided that `want` is
/// true where a literal of the clause is, and, where the representative
/// shall equal the clause, only there.
pub proof fn clause_repr_extends<V>(
    names: Seq<Option<V>>,
    lits: Seq<VarType<V>>,
    equal: bool,
    a: Assignment,
    want: bool,
) -> (b: Assignment)
    requires
        lits_fit(repr_names(names, None), lits),
        known(names, lits),
        !none_true(a, none_repr_inputs(names, lits, None)) ==> want,
        equal && want ==> !none_true(a, none_repr_inputs(names, lits, None)),
    ensures
        same_inputs(b, a, names, none_repr_inputs(names, lits, None)),
        all_true(b, clause_repr_encoded(names, lits, None, equal).clauses),
        lit_true(b, clause_repr_encoded(names, lits, None, equal).repr) == want,
{
    let r = names.len() as int + 1;
    let ids = none_repr_inputs::<V>(names, lits, None);
    let b = with_value(a, r, want);
    lemma_inputs_avoid_repr(names, lits);
    lemma_input_ids(names.push(None), lits);
    assert forall|i: int| 0 <= i < ids.len() implies lit_true(b, #[trigger] ids[i]) == lit_true(
        a,
        ids[i],
    ) by {
        assert(var_of(ids[i]) != r);
    }
    assert(none_true(b, ids) == none_true(a, ids)) by {
        if none_true(a, ids) {
            assert forall|j: int| 0 <= j < ids.len() implies !lit_true(b, #[trigger] ids[j]) by {
                assert(!lit_true(a, ids[j]));
            }
        }
        if none_true(b, ids) {
            assert forall|j: int| 0 <= j < ids.len() implies !lit_true(a, #[trigger] ids[j]) by {
                assert(!lit_true(b, ids[j]));
            }
        }
    }
    lemma_or_gate(b, if equal { Direction::Both } else { Direction::InToOut }, ids, r);
    b
}

} // verus!
