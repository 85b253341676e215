//! The meaning of the encodings of "at most", "at least" and "exactly".
//!
//! Each law speaks of an assignment of the solver variables. The inputs of
//! a constraint keep their meaning: an encoding only adds variables after
//! them. A law of the form "every model ..." takes any assignment that makes
//! all clauses true; a law of the form "... extends to a model" gives an
//! assignment that makes all clauses true and differs from the given one on
//! the variables of the encoding only.

use vstd::prelude::*;
use crate::circuit::Direction;
use crate::constraints::bounds::{
    at_least_encoded, at_least_fits, at_least_repr_encoded, at_least_repr_fits, at_most_encoded,
    at_most_fits, at_most_repr_encoded, at_most_repr_fits, exactly_encoded, exactly_repr_encoded,
    exactly_repr_fits, none_encoded, none_fits, none_repr_encoded, none_repr_fits, repr_dir,
};
use crate::constraints::cardinality::{
    counter_clauses, counter_encoded, counter_fits, counter_row, ids_after, lemma_ids_after_grows,
};
use crate::constraints::counter_proofs::{
    at, exact_shape, high_shape, lemma_counter_row_nonzero, lemma_counter_sound,
    lemma_exact_shape_fits, lemma_high_shape_fits, lemma_low_shape_fits,
    lemma_shaped_counter_holds, lemma_with_counter, low_shape, nonzero, row_sem, shape_fits,
    shaped_row, with_counter, Shape,
};
use crate::constraints::util::{repr_lit, repr_names, tie_clauses, tied};
use crate::lit::{Lit, VarType};
use crate::semantics::{
    agree_below, all_nonzero, all_true, clause_true, count_true, lemma_all_true_concat,
    lemma_all_true_one, lemma_all_true_push, lemma_clause1, lemma_clause2, lemma_clause3,
    lemma_clause_push, lemma_count_agree, lemma_count_range, lemma_count_zero, lemma_guards,
    lemma_unit_negs, lit_true, lits_below, none_true, val, var_of, with_value, Assignment,
};
use crate::varmap::{
    all_well_formed, id_of, lemma_id_of_range, lemma_with_lits_extends, lit_id, lit_ids, with_lits,
};

verus! {

/// The solver literals of the inputs `lits`.
pub open spec fn input_ids<V>(names: Seq<Option<V>>, lits: Seq<VarType<V>>) -> Seq<int> {
    lit_ids(with_lits(names, lits), lits)
}

/// How many of the inputs `lits` are true under `a`.
pub open spec fn trues<V>(a: Assignment, names: Seq<Option<V>>, lits: Seq<VarType<V>>) -> int {
    count_true(a, input_ids(names, lits), lits.len() as int)
}

/// Whether every unnamed literal among `lits` is a variable that `names`
/// holds already.
pub open spec fn known<V>(names: Seq<Option<V>>, lits: Seq<VarType<V>>) -> bool {
    forall|i: int|
        0 <= i < lits.len() ==> ((#[trigger] lits[i]) matches VarType::Unnamed(x) ==> 1 <= var_of(
            x as int,
        ) <= names.len())
}

/// The first variable that an encoding after the inputs `lits` may number.
pub open spec fn first_free<V>(names: Seq<Option<V>>, lits: Seq<VarType<V>>) -> int {
    with_lits(names, lits).len() as int + 1
}

/// The solver literals of the inputs are nonzero; where the unnamed ones
/// are known, all of them are variables of the table after the inputs.
pub proof fn lemma_input_ids<V>(names: Seq<Option<V>>, lits: Seq<VarType<V>>)
    requires
        all_well_formed(lits),
    ensures
        input_ids(names, lits).len() == lits.len(),
        all_nonzero(input_ids(names, lits)),
        nonzero(input_ids(names, lits), lits.len() as int),
        known(names, lits) ==> lits_below(input_ids(names, lits), first_free(names, lits)),
        known(names, lits) ==> forall|i: int|
            0 <= i < lits.len() ==> (var_of(#[trigger] input_ids(names, lits)[i]) <= names.len()
                || var_of(input_ids(names, lits)[i]) > names.len()
                && with_lits(names, lits)[var_of(input_ids(names, lits)[i]) - 1] is Some),
{
    let named = with_lits(names, lits);
    let ids = input_ids(names, lits);
    lemma_with_lits_extends(names, lits);
    assert forall|i: int| 0 <= i < lits.len() implies #[trigger] ids[i] != 0 by {
        assert(lit_id(named, lits[i]) != 0);
    }
    if known(names, lits) {
        assert forall|i: int| 0 <= i < lits.len() implies 1 <= var_of(#[trigger] ids[i])
            < named.len() + 1 && (var_of(ids[i]) <= names.len() || named[var_of(ids[i]) - 1] is Some) by {
            assert(lit_id(named, lits[i]) != 0);
            match lits[i] {
                VarType::Named(l) => {
                    lemma_id_of_range(named, l.spec_var());
                },
                VarType::Unnamed(x) => {},
            }
        }
    }
}

/// Building a counter over known inputs: any output values that fit the
/// gates can be had by setting the counter's variables and no others.
pub proof fn lemma_counter_extension(
    a: Assignment,
    dir: Direction,
    t: Shape,
    vars: Seq<int>,
    k: int,
    base: int,
) -> (b: Assignment)
    requires
        1 <= k,
        1 <= base,
        1 <= vars.len(),
        lits_below(vars, base),
        shape_fits(a, dir, t, vars, k, vars.len() as int),
    ensures
        forall|x: int|
            x < base || x >= base + ids_after(k, false, vars.len() as int, vars.len() as int)
                ==> #[trigger] val(b, x) == val(a, x),
        all_true(b, counter_clauses(dir, vars, k, None, base, vars.len() as int)),
        shaped_row(
            b,
            counter_row(k, None, vars.len() as int, base, vars.len() as int),
            t,
            vars.len() as int,
            k,
        ),
{
    let n = vars.len() as int;
    let b = with_counter(a, t, vars, k, false, base);
    lemma_with_counter(a, t, vars, k, None, base);
    assert(agree_below(b, a, base));
    lemma_count_agree(b, a, vars, base, n);
    assert(shape_fits(b, dir, t, vars, k, n)) by {
        assert forall|r: int| 1 <= r <= n implies #[trigger] crate::constraints::counter_proofs::row_fits(
            dir,
            t,
            lit_true(b, vars[r - 1]),
            r,
            k,
        ) by {
            assert(lit_true(b, vars[r - 1]) == lit_true(a, vars[r - 1]));
            assert(crate::constraints::counter_proofs::row_fits(
                dir,
                t,
                lit_true(a, vars[r - 1]),
                r,
                k,
            ));
        }
    }
    assert(nonzero(vars, n)) by {
        assert forall|j: int| 0 <= j < n implies #[trigger] vars[j] != 0 by {
            assert(1 <= var_of(vars[j]));
        }
    }
    lemma_shaped_counter_holds(b, dir, t, vars, k, None, base, n);
    b
}

/// Every model of "at most `k`" has at most `k` true inputs.
pub proof fn at_most_k_sound<V>(
    names: Seq<Option<V>>,
    lits: Seq<VarType<V>>,
    k: u32,
    a: Assignment,
)
    requires
        at_most_fits(names, lits, k),
        all_true(a, at_most_encoded(names, lits, k).clauses),
    ensures
        trues(a, names, lits) <= k,
{
    let ids = input_ids(names, lits);
    let n = lits.len() as int;
    if k == 0 {
        lemma_input_ids(names, lits);
        lemma_unit_negs(a, ids);
        lemma_count_zero(a, ids, n);
    } else {
        lemma_input_ids(names, lits);
        let base = first_free(names, lits);
        let c = counter_encoded(names, lits, k + 1, Direction::InToOut, None);
        lemma_all_true_push(a, c.1, seq![-c.2[k as int]]);
        lemma_counter_sound(a, Direction::InToOut, ids, k + 1, None, base, n);
        lemma_counter_row_nonzero(k + 1, None, n, base, n);
        lemma_clause1(a, -c.2[k as int]);
        assert(c.2[k as int] != 0);
    }
}

/// Every assignment with at most `k` true inputs extends to a model of "at
/// most `k`".
pub proof fn at_most_k_complete<V>(
    names: Seq<Option<V>>,
    lits: Seq<VarType<V>>,
    k: u32,
    a: Assignment,
) -> (b: Assignment)
    requires
        at_most_fits(names, lits, k),
        known(names, lits),
        trues(a, names, lits) <= k,
    ensures
        agree_below(b, a, first_free(names, lits)),
        all_true(b, at_most_encoded(names, lits, k).clauses),
{
    let ids = input_ids(names, lits);
    let n = lits.len() as int;
    lemma_count_range(a, ids, n);
    if k == 0 {
        lemma_input_ids(names, lits);
        lemma_unit_negs(a, ids);
        lemma_count_zero(a, ids, n);
        a
    } else {
        lemma_input_ids(names, lits);
        let base = first_free(names, lits);
        let t = exact_shape(a, ids);
        lemma_exact_shape_fits(a, Direction::InToOut, ids, k + 1, n);
        let b = lemma_counter_extension(a, Direction::InToOut, t, ids, k + 1, base);
        let c = counter_encoded(names, lits, k + 1, Direction::InToOut, None);
        lemma_counter_row_nonzero(k + 1, None, n, base, n);
        assert(lit_true(b, c.2[k as int]) == at(t, n, k as int));
        lemma_clause1(b, -c.2[k as int]);
        lemma_all_true_push(b, c.1, seq![-c.2[k as int]]);
        b
    }
}

/// Every model of "at least `k`" has at least `k` true inputs.
pub proof fn at_least_k_sound<V>(
    names: Seq<Option<V>>,
    lits: Seq<VarType<V>>,
    k: u32,
    a: Assignment,
)
    requires
        at_least_fits(names, lits, k),
        all_true(a, at_least_encoded(names, lits, k).clauses),
    ensures
        trues(a, names, lits) >= k,
{
    let ids = input_ids(names, lits);
    let n = lits.len() as int;
    lemma_count_range(a, ids, n);
    if k != 0 {
        lemma_input_ids(names, lits);
        let base = first_free(names, lits);
        let c = counter_encoded(names, lits, k as int, Direction::OutToIn, None);
        lemma_all_true_push(a, c.1, seq![c.2[k - 1]]);
        lemma_counter_sound(a, Direction::OutToIn, ids, k as int, None, base, n);
        lemma_clause1(a, c.2[k - 1]);
    }
}

/// Every assignment with at least `k` true inputs extends to a model of
/// "at least `k`".
pub proof fn at_least_k_complete<V>(
    names: Seq<Option<V>>,
    lits: Seq<VarType<V>>,
    k: u32,
    a: Assignment,
) -> (b: Assignment)
    requires
        at_least_fits(names, lits, k),
        known(names, lits),
        trues(a, names, lits) >= k,
    ensures
        k == 0 ==> b == a,
        k != 0 ==> agree_below(b, a, first_free(names, lits)),
        all_true(b, at_least_encoded(names, lits, k).clauses),
{
    let ids = input_ids(names, lits);
    let n = lits.len() as int;
    if k == 0 {
        a
    } else {
        lemma_input_ids(names, lits);
        let base = first_free(names, lits);
        let t = exact_shape(a, ids);
        lemma_exact_shape_fits(a, Direction::OutToIn, ids, k as int, n);
        let b = lemma_counter_extension(a, Direction::OutToIn, t, ids, k as int, base);
        let c = counter_encoded(names, lits, k as int, Direction::OutToIn, None);
        assert(lit_true(b, c.2[k - 1]) == at(t, n, k - 1));
        lemma_clause1(b, c.2[k - 1]);
        lemma_all_true_push(b, c.1, seq![c.2[k - 1]]);
        b
    }
}

/// Every model of "exactly `k`" has exactly `k` true inputs.
pub proof fn exactly_k_sound<V>(
    names: Seq<Option<V>>,
    lits: Seq<VarType<V>>,
    k: u32,
    a: Assignment,
)
    requires
        at_most_fits(names, lits, k),
        all_true(a, exactly_encoded(names, lits, k).clauses),
    ensures
        trues(a, names, lits) == k,
{
    let ids = input_ids(names, lits);
    let n = lits.len() as int;
    lemma_input_ids(names, lits);
    if k == 0 {
        lemma_unit_negs(a, ids);
        lemma_count_zero(a, ids, n);
    } else {
        let base = first_free(names, lits);
        let c = counter_encoded(names, lits, k + 1, Direction::Both, None);
        let last = seq![seq![c.2[k - 1]], seq![-c.2[k as int]]];
        lemma_all_true_concat(a, c.1, last);
        assert(last =~= seq![seq![c.2[k - 1]]] + seq![seq![-c.2[k as int]]]);
        lemma_all_true_concat(a, seq![seq![c.2[k - 1]]], seq![seq![-c.2[k as int]]]);
        lemma_all_true_one(a, seq![c.2[k - 1]]);
        lemma_all_true_one(a, seq![-c.2[k as int]]);
        lemma_counter_sound(a, Direction::Both, ids, k + 1, None, base, n);
        lemma_counter_row_nonzero(k + 1, None, n, base, n);
        lemma_clause1(a, c.2[k - 1]);
        lemma_clause1(a, -c.2[k as int]);
        assert(c.2[k as int] != 0);
    }
}

/// Every assignment with exactly `k` true inputs extends to a model of
/// "exactly `k`".
pub proof fn exactly_k_complete<V>(
    names: Seq<Option<V>>,
    lits: Seq<VarType<V>>,
    k: u32,
    a: Assignment,
) -> (b: Assignment)
    requires
        at_most_fits(names, lits, k),
        known(names, lits),
        trues(a, names, lits) == k,
    ensures
        agree_below(b, a, first_free(names, lits)),
        all_true(b, exactly_encoded(names, lits, k).clauses),
{
    let ids = input_ids(names, lits);
    let n = lits.len() as int;
    lemma_input_ids(names, lits);
    if k == 0 {
        lemma_unit_negs(a, ids);
        lemma_count_zero(a, ids, n);
        a
    } else {
        let base = first_free(names, lits);
        let t = exact_shape(a, ids);
        lemma_exact_shape_fits(a, Direction::Both, ids, k + 1, n);
        let b = lemma_counter_extension(a, Direction::Both, t, ids, k + 1, base);
        let c = counter_encoded(names, lits, k + 1, Direction::Both, None);
        lemma_counter_row_nonzero(k + 1, None, n, base, n);
        assert(lit_true(b, c.2[k as int]) == at(t, n, k as int));
        assert(lit_true(b, c.2[k - 1]) == at(t, n, k - 1));
        let last = seq![seq![c.2[k - 1]], seq![-c.2[k as int]]];
        assert(last =~= seq![seq![c.2[k - 1]]] + seq![seq![-c.2[k as int]]]);
        lemma_all_true_concat(b, seq![seq![c.2[k - 1]]], seq![seq![-c.2[k as int]]]);
        lemma_all_true_one(b, seq![c.2[k - 1]]);
        lemma_all_true_one(b, seq![-c.2[k as int]]);
        lemma_clause1(b, c.2[k - 1]);
        lemma_clause1(b, -c.2[k as int]);
        lemma_all_true_concat(b, c.1, last);
        b
    }
}

/// Whether `b` gives every variable of `names`, and every input, the value
/// that `a` gives it.
pub open spec fn same_inputs<V>(
    b: Assignment,
    a: Assignment,
    names: Seq<Option<V>>,
    ids: Seq<int>,
) -> bool {
    &&& agree_below(b, a, names.len() as int + 1)
    &&& forall|i: int| 0 <= i < ids.len() ==> lit_true(b, #[trigger] ids[i]) == lit_true(a, ids[i])
}

/// Assignments that agree on the inputs count the same.
pub proof fn lemma_same_count(a: Assignment, b: Assignment, ids: Seq<int>, i: int)
    requires
        0 <= i <= ids.len(),
        forall|j: int| 0 <= j < ids.len() ==> lit_true(b, #[trigger] ids[j]) == lit_true(a, ids[j]),
    ensures
        count_true(b, ids, i) == count_true(a, ids, i),
    decreases i,
{
    if i > 0 {
        lemma_same_count(a, b, ids, i - 1);
    }
}

/// A representative given from outside has the value of the literal it is
/// tied to.
pub proof fn lemma_tie(a: Assignment, r: int, repr: Option<i32>)
    requires
        r != 0,
        crate::constraints::repr_ok(repr),
        all_true(a, tie_clauses(r, repr)),
    ensures
        lit_true(a, tied(r, repr)) == lit_true(a, r),
{
    match repr {
        Some(p) => {
            let cs = tie_clauses(r, repr);
            assert(cs =~= seq![seq![-r, p as int]] + seq![seq![r, -p]]);
            lemma_all_true_concat(a, seq![seq![-r, p as int]], seq![seq![r, -p]]);
            lemma_all_true_one(a, seq![-r, p as int]);
            lemma_all_true_one(a, seq![r, -p]);
            lemma_clause2(a, -r, p as int);
            lemma_clause2(a, r, -p);
        },
        None => {},
    }
}

/// The representative of "no input is true" is a fresh variable that no
/// input uses.
pub proof fn lemma_inputs_avoid_repr<V>(names: Seq<Option<V>>, lits: Seq<VarType<V>>)
    requires
        all_well_formed(lits),
        known(names, lits),
    ensures
        known(names.push(None), lits),
        forall|i: int|
            0 <= i < lits.len() ==> var_of(#[trigger] input_ids(names.push(None), lits)[i])
                != names.len() + 1,
{
    let n1 = names.push(None);
    let named = with_lits(n1, lits);
    let ids = input_ids(n1, lits);
    lemma_with_lits_extends(n1, lits);
    assert(named.take(n1.len() as int)[names.len() as int] == n1[names.len() as int]);
    assert forall|i: int| 0 <= i < lits.len() implies var_of(#[trigger] ids[i]) != names.len()
        + 1 by {
        match lits[i] {
            VarType::Named(l) => {
                lemma_id_of_range(named, l.spec_var());
                assert(lit_id(named, lits[i]) != 0);
            },
            VarType::Unnamed(x) => {},
        }
    }
}

/// The inputs of the reification of "no input is true".
pub open spec fn none_repr_inputs<V>(
    names: Seq<Option<V>>,
    lits: Seq<VarType<V>>,
    repr: Option<i32>,
) -> Seq<int> {
    input_ids(repr_names(names, repr), lits)
}

/// In every model of the reification of "no input is true", the
/// representative is true where no input is; and where the representative
/// shall equal the constraint, it is true only there.
pub proof fn none_repr_sound<V>(
    names: Seq<Option<V>>,
    lits: Seq<VarType<V>>,
    repr: Option<i32>,
    equal: bool,
    a: Assignment,
)
    requires
        none_repr_fits(names, lits, repr),
        crate::constraints::repr_ok(repr),
        all_true(a, none_repr_encoded(names, lits, repr, equal).clauses),
    ensures
        none_true(a, none_repr_inputs(names, lits, repr)) ==> lit_true(
            a,
            none_repr_encoded(names, lits, repr, equal).repr,
        ),
        equal && lit_true(a, none_repr_encoded(names, lits, repr, equal).repr) ==> none_true(
            a,
            none_repr_inputs(names, lits, repr),
        ),
{
    let r = repr_lit(names, repr);
    let ids = none_repr_inputs(names, lits, repr);
    lemma_input_ids(repr_names(names, repr), lits);
    let guards = crate::circuit::only_if(equal, crate::circuit::guard_clauses(ids, -r));
    lemma_all_true_concat(a, seq![ids.push(r)], guards);
    lemma_all_true_one(a, ids.push(r));
    lemma_clause_push(a, ids, r);
    if equal {
        lemma_guards(a, ids, -r);
    }
}

/// Every assignment extends to a model of the reification of "no input is
/// true" in which the representative has the value `want`, provided that
/// `want` is true where no input is, and, where the representative shall
/// equal the constraint, only there.
pub proof fn none_repr_extends<V>(
    names: Seq<Option<V>>,
    lits: Seq<VarType<V>>,
    equal: bool,
    a: Assignment,
    want: bool,
) -> (b: Assignment)
    requires
        none_repr_fits(names, lits, None),
        known(names, lits),
        none_true(a, none_repr_inputs(names, lits, None)) ==> want,
        equal && want ==> none_true(a, none_repr_inputs(names, lits, None)),
    ensures
        same_inputs(b, a, names, none_repr_inputs(names, lits, None)),
        all_true(b, none_repr_encoded(names, lits, None, equal).clauses),
        lit_true(b, none_repr_encoded(names, lits, None, equal).repr) == want,
{
    let r = names.len() as int + 1;
    let ids = none_repr_inputs::<V>(names, lits, None);
    let b = with_value(a, r, want);
    lemma_inputs_avoid_repr(names, lits);
    lemma_input_ids(names.push(None), lits);
    assert forall|i: int| 0 <= i < ids.len() implies lit_true(b, #[trigger] ids[i]) == lit_true(
        a,
        ids[i],
    ) by {
        assert(var_of(ids[i]) != r);
    }
    assert(none_true(b, ids) == none_true(a, ids)) by {
        if none_true(a, ids) {
            assert forall|j: int| 0 <= j < ids.len() implies !lit_true(b, #[trigger] ids[j]) by {
                assert(!lit_true(a, ids[j]));
            }
        }
        if none_true(b, ids) {
            assert forall|j: int| 0 <= j < ids.len() implies !lit_true(a, #[trigger] ids[j]) by {
                assert(!lit_true(b, ids[j]));
            }
        }
    }
    let guards = crate::circuit::only_if(equal, crate::circuit::guard_clauses(ids, -r));
    lemma_clause_push(b, ids, r);
    lemma_all_true_one(b, ids.push(r));
    if equal {
        lemma_guards(b, ids, -r);
        if want {
            assert forall|j: int| 0 <= j < ids.len() implies (lit_true(b, #[trigger] ids[j])
                ==> lit_true(b, -r)) by {
                assert(!lit_true(b, ids[j]));
            }
        }
    }
    lemma_all_true_concat(b, seq![ids.push(r)], guards);
    b
}

/// The inputs of a reification of "at most `k`" or "exactly `k`", whose
/// variables are numbered after the representative where `k` is 0.
pub open spec fn zero_first_inputs<V>(
    names: Seq<Option<V>>,
    lits: Seq<VarType<V>>,
    k: u32,
    repr: Option<i32>,
) -> Seq<int> {
    if k == 0 {
        none_repr_inputs(names, lits, repr)
    } else {
        input_ids(names, lits)
    }
}

/// In every model of a reification of "at most `k`", the representative is
/// true where at most `k` inputs are true; and where the representative
/// shall equal the constraint, it is true only there.
pub proof fn at_most_k_repr_sound<V>(
    names: Seq<Option<V>>,
    lits: Seq<VarType<V>>,
    k: u32,
    repr: Option<i32>,
    equal: bool,
    a: Assignment,
)
    requires
        at_most_repr_fits(names, lits, k, repr),
        crate::constraints::repr_ok(repr),
        all_true(a, at_most_repr_encoded(names, lits, k, repr, equal).clauses),
    ensures
        count_true(a, zero_first_inputs(names, lits, k, repr), lits.len() as int) <= k
            ==> lit_true(a, at_most_repr_encoded(names, lits, k, repr, equal).repr),
        equal && lit_true(a, at_most_repr_encoded(names, lits, k, repr, equal).repr)
            ==> count_true(a, zero_first_inputs(names, lits, k, repr), lits.len() as int) <= k,
{
    let ids = zero_first_inputs(names, lits, k, repr);
    let n = lits.len() as int;
    lemma_count_range(a, ids, n);
    if k == 0 {
        none_repr_sound(names, lits, repr, equal, a);
        lemma_input_ids(repr_names(names, repr), lits);
        lemma_count_zero(a, ids, n);
    } else {
        lemma_input_ids(names, lits);
        let base = first_free(names, lits);
        let dir = repr_dir(equal, Direction::OutToIn);
        let c = counter_encoded(names, lits, k + 1, dir, None);
        let r = -c.2[k as int];
        lemma_all_true_concat(a, c.1, tie_clauses(r, repr));
        lemma_counter_sound(a, dir, ids, k + 1, None, base, n);
        lemma_counter_row_nonzero(k + 1, None, n, base, n);
        assert(c.2[k as int] != 0);
        lemma_tie(a, r, repr);
    }
}

/// Every assignment extends to a model of a reification of "at most `k`"
/// in which the representative has the value `want`, provided that `want`
/// is true where at most `k` inputs are true, and, where the
/// representative shall equal the constraint, only there.
pub proof fn at_most_k_repr_extends<V>(
    names: Seq<Option<V>>,
    lits: Seq<VarType<V>>,
    k: u32,
    equal: bool,
    a: Assignment,
    want: bool,
) -> (b: Assignment)
    requires
        at_most_repr_fits(names, lits, k, None),
        known(names, lits),
        count_true(a, zero_first_inputs(names, lits, k, None), lits.len() as int) <= k ==> want,
        equal && want ==> count_true(
            a,
            zero_first_inputs(names, lits, k, None),
            lits.len() as int,
        ) <= k,
    ensures
        same_inputs(b, a, names, zero_first_inputs(names, lits, k, None)),
        all_true(b, at_most_repr_encoded(names, lits, k, None, equal).clauses),
        lit_true(b, at_most_repr_encoded(names, lits, k, None, equal).repr) == want,
{
    let ids = zero_first_inputs::<V>(names, lits, k, None);
    let n = lits.len() as int;
    lemma_count_range(a, ids, n);
    if k == 0 {
        lemma_input_ids(names.push(None), lits);
        lemma_count_zero(a, ids, n);
        none_repr_extends(names, lits, equal, a, want)
    } else {
        lemma_input_ids(names, lits);
        lemma_with_lits_extends(names, lits);
        let base = first_free(names, lits);
        let dir = repr_dir(equal, Direction::OutToIn);
        let holds = count_true(a, ids, n) <= k;
        let t = if want == holds {
            exact_shape(a, ids)
        } else {
            low_shape()
        };
        if want == holds {
            lemma_exact_shape_fits(a, dir, ids, k + 1, n);
        } else {
            lemma_low_shape_fits(a, ids, k + 1, n);
        }
        let b = lemma_counter_extension(a, dir, t, ids, k + 1, base);
        let c = counter_encoded(names, lits, k + 1, dir, None);
        lemma_counter_row_nonzero(k + 1, None, n, base, n);
        assert(lit_true(b, c.2[k as int]) == at(t, n, k as int));
        assert(c.2[k as int] != 0);
        assert(tie_clauses(-c.2[k as int], None) =~= Seq::<Seq<int>>::empty());
        assert(c.1 + tie_clauses(-c.2[k as int], None) =~= c.1);
        assert forall|i: int| 0 <= i < ids.len() implies lit_true(b, #[trigger] ids[i])
            == lit_true(a, ids[i]) by {
            assert(1 <= var_of(ids[i]) < base);
        }
        b
    }
}

/// In every model of a reification of "at least `k`", the representative
/// is true where at least `k` inputs are true; and where the representative
/// shall equal the constraint, it is true only there.
pub proof fn at_least_k_repr_sound<V>(
    names: Seq<Option<V>>,
    lits: Seq<VarType<V>>,
    k: u32,
    repr: Option<i32>,
    equal: bool,
    a: Assignment,
)
    requires
        at_least_repr_fits(names, lits, k, repr),
        crate::constraints::repr_ok(repr),
        all_true(a, at_least_repr_encoded(names, lits, k, repr, equal).clauses),
    ensures
        k == 0 || trues(a, names, lits) >= k ==> lit_true(
            a,
            at_least_repr_encoded(names, lits, k, repr, equal).repr,
        ),
        equal && lit_true(a, at_least_repr_encoded(names, lits, k, repr, equal).repr) ==> k == 0
            || trues(a, names, lits) >= k,
{
    let ids = input_ids(names, lits);
    let n = lits.len() as int;
    if k == 0 {
        let r = repr_lit(names, repr);
        lemma_all_true_one(a, seq![r]);
        lemma_clause1(a, r);
    } else {
        lemma_input_ids(names, lits);
        let base = first_free(names, lits);
        let dir = repr_dir(equal, Direction::InToOut);
        let c = counter_encoded(names, lits, k as int, dir, None);
        let r = c.2[k - 1];
        lemma_all_true_concat(a, c.1, tie_clauses(r, repr));
        lemma_counter_sound(a, dir, ids, k as int, None, base, n);
        lemma_counter_row_nonzero(k as int, None, n, base, n);
        assert(r != 0);
        lemma_tie(a, r, repr);
    }
}

/// Every assignment extends to a model of a reification of "at least `k`"
/// in which the representative has the value `want`, provided that `want`
/// is true where at least `k` inputs are true, and, where the
/// representative shall equal the constraint, only there.
///
/// A representative that is only forced by the constraint can be true
/// without it only if the counter has a second row or a single output.
pub proof fn at_least_k_repr_extends<V>(
    names: Seq<Option<V>>,
    lits: Seq<VarType<V>>,
    k: u32,
    equal: bool,
    a: Assignment,
    want: bool,
) -> (b: Assignment)
    requires
        at_least_repr_fits(names, lits, k, None),
        known(names, lits),
        k == 0 || trues(a, names, lits) >= k ==> want,
        equal && want ==> k == 0 || trues(a, names, lits) >= k,
        want ==> k <= 1 || lits.len() >= 2 || trues(a, names, lits) >= k,
    ensures
        agree_below(b, a, names.len() as int + 1),
        k != 0 ==> same_inputs(b, a, names, input_ids(names, lits)),
        all_true(b, at_least_repr_encoded(names, lits, k, None, equal).clauses),
        lit_true(b, at_least_repr_encoded(names, lits, k, None, equal).repr) == want,
{
    let ids = input_ids(names, lits);
    let n = lits.len() as int;
    if k == 0 {
        let r = names.len() as int + 1;
        let b = with_value(a, r, true);
        lemma_all_true_one(b, seq![r]);
        lemma_clause1(b, r);
        b
    } else {
        lemma_input_ids(names, lits);
        lemma_with_lits_extends(names, lits);
        let base = first_free(names, lits);
        let dir = repr_dir(equal, Direction::InToOut);
        let holds = count_true(a, ids, n) >= k;
        let t = if want == holds {
            exact_shape(a, ids)
        } else {
            high_shape()
        };
        if want == holds {
            lemma_exact_shape_fits(a, dir, ids, k as int, n);
        } else {
            lemma_high_shape_fits(a, ids, k as int, n);
        }
        let b = lemma_counter_extension(a, dir, t, ids, k as int, base);
        let c = counter_encoded(names, lits, k as int, dir, None);
        assert(lit_true(b, c.2[k - 1]) == at(t, n, k - 1));
        assert(tie_clauses(c.2[k - 1], None) =~= Seq::<Seq<int>>::empty());
        assert(c.1 + tie_clauses(c.2[k - 1], None) =~= c.1);
        assert forall|i: int| 0 <= i < ids.len() implies lit_true(b, #[trigger] ids[i])
            == lit_true(a, ids[i]) by {
            assert(1 <= var_of(ids[i]) < base);
        }
        b
    }
}

/// The inputs of a reification of "exactly `k`", whose variables are
/// numbered after the representative.
pub open spec fn exactly_repr_inputs<V>(
    names: Seq<Option<V>>,
    lits: Seq<VarType<V>>,
    repr: Option<i32>,
) -> Seq<int> {
    input_ids(repr_names(names, repr), lits)
}

/// In every model of a reification of "exactly `k`", the representative is
/// true where exactly `k` inputs are true; and where the representative
/// shall equal the constraint, it is true only there.
pub proof fn exactly_k_repr_sound<V>(
    names: Seq<Option<V>>,
    lits: Seq<VarType<V>>,
    k: u32,
    repr: Option<i32>,
    equal: bool,
    a: Assignment,
)
    requires
        exactly_repr_fits(names, lits, k, repr),
        crate::constraints::repr_ok(repr),
        all_true(a, exactly_repr_encoded(names, lits, k, repr, equal).clauses),
    ensures
        count_true(a, exactly_repr_inputs(names, lits, repr), lits.len() as int) == k ==> lit_true(
            a,
            exactly_repr_encoded(names, lits, k, repr, equal).repr,
        ),
        equal && lit_true(a, exactly_repr_encoded(names, lits, k, repr, equal).repr)
            ==> count_true(a, exactly_repr_inputs(names, lits, repr), lits.len() as int) == k,
{
    let n1 = repr_names(names, repr);
    let ids = exactly_repr_inputs(names, lits, repr);
    let n = lits.len() as int;
    lemma_count_range(a, ids, n);
    lemma_input_ids(n1, lits);
    if k == 0 {
        none_repr_sound(names, lits, repr, equal, a);
        lemma_count_zero(a, ids, n);
    } else {
        let base = first_free(n1, lits);
        let r = repr_lit(names, repr);
        let c = counter_encoded(n1, lits, k + 1, Direction::Both, None);
        let r1 = c.2[k - 1];
        let r2 = c.2[k as int];
        let back = crate::circuit::only_if(equal, seq![seq![r1, -r], seq![-r2, -r]]);
        lemma_all_true_concat(a, c.1 + seq![seq![-r1, r2, r]], back);
        lemma_all_true_concat(a, c.1, seq![seq![-r1, r2, r]]);
        lemma_all_true_one(a, seq![-r1, r2, r]);
        lemma_clause3(a, -r1, r2, r);
        lemma_counter_sound(a, Direction::Both, ids, k + 1, None, base, n);
        lemma_counter_row_nonzero(k + 1, None, n, base, n);
        assert(r1 != 0 && r2 != 0);
        if equal {
            assert(back =~= seq![seq![r1, -r]] + seq![seq![-r2, -r]]);
            lemma_all_true_concat(a, seq![seq![r1, -r]], seq![seq![-r2, -r]]);
            lemma_all_true_one(a, seq![r1, -r]);
            lemma_all_true_one(a, seq![-r2, -r]);
            lemma_clause2(a, r1, -r);
            lemma_clause2(a, -r2, -r);
        }
    }
}

/// Every assignment extends to a model of a reification of "exactly `k`"
/// in which the representative has the value `want`, provided that `want`
/// is true where exactly `k` inputs are true, and, where the representative
/// shall equal the constraint, only there.
pub proof fn exactly_k_repr_extends<V>(
    names: Seq<Option<V>>,
    lits: Seq<VarType<V>>,
    k: u32,
    equal: bool,
    a: Assignment,
    want: bool,
) -> (b: Assignment)
    requires
        exactly_repr_fits(names, lits, k, None),
        known(names, lits),
        count_true(a, exactly_repr_inputs(names, lits, None), lits.len() as int) == k ==> want,
        equal && want ==> count_true(
            a,
            exactly_repr_inputs(names, lits, None),
            lits.len() as int,
        ) == k,
    ensures
        same_inputs(b, a, names, exactly_repr_inputs(names, lits, None)),
        all_true(b, exactly_repr_encoded(names, lits, k, None, equal).clauses),
        lit_true(b, exactly_repr_encoded(names, lits, k, None, equal).repr) == want,
{
    let n1 = names.push(None);
    let ids = exactly_repr_inputs::<V>(names, lits, None);
    let n = lits.len() as int;
    lemma_count_range(a, ids, n);
    lemma_inputs_avoid_repr(names, lits);
    lemma_input_ids(n1, lits);
    if k == 0 {
        lemma_count_zero(a, ids, n);
        none_repr_extends(names, lits, equal, a, want)
    } else {
        lemma_with_lits_extends(n1, lits);
        let base = first_free(n1, lits);
        let r = names.len() as int + 1;
        let a1 = with_value(a, r, want);
        assert forall|i: int| 0 <= i < ids.len() implies lit_true(a1, #[trigger] ids[i])
            == lit_true(a, ids[i]) by {
            assert(var_of(ids[i]) != r);
        }
        lemma_same_count(a, a1, ids, n);
        let t = exact_shape(a1, ids);
        lemma_exact_shape_fits(a1, Direction::Both, ids, k + 1, n);
        let b = lemma_counter_extension(a1, Direction::Both, t, ids, k + 1, base);
        let c = counter_encoded(n1, lits, k + 1, Direction::Both, None);
        let r1 = c.2[k - 1];
        let r2 = c.2[k as int];
        lemma_counter_row_nonzero(k + 1, None, n, base, n);
        assert(lit_true(b, r1) == at(t, n, k - 1));
        assert(lit_true(b, r2) == at(t, n, k as int));
        assert(r1 != 0 && r2 != 0);
        assert(val(b, r) == val(a1, r));
        assert forall|i: int| 0 <= i < ids.len() implies lit_true(b, #[trigger] ids[i])
            == lit_true(a, ids[i]) by {
            assert(1 <= var_of(ids[i]) < base);
            assert(lit_true(a1, ids[i]) == lit_true(a, ids[i]));
        }
        let back = crate::circuit::only_if(equal, seq![seq![r1, -r], seq![-r2, -r]]);
        lemma_all_true_one(b, seq![-r1, r2, r]);
        lemma_clause3(b, -r1, r2, r);
        lemma_all_true_concat(b, c.1, seq![seq![-r1, r2, r]]);
        if equal {
            assert(back =~= seq![seq![r1, -r]] + seq![seq![-r2, -r]]);
            lemma_all_true_concat(b, seq![seq![r1, -r]], seq![seq![-r2, -r]]);
            lemma_all_true_one(b, seq![r1, -r]);
            lemma_all_true_one(b, seq![-r2, -r]);
            lemma_clause2(b, r1, -r);
            lemma_clause2(b, -r2, -r);
        }
        lemma_all_true_concat(b, c.1 + seq![seq![-r1, r2, r]], back);
        b
    }
}

} // verus!
