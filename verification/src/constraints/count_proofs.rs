//! How many truth patterns of the inputs the models of a bound show.

use vstd::prelude::*;
use crate::constraints::bounds::{
    at_least_encoded, at_least_fits, at_most_encoded, at_most_fits, exactly_encoded,
};
use crate::constraints::bounds_proofs::{
    at_least_k_complete, at_least_k_sound, at_most_k_complete, at_most_k_sound,
    exactly_k_complete, exactly_k_sound, first_free, input_ids, known, lemma_input_ids, trues,
};
use crate::constraints::same::{max_len, min_len, same_encoded, same_fits};
use crate::constraints::same_proofs::{
    all_count, all_known, group_ids, group_names, group_trues, lemma_group_counted,
    lemma_group_inputs_kept, lemma_group_table, lemma_min_bound, same_cardinality_complete,
    same_cardinality_sound,
};
use crate::counting::{
    binomial, binomial_sum, is_tuple, lemma_level_tuples_count, lemma_ones_range,
    lemma_patterns_between_count, lemma_patterns_count, level_tuples, ones, patterns,
    patterns_between, product_sum,
};
use crate::lit::VarType;
use crate::semantics::{
    agree_below, all_nonzero, all_true, count_true, lemma_count_agree, lit_true, lits_below, val,
    var_of, Assignment,
};

verus! {

/// The truth values of the inputs `ids` under `a`, in order.
pub open spec fn input_pattern(a: Assignment, ids: Seq<int>) -> Seq<bool> {
    Seq::new(ids.len(), |i: int| lit_true(a, ids[i]))
}

/// The patterns of the inputs `ids` that the models of `clauses` show.
pub open spec fn model_patterns(clauses: Seq<Seq<int>>, ids: Seq<int>) -> Set<Seq<bool>> {
    Set::new(
        |p: Seq<bool>|
            exists|a: Assignment| #[trigger] all_true(a, clauses) && input_pattern(a, ids) == p,
    )
}

/// Whether the inputs `ids` are literals of different variables.
pub open spec fn distinct_vars(ids: Seq<int>) -> bool {
    forall|i: int, j: int|
        0 <= i < ids.len() && 0 <= j < ids.len() && var_of(#[trigger] ids[i]) == var_of(
            #[trigger] ids[j],
        ) ==> i == j
}

/// An assignment under which the inputs `ids` have the pattern `p`.
pub open spec fn assignment_of(p: Seq<bool>, ids: Seq<int>) -> Assignment {
    |v: int| exists|i: int| 0 <= i < ids.len() && var_of(#[trigger] ids[i]) == v && p[i] == (ids[i] > 0)
}

/// Inputs of different variables can have any pattern.
pub proof fn lemma_assignment_of(p: Seq<bool>, ids: Seq<int>)
    requires
        p.len() == ids.len(),
        all_nonzero(ids),
        distinct_vars(ids),
    ensures
        input_pattern(assignment_of(p, ids), ids) == p,
{
    let a = assignment_of(p, ids);
    assert forall|i: int| 0 <= i < ids.len() implies lit_true(a, ids[i]) == p[i] by {
        let v = var_of(ids[i]);
        assert(ids[i] != 0);
        if val(a, v) {
            let j = choose|j: int|
                0 <= j < ids.len() && var_of(#[trigger] ids[j]) == v && p[j] == (ids[j] > 0);
            assert(j == i);
        }
        if p[i] == (ids[i] > 0) {
            assert(var_of(ids[i]) == v);
            assert(val(a, v));
        }
    }
    assert(input_pattern(a, ids) =~= p);
}

/// The pattern of the inputs has as many true entries as inputs are true.
pub proof fn lemma_pattern_ones(a: Assignment, ids: Seq<int>, i: int)
    requires
        0 <= i <= ids.len(),
    ensures
        ones(input_pattern(a, ids), i) == count_true(a, ids, i),
    decreases i,
{
    if i > 0 {
        lemma_pattern_ones(a, ids, i - 1);
    }
}

/// Assignments that agree on the variables of the inputs show the same
/// pattern.
pub proof fn lemma_pattern_agree(a: Assignment, b: Assignment, ids: Seq<int>, bound: int)
    requires
        agree_below(a, b, bound),
        lits_below(ids, bound),
    ensures
        input_pattern(a, ids) == input_pattern(b, ids),
{
    lemma_count_agree(a, b, ids, bound, 0);
    assert(input_pattern(a, ids) =~= input_pattern(b, ids));
}

/// The models of "at most `k`" over `n` inputs of different variables show
/// exactly the patterns with at most `k` true entries, which are
/// `binomial(n, 0) + .. + binomial(n, k)` many.
pub proof fn at_most_k_model_count<V>(names: Seq<Option<V>>, lits: Seq<VarType<V>>, k: u32)
    requires
        at_most_fits(names, lits, k),
        known(names, lits),
        distinct_vars(input_ids(names, lits)),
    ensures
        model_patterns(at_most_encoded(names, lits, k).clauses, input_ids(names, lits))
            == patterns_between(lits.len(), 0, k as int),
        model_patterns(at_most_encoded(names, lits, k).clauses, input_ids(names, lits)).len()
            == binomial_sum(lits.len(), 0, k as int),
{
    let ids = input_ids(names, lits);
    let n = lits.len();
    let clauses = at_most_encoded(names, lits, k).clauses;
    let shown = model_patterns(clauses, ids);
    let wanted = patterns_between(n, 0, k as int);
    lemma_input_ids(names, lits);
    assert forall|p: Seq<bool>| shown.contains(p) implies wanted.contains(p) by {
        let a = choose|a: Assignment| #[trigger] all_true(a, clauses) && input_pattern(a, ids) == p;
        at_most_k_sound(names, lits, k, a);
        lemma_pattern_ones(a, ids, n as int);
        lemma_ones_range(p, n as int);
    }
    assert forall|p: Seq<bool>| wanted.contains(p) implies shown.contains(p) by {
        let a = assignment_of(p, ids);
        lemma_assignment_of(p, ids);
        lemma_pattern_ones(a, ids, n as int);
        let b = at_most_k_complete(names, lits, k, a);
        lemma_pattern_agree(b, a, ids, first_free(names, lits));
        assert(all_true(b, clauses) && input_pattern(b, ids) == p);
    }
    assert(shown =~= wanted);
    lemma_patterns_between_count(n, 0, k as int);
}

/// The models of "at least `k`" over `n` inputs of different variables
/// show exactly the patterns with at least `k` true entries, which are
/// `binomial(n, k) + .. + binomial(n, n)` many.
pub proof fn at_least_k_model_count<V>(names: Seq<Option<V>>, lits: Seq<VarType<V>>, k: u32)
    requires
        at_least_fits(names, lits, k),
        crate::varmap::all_well_formed(lits),
        known(names, lits),
        distinct_vars(input_ids(names, lits)),
    ensures
        model_patterns(at_least_encoded(names, lits, k).clauses, input_ids(names, lits))
            == patterns_between(lits.len(), k as int, lits.len() as int),
        model_patterns(at_least_encoded(names, lits, k).clauses, input_ids(names, lits)).len()
            == binomial_sum(lits.len(), k as int, lits.len() as int),
{
    let ids = input_ids(names, lits);
    let n = lits.len();
    let clauses = at_least_encoded(names, lits, k).clauses;
    let shown = model_patterns(clauses, ids);
    let wanted = patterns_between(n, k as int, n as int);
    lemma_input_ids(names, lits);
    assert forall|p: Seq<bool>| shown.contains(p) implies wanted.contains(p) by {
        let a = choose|a: Assignment| #[trigger] all_true(a, clauses) && input_pattern(a, ids) == p;
        at_least_k_sound(names, lits, k, a);
        lemma_pattern_ones(a, ids, n as int);
        lemma_ones_range(p, n as int);
    }
    assert forall|p: Seq<bool>| wanted.contains(p) implies shown.contains(p) by {
        let a = assignment_of(p, ids);
        lemma_assignment_of(p, ids);
        lemma_pattern_ones(a, ids, n as int);
        let b = at_least_k_complete(names, lits, k, a);
        if k != 0 {
            lemma_pattern_agree(b, a, ids, first_free(names, lits));
        }
        assert(all_true(b, clauses) && input_pattern(b, ids) == p);
    }
    assert(shown =~= wanted);
    lemma_patterns_between_count(n, k as int, n as int);
}

/// The models of "exactly `k`" over `n` inputs of different variables show
/// exactly the patterns with `k` true entries, which are `binomial(n, k)`
/// many.
pub proof fn exactly_k_model_count<V>(names: Seq<Option<V>>, lits: Seq<VarType<V>>, k: u32)
    requires
        at_most_fits(names, lits, k),
        known(names, lits),
        distinct_vars(input_ids(names, lits)),
    ensures
        model_patterns(exactly_encoded(names, lits, k).clauses, input_ids(names, lits))
            == patterns(lits.len(), k as int),
        model_patterns(exactly_encoded(names, lits, k).clauses, input_ids(names, lits)).len()
            == binomial(lits.len(), k as int),
{
    let ids = input_ids(names, lits);
    let n = lits.len();
    let clauses = exactly_encoded(names, lits, k).clauses;
    let shown = model_patterns(clauses, ids);
    let wanted = patterns(n, k as int);
    lemma_input_ids(names, lits);
    assert forall|p: Seq<bool>| shown.contains(p) implies wanted.contains(p) by {
        let a = choose|a: Assignment| #[trigger] all_true(a, clauses) && input_pattern(a, ids) == p;
        exactly_k_sound(names, lits, k, a);
        lemma_pattern_ones(a, ids, n as int);
    }
    assert forall|p: Seq<bool>| wanted.contains(p) implies shown.contains(p) by {
        let a = assignment_of(p, ids);
        lemma_assignment_of(p, ids);
        lemma_pattern_ones(a, ids, n as int);
        let b = exactly_k_complete(names, lits, k, a);
        lemma_pattern_agree(b, a, ids, first_free(names, lits));
        assert(all_true(b, clauses) && input_pattern(b, ids) == p);
    }
    assert(shown =~= wanted);
    lemma_patterns_count(n, k as int);
}

/// The patterns of the groups' inputs under `a`, group by group.
pub open spec fn group_patterns<V>(
    a: Assignment,
    names: Seq<Option<V>>,
    groups: Seq<Seq<VarType<V>>>,
) -> Seq<Seq<bool>> {
    Seq::new(groups.len(), |g: int| input_pattern(a, group_ids(names, groups, g)))
}

/// The tuples of group patterns that the models of "all groups have
/// equally many true literals" show.
pub open spec fn same_model_tuples<V>(names: Seq<Option<V>>, groups: Seq<Seq<VarType<V>>>) -> Set<
    Seq<Seq<bool>>,
> {
    Set::new(
        |t: Seq<Seq<bool>>|
            exists|a: Assignment| #[trigger]
                all_true(a, same_encoded(names, groups).clauses) && group_patterns(
                    a,
                    names,
                    groups,
                ) == t,
    )
}

/// The lengths of the groups.
pub open spec fn lens_of<V>(groups: Seq<Seq<VarType<V>>>) -> Seq<nat> {
    Seq::new(groups.len(), |g: int| groups[g].len())
}

/// Whether the literals of all groups are literals of different variables.
pub open spec fn distinct_inputs<V>(names: Seq<Option<V>>, groups: Seq<Seq<VarType<V>>>) -> bool {
    forall|g: int, i: int, h: int, j: int|
        0 <= g < groups.len() && 0 <= i < groups[g].len() && 0 <= h < groups.len() && 0 <= j
            < groups[h].len() && var_of(#[trigger] group_ids(names, groups, g)[i]) == var_of(
            #[trigger] group_ids(names, groups, h)[j],
        ) ==> g == h && i == j
}

/// An assignment under which the groups' inputs have the patterns `t`.
pub open spec fn tuple_assignment<V>(
    t: Seq<Seq<bool>>,
    names: Seq<Option<V>>,
    groups: Seq<Seq<VarType<V>>>,
) -> Assignment {
    |v: int|
        exists|g: int, i: int|
            0 <= g < groups.len() && 0 <= i < groups[g].len() && var_of(
                #[trigger] group_ids(names, groups, g)[i],
            ) == v && t[g][i] == (group_ids(names, groups, g)[i] > 0)
}

/// Groups over different variables can have any patterns.
pub proof fn lemma_tuple_assignment<V>(
    t: Seq<Seq<bool>>,
    names: Seq<Option<V>>,
    groups: Seq<Seq<VarType<V>>>,
    g: int,
)
    requires
        same_fits(names, groups),
        distinct_inputs(names, groups),
        0 <= g < groups.len(),
        t.len() == groups.len(),
        t[g].len() == groups[g].len(),
    ensures
        input_pattern(tuple_assignment(t, names, groups), group_ids(names, groups, g)) == t[g],
        group_ids(names, groups, g).len() == groups[g].len(),
{
    let a = tuple_assignment(t, names, groups);
    let ids = group_ids(names, groups, g);
    lemma_group_table(names, groups, g);
    lemma_input_ids(group_names(names, groups, g), groups[g]);
    assert forall|i: int| 0 <= i < ids.len() implies lit_true(a, ids[i]) == t[g][i] by {
        let v = var_of(ids[i]);
        assert(ids[i] != 0);
        if val(a, v) {
            let (h, j) = choose|h: int, j: int|
                0 <= h < groups.len() && 0 <= j < groups[h].len() && var_of(
                    #[trigger] group_ids(names, groups, h)[j],
                ) == v && t[h][j] == (group_ids(names, groups, h)[j] > 0);
            assert(h == g && j == i);
        }
        if t[g][i] == (ids[i] > 0) {
            assert(var_of(group_ids(names, groups, g)[i]) == v);
            assert(val(a, v));
        }
    }
    assert(input_pattern(a, ids) =~= t[g]);
}

/// The models of "all groups have equally many true literals", over at
/// least one group and literals of different variables, show exactly the
/// tuples of group patterns with equally many true entries each. For groups
/// of the lengths `n1, .., nm`, the shortest of length `u`, these are
/// `binomial(n1, c) * .. * binomial(nm, c)`, summed over `0 <= c <= u`,
/// many.
pub proof fn same_cardinality_model_count<V>(names: Seq<Option<V>>, groups: Seq<Seq<VarType<V>>>)
    requires
        same_fits(names, groups),
        all_known(names, groups),
        distinct_inputs(names, groups),
        1 <= groups.len(),
    ensures
        same_model_tuples(names, groups) == level_tuples(
            lens_of(groups),
            groups.len() as int,
            min_len(groups, groups.len() as int),
        ),
        same_model_tuples(names, groups).len() == product_sum(
            lens_of(groups),
            groups.len() as int,
            min_len(groups, groups.len() as int),
        ),
{
    let m = groups.len() as int;
    let lens = lens_of(groups);
    let least = min_len(groups, m);
    let clauses = same_encoded(names, groups).clauses;
    let shown = same_model_tuples(names, groups);
    let wanted = level_tuples(lens, m, least);
    assert forall|t: Seq<Seq<bool>>| shown.contains(t) implies wanted.contains(t) by {
        let a = choose|a: Assignment| #[trigger]
            all_true(a, clauses) && group_patterns(a, names, groups) == t;
        let c = group_trues(a, names, groups, 0);
        assert forall|h: int| 0 <= h < m implies c <= (#[trigger] groups[h]).len() by {
            same_cardinality_sound(names, groups, a, h, 0);
            lemma_group_counted(a, names, groups, h);
        }
        lemma_group_counted(a, names, groups, 0);
        lemma_min_bound(groups, c, m);
        assert forall|g: int| 0 <= g < m implies (#[trigger] t[g]).len() == lens[g] && ones(
            t[g],
            lens[g] as int,
        ) == c by {
            same_cardinality_sound(names, groups, a, g, 0);
            lemma_group_table(names, groups, g);
            lemma_input_ids(group_names(names, groups, g), groups[g]);
            lemma_pattern_ones(a, group_ids(names, groups, g), groups[g].len() as int);
        }
        assert(is_tuple(lens, c, m, t));
    }
    assert forall|t: Seq<Seq<bool>>| wanted.contains(t) implies shown.contains(t) by {
        let c = choose|c: int| 0 <= c <= least && #[trigger] is_tuple(lens, c, m, t);
        let a = tuple_assignment(t, names, groups);
        assert forall|g: int| 0 <= g < m implies #[trigger] group_trues(a, names, groups, g)
            == c by {
            assert(t[g].len() == lens[g]);
            lemma_tuple_assignment(t, names, groups, g);
            lemma_pattern_ones(a, group_ids(names, groups, g), groups[g].len() as int);
        }
        let b = same_cardinality_complete(names, groups, a, c);
        assert forall|g: int| 0 <= g < m implies input_pattern(b, group_ids(names, groups, g))
            == t[g] by {
            assert(t[g].len() == lens[g]);
            lemma_tuple_assignment(t, names, groups, g);
            lemma_group_inputs_kept(b, a, names, groups, g, m);
            assert(input_pattern(b, group_ids(names, groups, g)) =~= input_pattern(
                a,
                group_ids(names, groups, g),
            ));
        }
        assert(group_patterns(b, names, groups) =~= t);
        assert(all_true(b, clauses) && group_patterns(b, names, groups) == t);
    }
    assert(shown =~= wanted);
    lemma_level_tuples_count(lens, m, least);
}

} // verus!
