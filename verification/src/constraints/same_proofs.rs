//! The meaning of the encoding of "all groups have equally many true
//! literals".

use vstd::prelude::*;
use crate::circuit::Direction;
use crate::constraints::bounds_proofs::{input_ids, known, lemma_input_ids};
use crate::constraints::cardinality::{
    counter_clauses, counter_encoded, counter_fits, counter_row, fresh, ids_after,
    lemma_ids_after_grows,
};
use crate::constraints::counter_proofs::{
    at, exact_shape, lemma_counter_row_nonzero, lemma_counter_sound, lemma_exact_shape_fits,
    lemma_shaped_agree, lemma_shaped_counter_holds, lemma_with_counter, nonzero, row_fits, row_sem,
    settable, shape_fits, shaped_counter, shaped_row, with_counter,
};
use crate::constraints::same::{
    lemma_fits_len, lemma_len_bounds, lemma_shared_fits_prefix, max_len, min_len, same_encoded,
    same_fits, shared_counters, shared_fits, tail_zeros,
};
use crate::lit::VarType;
use crate::semantics::{
    agree_below, all_true, clause_true, count_true, lemma_all_true_concat, lemma_clause1,
    lemma_count_range, lit_true, lits_below, val, var_of, Assignment,
};
use crate::varmap::{
    all_well_formed, lemma_id_of_range, lemma_with_lit_extends, lemma_with_lits_extends, lit_id,
    nones, with_lit, with_lits,
};

verus! {

/// The row that all groups are counted into.
pub open spec fn shared_row<V>(names: Seq<Option<V>>, groups: Seq<Seq<VarType<V>>>) -> Seq<int> {
    fresh(names.len() as int + 1, max_len(groups, groups.len() as int))
}

/// The table into which group `g` is numbered.
pub open spec fn group_names<V>(
    names: Seq<Option<V>>,
    groups: Seq<Seq<VarType<V>>>,
    g: int,
) -> Seq<Option<V>> {
    shared_counters(
        names + nones::<V>(max_len(groups, groups.len() as int)),
        groups,
        shared_row(names, groups),
        g,
    ).0
}

/// The solver literals of group `g`.
pub open spec fn group_ids<V>(names: Seq<Option<V>>, groups: Seq<Seq<VarType<V>>>, g: int) -> Seq<
    int,
> {
    input_ids(group_names(names, groups, g), groups[g])
}

/// How many literals of group `g` are true under `a`.
pub open spec fn group_trues<V>(
    a: Assignment,
    names: Seq<Option<V>>,
    groups: Seq<Seq<VarType<V>>>,
    g: int,
) -> int {
    count_true(a, group_ids(names, groups, g), groups[g].len() as int)
}

/// The clauses of the counter of group `g`.
pub open spec fn group_clauses<V>(
    names: Seq<Option<V>>,
    groups: Seq<Seq<VarType<V>>>,
    g: int,
) -> Seq<Seq<int>> {
    counter_encoded(
        group_names(names, groups, g),
        groups[g],
        groups[g].len() as int,
        Direction::Both,
        Some(shared_row(names, groups)),
    ).1
}

/// The clauses of the first `m` groups hold the clauses of each of them.
pub proof fn lemma_group_clauses<V>(
    a: Assignment,
    names: Seq<Option<V>>,
    groups: Seq<Seq<VarType<V>>>,
    g: int,
    m: int,
)
    requires
        0 <= g < m,
        all_true(
            a,
            shared_counters(
                names + nones::<V>(max_len(groups, groups.len() as int)),
                groups,
                shared_row(names, groups),
                m,
            ).1,
        ),
    ensures
        all_true(a, group_clauses(names, groups, g)),
    decreases m,
{
    let n1 = names + nones::<V>(max_len(groups, groups.len() as int));
    let row = shared_row(names, groups);
    let p = shared_counters(n1, groups, row, m - 1);
    let c = counter_encoded(
        p.0,
        groups[m - 1],
        groups[m - 1].len() as int,
        Direction::Both,
        Some(row),
    );
    lemma_all_true_concat(a, p.1, c.1);
    if g < m - 1 {
        lemma_group_clauses(a, names, groups, g, m - 1);
    }
}

/// In every model, the shared row counts group `g`: its output `j`, for
/// `j` below the group's length, is true exactly if more than `j` literals
/// of the group are.
pub proof fn lemma_group_counted<V>(
    a: Assignment,
    names: Seq<Option<V>>,
    groups: Seq<Seq<VarType<V>>>,
    g: int,
)
    requires
        same_fits(names, groups),
        0 <= g < groups.len(),
        all_true(a, same_encoded(names, groups).clauses),
    ensures
        row_sem(
            a,
            Direction::Both,
            shared_row(names, groups),
            group_trues(a, names, groups, g),
            groups[g].len() as int,
        ),
        1 <= groups[g].len() <= max_len(groups, groups.len() as int),
        0 <= group_trues(a, names, groups, g) <= groups[g].len(),
{
    let m = groups.len() as int;
    let width = max_len(groups, m);
    let n1 = names + nones::<V>(width);
    let row = shared_row(names, groups);
    let c = shared_counters(n1, groups, row, m);
    lemma_all_true_concat(a, tail_zeros(row, min_len(groups, m)), c.1);
    lemma_group_clauses(a, names, groups, g, m);
    lemma_shared_fits_prefix(n1, groups, row, g + 1, m);
    let gn = group_names(names, groups, g);
    let lits = groups[g];
    let n = lits.len() as int;
    lemma_len_bounds(groups, g, m);
    lemma_fits_len(gn, lits);
    lemma_input_ids(gn, lits);
    let ids = group_ids(names, groups, g);
    let base = with_lits(gn, lits).len() as int + 1;
    lemma_counter_sound(a, Direction::Both, ids, n, Some(row), base, n);
    lemma_count_range(a, ids, n);
}

/// Every model gives all groups equally many true literals.
pub proof fn same_cardinality_sound<V>(
    names: Seq<Option<V>>,
    groups: Seq<Seq<VarType<V>>>,
    a: Assignment,
    g: int,
    h: int,
)
    requires
        same_fits(names, groups),
        all_true(a, same_encoded(names, groups).clauses),
        0 <= g < groups.len(),
        0 <= h < groups.len(),
    ensures
        group_trues(a, names, groups, g) == group_trues(a, names, groups, h),
{
    lemma_no_more(names, groups, a, g, h);
    lemma_no_more(names, groups, a, h, g);
}

/// In a model, no group has more true literals than another.
pub proof fn lemma_no_more<V>(
    names: Seq<Option<V>>,
    groups: Seq<Seq<VarType<V>>>,
    a: Assignment,
    g: int,
    h: int,
)
    requires
        same_fits(names, groups),
        all_true(a, same_encoded(names, groups).clauses),
        0 <= g < groups.len(),
        0 <= h < groups.len(),
    ensures
        group_trues(a, names, groups, g) <= group_trues(a, names, groups, h),
{
    let m = groups.len() as int;
    let row = shared_row(names, groups);
    let cg = group_trues(a, names, groups, g);
    let ch = group_trues(a, names, groups, h);
    lemma_group_counted(a, names, groups, g);
    lemma_group_counted(a, names, groups, h);
    if cg > ch {
        let j = ch;
        assert(lit_true(a, row[j]));
        if j >= groups[h].len() {
            let from = min_len(groups, m);
            lemma_len_bounds(groups, h, m);
            let zeros = tail_zeros(row, from);
            let c = shared_counters(
                names + nones::<V>(max_len(groups, m)),
                groups,
                row,
                m,
            );
            lemma_all_true_concat(a, zeros, c.1);
            let t = row.len() - 1 - j;
            assert(zeros[t] == seq![-row[j]]);
            assert(clause_true(a, zeros[t]));
            lemma_clause1(a, -row[j]);
            assert(false);
        }
    }
}

/// Whether `x` is an anonymous variable of `table` numbered after `lo`.
pub open spec fn is_new<V>(table: Seq<Option<V>>, lo: int, x: int) -> bool {
    lo < x <= table.len() && table[x - 1] is None
}

/// Whether `b` differs from `a` at most on the anonymous variables of
/// `table` numbered after `lo`.
pub open spec fn only_new<V>(b: Assignment, a: Assignment, table: Seq<Option<V>>, lo: int) -> bool {
    forall|x: int| !is_new(table, lo, x) ==> #[trigger] val(b, x) == val(a, x)
}

/// The entries that numbering literals adds to a table are names.
pub proof fn lemma_with_lits_some<V>(names: Seq<Option<V>>, lits: Seq<VarType<V>>)
    ensures
        forall|i: int|
            names.len() <= i < with_lits(names, lits).len() ==> (#[trigger] with_lits(
                names,
                lits,
            )[i]) is Some,
        names.len() <= with_lits(names, lits).len(),
        with_lits(names, lits).take(names.len() as int) == names,
    decreases lits.len(),
{
    if lits.len() > 0 {
        let mid = with_lits(names, lits.drop_last());
        lemma_with_lits_some(names, lits.drop_last());
        lemma_with_lit_extends(mid, lits.last());
        let after = with_lits(names, lits);
        assert(after.take(names.len() as int) =~= mid.take(names.len() as int));
        assert forall|i: int| names.len() <= i < after.len() implies (#[trigger] after[i]) is Some by {
            if i < mid.len() {
                assert(after.take(mid.len() as int)[i] == after[i]);
                assert(mid[i] is Some);
            }
        }
    } else {
        assert(with_lits(names, lits).take(names.len() as int) =~= names);
    }
}

/// The inputs of a counter are variables of the table after them, and none
/// of them is an anonymous variable numbered after `lo`, where the unnamed
/// ones were numbered up to `lo`.
pub proof fn lemma_inputs_old<V>(table: Seq<Option<V>>, lits: Seq<VarType<V>>, lo: int)
    requires
        all_well_formed(lits),
        0 <= lo <= table.len(),
        forall|i: int|
            0 <= i < lits.len() ==> ((#[trigger] lits[i]) matches VarType::Unnamed(x) ==> 1
                <= var_of(x as int) <= lo),
    ensures
        lits_below(input_ids(table, lits), with_lits(table, lits).len() as int + 1),
        forall|i: int|
            0 <= i < lits.len() ==> !is_new(
                with_lits(table, lits),
                lo,
                var_of(#[trigger] input_ids(table, lits)[i]),
            ),
{
    let named = with_lits(table, lits);
    let ids = input_ids(table, lits);
    lemma_with_lits_extends(table, lits);
    assert forall|i: int| 0 <= i < lits.len() implies 1 <= var_of(#[trigger] ids[i]) < named.len()
        + 1 && !is_new(named, lo, var_of(ids[i])) by {
        assert(lit_id(named, lits[i]) != 0);
        match lits[i] {
            VarType::Named(l) => {
                lemma_id_of_range(named, l.spec_var());
            },
            VarType::Unnamed(x) => {},
        }
    }
}

/// The first variable that the counter of group `g` numbers for itself.
pub open spec fn group_base<V>(names: Seq<Option<V>>, groups: Seq<Seq<VarType<V>>>, g: int) -> int {
    with_lits(group_names(names, groups, g), groups[g]).len() as int + 1
}

/// How the table grows from group to group: the counter of group `g` fits
/// into the table before it, which holds the given table and the shared
/// row; the table after it holds the table before it, the names of the
/// group's literals and the counter's variables.
pub proof fn lemma_group_table<V>(names: Seq<Option<V>>, groups: Seq<Seq<VarType<V>>>, g: int)
    requires
        same_fits(names, groups),
        0 <= g < groups.len(),
    ensures
        counter_fits(
            group_names(names, groups, g),
            groups[g],
            groups[g].len() as int,
            true,
        ),
        1 <= groups[g].len() <= max_len(groups, groups.len() as int),
        group_names(names, groups, g + 1) == with_lits(group_names(names, groups, g), groups[g])
            + nones::<V>(
            ids_after(
                groups[g].len() as int,
                true,
                groups[g].len() as int,
                groups[g].len() as int,
            ),
        ),
        0 <= ids_after(
            groups[g].len() as int,
            true,
            groups[g].len() as int,
            groups[g].len() as int,
        ),
        names.len() + max_len(groups, groups.len() as int) <= group_names(names, groups, g).len(),
        group_names(names, groups, g).take(
            names.len() + max_len(groups, groups.len() as int),
        ) == names + nones::<V>(max_len(groups, groups.len() as int)),
        group_names(names, groups, g + 1).take(group_names(names, groups, g).len() as int)
            == group_names(names, groups, g),
        group_names(names, groups, g).len() <= group_names(names, groups, g + 1).len(),
    decreases g,
{
    let m = groups.len() as int;
    let width = max_len(groups, m);
    let n1 = names + nones::<V>(width);
    let row = shared_row(names, groups);
    lemma_shared_fits_prefix(n1, groups, row, g + 1, m);
    lemma_len_bounds(groups, g, m);
    let tg = group_names(names, groups, g);
    let k = groups[g].len() as int;
    lemma_fits_len(tg, groups[g]);
    lemma_ids_after_grows(k, true, k, 0, k);
    lemma_with_lits_some(tg, groups[g]);
    let named = with_lits(tg, groups[g]);
    let next = group_names(names, groups, g + 1);
    assert(next == named + nones::<V>(ids_after(k, true, k, k)));
    assert(next.take(tg.len() as int) =~= named.take(tg.len() as int));
    if g == 0 {
        assert(tg == n1);
        assert(n1.take(names.len() + width) =~= n1);
    } else {
        lemma_group_table(names, groups, g - 1);
        let before = group_names(names, groups, g - 1);
        assert(tg.take(names.len() + width) =~= tg.take(before.len() as int).take(
            names.len() + width,
        ));
    }
}

/// A later table holds every earlier one.
pub proof fn lemma_tables_grow<V>(
    names: Seq<Option<V>>,
    groups: Seq<Seq<VarType<V>>>,
    g: int,
    h: int,
)
    requires
        same_fits(names, groups),
        0 <= g <= h <= groups.len(),
    ensures
        group_names(names, groups, g).len() <= group_names(names, groups, h).len(),
        group_names(names, groups, h).take(group_names(names, groups, g).len() as int)
            == group_names(names, groups, g),
    decreases h - g,
{
    let tg = group_names(names, groups, g);
    let th = group_names(names, groups, h);
    if g == h {
        assert(th.take(tg.len() as int) =~= tg);
    } else {
        lemma_tables_grow(names, groups, g, h - 1);
        lemma_group_table(names, groups, h - 1);
        let tm = group_names(names, groups, h - 1);
        assert(th.take(tg.len() as int) =~= th.take(tm.len() as int).take(tg.len() as int));
    }
}

/// `a` with the `width` variables from `lo` on set to "the count `c` is
/// more than 0", "more than 1", and so on.
pub open spec fn with_row(a: Assignment, lo: int, width: int, c: int) -> Assignment {
    |x: int|
        if lo <= x < lo + width {
            c >= x - lo + 1
        } else {
            a(x)
        }
}

/// `a` with the shared row set to count `c`, and the variables of the
/// counters of the first `g` groups set to the values that their inputs
/// determine.
pub open spec fn counted<V>(
    a: Assignment,
    names: Seq<Option<V>>,
    groups: Seq<Seq<VarType<V>>>,
    c: int,
    g: int,
) -> Assignment
    decreases g,
{
    if g <= 0 {
        with_row(a, names.len() as int + 1, max_len(groups, groups.len() as int), c)
    } else {
        with_counter(
            counted(a, names, groups, c, g - 1),
            exact_shape(a, group_ids(names, groups, g - 1)),
            group_ids(names, groups, g - 1),
            groups[g - 1].len() as int,
            true,
            group_base(names, groups, g - 1),
        )
    }
}

/// Whether the counter of group `g` has, under `b`, the values that its
/// inputs determine under `a`.
pub open spec fn group_shaped<V>(
    b: Assignment,
    a: Assignment,
    names: Seq<Option<V>>,
    groups: Seq<Seq<VarType<V>>>,
    g: int,
) -> bool {
    shaped_counter(
        b,
        exact_shape(a, group_ids(names, groups, g)),
        group_ids(names, groups, g),
        groups[g].len() as int,
        Some(shared_row(names, groups)),
        group_base(names, groups, g),
        groups[g].len() as int,
    )
}

/// Whether the unnamed literals of every group are variables that `names`
/// holds already.
pub open spec fn all_known<V>(names: Seq<Option<V>>, groups: Seq<Seq<VarType<V>>>) -> bool {
    forall|g: int| 0 <= g < groups.len() ==> known(names, #[trigger] groups[g])
}

/// Whether every group has `c` true literals under `a`.
pub open spec fn all_count<V>(
    a: Assignment,
    names: Seq<Option<V>>,
    groups: Seq<Seq<VarType<V>>>,
    c: int,
) -> bool {
    forall|g: int| 0 <= g < groups.len() ==> #[trigger] group_trues(a, names, groups, g) == c
}

/// The inputs of group `h` keep their values under an assignment that
/// differs from `a` only on the anonymous variables of a table that holds
/// the group's names.
pub proof fn lemma_group_inputs_kept<V>(
    b: Assignment,
    a: Assignment,
    names: Seq<Option<V>>,
    groups: Seq<Seq<VarType<V>>>,
    h: int,
    g: int,
)
    requires
        same_fits(names, groups),
        all_known(names, groups),
        0 <= h < groups.len(),
        h < g <= groups.len(),
        only_new(b, a, group_names(names, groups, g), names.len() as int),
    ensures
        forall|i: int|
            0 <= i < groups[h].len() ==> lit_true(b, #[trigger] group_ids(names, groups, h)[i])
                == lit_true(a, group_ids(names, groups, h)[i]),
        lits_below(group_ids(names, groups, h), group_base(names, groups, h)),
{
    let th = group_names(names, groups, h);
    let tg = group_names(names, groups, g);
    let lits = groups[h];
    let named = with_lits(th, lits);
    let ids = group_ids(names, groups, h);
    lemma_group_table(names, groups, h);
    lemma_tables_grow(names, groups, h + 1, g);
    let next = group_names(names, groups, h + 1);
    assert(known(names, groups[h]));
    lemma_inputs_old(th, lits, names.len() as int);
    assert forall|i: int| 0 <= i < lits.len() implies lit_true(b, #[trigger] ids[i]) == lit_true(
        a,
        ids[i],
    ) by {
        let x = var_of(ids[i]);
        assert(!is_new(named, names.len() as int, x));
        assert(1 <= x < named.len() + 1);
        assert(next[x - 1] == named[x - 1]);
        assert(tg.take(next.len() as int)[x - 1] == tg[x - 1]);
        assert(!is_new(tg, names.len() as int, x));
        assert(val(b, x) == val(a, x));
    }
}

/// Whether the variables of the shared row stand for the count `c` under
/// `b`.
pub open spec fn row_counts<V>(
    b: Assignment,
    names: Seq<Option<V>>,
    groups: Seq<Seq<VarType<V>>>,
    c: int,
) -> bool {
    forall|x: int|
        names.len() + 1 <= x < names.len() + 1 + max_len(groups, groups.len() as int)
            ==> #[trigger] val(b, x) == (c >= x - (names.len() + 1) + 1)
}

/// The shared row uses variables below `bound` only.
pub proof fn lemma_row_below<V>(names: Seq<Option<V>>, groups: Seq<Seq<VarType<V>>>, bound: int)
    requires
        names.len() + max_len(groups, groups.len() as int) < bound,
    ensures
        lits_below(shared_row(names, groups), bound),
        forall|j: int|
            0 <= j < max_len(groups, groups.len() as int) ==> #[trigger] shared_row(
                names,
                groups,
            )[j] == names.len() + 1 + j,
{
    let row = shared_row(names, groups);
    assert forall|j: int| 0 <= j < row.len() implies 1 <= var_of(#[trigger] row[j]) < bound by {
        assert(row[j] == names.len() + 1 + j);
    }
}

/// The counter of group `h` can be set once the shared row stands for the
/// common count.
pub proof fn lemma_step_settable<V>(
    a: Assignment,
    b0: Assignment,
    names: Seq<Option<V>>,
    groups: Seq<Seq<VarType<V>>>,
    c: int,
    h: int,
)
    requires
        same_fits(names, groups),
        all_known(names, groups),
        0 <= h < groups.len(),
        group_trues(a, names, groups, h) == c,
        row_counts(b0, names, groups, c),
    ensures
        settable(
            b0,
            exact_shape(a, group_ids(names, groups, h)),
            group_ids(names, groups, h),
            groups[h].len() as int,
            Some(shared_row(names, groups)),
            group_base(names, groups, h),
        ),
{
    let row = shared_row(names, groups);
    let lo = names.len() as int + 1;
    lemma_group_table(names, groups, h);
    let th = group_names(names, groups, h);
    let lits = groups[h];
    let k = lits.len() as int;
    let ids = group_ids(names, groups, h);
    let base = group_base(names, groups, h);
    let t = exact_shape(a, ids);
    assert(known(names, groups[h]));
    lemma_inputs_old(th, lits, names.len() as int);
    lemma_with_lits_extends(th, lits);
    lemma_row_below(names, groups, base);
    assert forall|j: int| 0 <= j < k implies lit_true(b0, #[trigger] row[j]) == at(t, k, j) by {
        assert(row[j] == lo + j);
        assert(val(b0, lo + j) == (c >= (lo + j) - lo + 1));
    }
}

/// Setting the counter of group `h` changes only anonymous variables of
/// the table after the group.
pub proof fn lemma_step_only_new<V>(
    a: Assignment,
    b0: Assignment,
    b: Assignment,
    names: Seq<Option<V>>,
    groups: Seq<Seq<VarType<V>>>,
    h: int,
)
    requires
        same_fits(names, groups),
        0 <= h < groups.len(),
        only_new(b0, a, group_names(names, groups, h), names.len() as int),
        forall|x: int|
            x < group_base(names, groups, h) || x >= group_base(names, groups, h) + ids_after(
                groups[h].len() as int,
                true,
                groups[h].len() as int,
                groups[h].len() as int,
            ) ==> #[trigger] val(b, x) == val(b0, x),
    ensures
        only_new(b, a, group_names(names, groups, h + 1), names.len() as int),
{
    lemma_group_table(names, groups, h);
    let th = group_names(names, groups, h);
    let tg = group_names(names, groups, h + 1);
    let k = groups[h].len() as int;
    let base = group_base(names, groups, h);
    let grown = ids_after(k, true, k, k);
    let named = with_lits(th, groups[h]);
    lemma_with_lits_extends(th, groups[h]);
    assert(tg == named + nones::<V>(grown));
    assert forall|x: int| !is_new(tg, names.len() as int, x) implies #[trigger] val(b, x) == val(
        a,
        x,
    ) by {
        if base <= x < base + grown {
            assert(tg[x - 1] is None);
        }
        assert(val(b, x) == val(b0, x));
        if is_new(th, names.len() as int, x) {
            assert(tg.take(th.len() as int)[x - 1] == tg[x - 1]);
        }
        assert(val(b0, x) == val(a, x));
    }
}

/// The counter of an earlier group `e` keeps its values when the counter
/// of group `h` is set.
pub proof fn lemma_step_shaped_kept<V>(
    a: Assignment,
    b0: Assignment,
    b: Assignment,
    names: Seq<Option<V>>,
    groups: Seq<Seq<VarType<V>>>,
    e: int,
    h: int,
)
    requires
        same_fits(names, groups),
        all_known(names, groups),
        0 <= e < h < groups.len(),
        group_shaped(b0, a, names, groups, e),
        agree_below(b0, b, group_base(names, groups, h)),
    ensures
        group_shaped(b, a, names, groups, e),
{
    let row = shared_row(names, groups);
    lemma_group_table(names, groups, e);
    lemma_group_table(names, groups, h);
    lemma_tables_grow(names, groups, e + 1, h);
    assert(known(names, groups[e]));
    lemma_inputs_old(group_names(names, groups, e), groups[e], names.len() as int);
    lemma_with_lits_extends(group_names(names, groups, e), groups[e]);
    lemma_with_lits_extends(group_names(names, groups, h), groups[h]);
    let ke = groups[e].len() as int;
    let be = group_base(names, groups, e);
    assert(be + ids_after(ke, true, ke, ke) == group_names(names, groups, e + 1).len() + 1);
    assert(agree_below(b0, b, be + ids_after(ke, true, ke, ke)));
    lemma_row_below(names, groups, be);
    lemma_shaped_agree(
        b0,
        b,
        exact_shape(a, group_ids(names, groups, e)),
        group_ids(names, groups, e),
        ke,
        Some(row),
        be,
        ke,
    );
}

/// What holds after the shared row and the counters of the first `g`
/// groups were set: only anonymous variables of the encoding changed, the
/// shared row stands for the count `c`, and every counter so far has the
/// values that its inputs determine.
pub proof fn lemma_counted<V>(
    a: Assignment,
    names: Seq<Option<V>>,
    groups: Seq<Seq<VarType<V>>>,
    c: int,
    g: int,
)
    requires
        same_fits(names, groups),
        all_known(names, groups),
        all_count(a, names, groups, c),
        0 <= g <= groups.len(),
        1 <= groups.len(),
    ensures
        only_new(
            counted(a, names, groups, c, g),
            a,
            group_names(names, groups, g),
            names.len() as int,
        ),
        forall|h: int|
            0 <= h < g ==> #[trigger] group_shaped(
                counted(a, names, groups, c, g),
                a,
                names,
                groups,
                h,
            ),
        row_counts(counted(a, names, groups, c, g), names, groups, c),
    decreases g,
{
    let m = groups.len() as int;
    let width = max_len(groups, m);
    let lo = names.len() as int + 1;
    let b = counted(a, names, groups, c, g);
    if g == 0 {
        let t0 = group_names(names, groups, 0);
        assert(t0 == names + nones::<V>(width));
        assert forall|x: int| !is_new(t0, names.len() as int, x) implies #[trigger] val(b, x)
            == val(a, x) by {
            if lo <= x < lo + width {
                assert(t0[x - 1] is None);
            }
        }
    } else {
        let h = g - 1;
        let b0 = counted(a, names, groups, c, h);
        lemma_counted(a, names, groups, c, h);
        assert(group_trues(a, names, groups, h) == c);
        lemma_step_settable(a, b0, names, groups, c, h);
        let k = groups[h].len() as int;
        let ids = group_ids(names, groups, h);
        let base = group_base(names, groups, h);
        let t = exact_shape(a, ids);
        lemma_with_counter(b0, t, ids, k, Some(shared_row(names, groups)), base);
        lemma_step_only_new(a, b0, b, names, groups, h);
        assert(group_shaped(b, a, names, groups, h));
        assert(agree_below(b0, b, base));
        assert forall|e: int| 0 <= e < g implies #[trigger] group_shaped(
            b,
            a,
            names,
            groups,
            e,
        ) by {
            if e < h {
                assert(group_shaped(b0, a, names, groups, e));
                lemma_step_shaped_kept(a, b0, b, names, groups, e, h);
            }
        }
        lemma_group_table(names, groups, h);
        lemma_with_lits_extends(group_names(names, groups, h), groups[h]);
        assert forall|x: int| lo <= x < lo + width implies #[trigger] val(b, x) == (c >= x - lo
            + 1) by {
            assert(val(b, x) == val(b0, x));
        }
    }
}

/// What setting all counters gives for group `h`: its clauses are true, it
/// has as many true literals as before, and no more than it has literals.
pub proof fn lemma_group_done<V>(
    a: Assignment,
    names: Seq<Option<V>>,
    groups: Seq<Seq<VarType<V>>>,
    c: int,
    h: int,
)
    requires
        same_fits(names, groups),
        all_known(names, groups),
        all_count(a, names, groups, c),
        0 <= h < groups.len(),
    ensures
        all_true(
            counted(a, names, groups, c, groups.len() as int),
            group_clauses(names, groups, h),
        ),
        group_trues(counted(a, names, groups, c, groups.len() as int), names, groups, h) == c,
        c <= groups[h].len(),
{
    let m = groups.len() as int;
    let lo = names.len() as int + 1;
    let row = shared_row(names, groups);
    let b = counted(a, names, groups, c, m);
    lemma_counted(a, names, groups, c, m);
    let lits = groups[h];
    let k = lits.len() as int;
    let ids = group_ids(names, groups, h);
    let base = group_base(names, groups, h);
    let t = exact_shape(a, ids);
    assert(group_shaped(b, a, names, groups, h));
    lemma_group_table(names, groups, h);
    lemma_group_inputs_kept(b, a, names, groups, h, m);
    lemma_input_ids(group_names(names, groups, h), lits);
    lemma_exact_shape_fits(a, Direction::Both, ids, k, k);
    assert(shape_fits(b, Direction::Both, t, ids, k, k)) by {
        assert forall|r: int| 1 <= r <= k implies #[trigger] row_fits(
            Direction::Both,
            t,
            lit_true(b, ids[r - 1]),
            r,
            k,
        ) by {
            assert(lit_true(b, ids[r - 1]) == lit_true(a, ids[r - 1]));
            assert(row_fits(Direction::Both, t, lit_true(a, ids[r - 1]), r, k));
        }
    }
    lemma_with_lits_extends(group_names(names, groups, h), lits);
    lemma_row_below(names, groups, base);
    assert(nonzero(row, k)) by {
        assert forall|j: int| 0 <= j < k implies #[trigger] row[j] != 0 by {
            assert(row[j] == lo + j);
        }
    }
    lemma_shaped_counter_holds(b, Direction::Both, t, ids, k, Some(row), base, k);
    crate::constraints::bounds_proofs::lemma_same_count(a, b, ids, k);
    assert(group_trues(a, names, groups, h) == c);
    lemma_count_range(a, ids, k);
}

/// Where the clauses of every one of the first `g` groups are true, so are
/// the clauses of all of them together.
pub proof fn lemma_groups_join<V>(
    b: Assignment,
    names: Seq<Option<V>>,
    groups: Seq<Seq<VarType<V>>>,
    g: int,
)
    requires
        0 <= g,
        forall|h: int| 0 <= h < g ==> all_true(b, #[trigger] group_clauses(names, groups, h)),
    ensures
        all_true(
            b,
            shared_counters(
                names + nones::<V>(max_len(groups, groups.len() as int)),
                groups,
                shared_row(names, groups),
                g,
            ).1,
        ),
    decreases g,
{
    if g > 0 {
        lemma_groups_join(b, names, groups, g - 1);
        let n1 = names + nones::<V>(max_len(groups, groups.len() as int));
        let row = shared_row(names, groups);
        let p = shared_counters(n1, groups, row, g - 1);
        assert(all_true(b, group_clauses(names, groups, g - 1)));
        lemma_all_true_concat(b, p.1, group_clauses(names, groups, g - 1));
    }
}

/// A count that no group's length falls short of is at most the shortest
/// length.
pub proof fn lemma_min_bound<V>(groups: Seq<Seq<VarType<V>>>, c: int, g: int)
    requires
        1 <= g <= groups.len(),
        forall|h: int| 0 <= h < g ==> c <= (#[trigger] groups[h]).len(),
    ensures
        c <= min_len(groups, g),
    decreases g,
{
    if g > 1 {
        lemma_min_bound(groups, c, g - 1);
    }
}

/// Every assignment that gives all groups equally many true literals
/// extends to a model: one that differs from it only on the anonymous
/// variables that the encoding numbers, and so leaves every input as it
/// was.
pub proof fn same_cardinality_complete<V>(
    names: Seq<Option<V>>,
    groups: Seq<Seq<VarType<V>>>,
    a: Assignment,
    c: int,
) -> (b: Assignment)
    requires
        same_fits(names, groups),
        all_known(names, groups),
        all_count(a, names, groups, c),
    ensures
        only_new(b, a, same_encoded(names, groups).names, names.len() as int),
        all_count(b, names, groups, c),
        all_true(b, same_encoded(names, groups).clauses),
{
    let m = groups.len() as int;
    if m == 0 {
        a
    } else {
        let width = max_len(groups, m);
        let lo = names.len() as int + 1;
        let row = shared_row(names, groups);
        let b = counted(a, names, groups, c, m);
        lemma_counted(a, names, groups, c, m);
        assert forall|h: int| 0 <= h < m implies all_true(
            b,
            #[trigger] group_clauses(names, groups, h),
        ) by {
            lemma_group_done(a, names, groups, c, h);
        }
        assert forall|h: int| 0 <= h < m implies #[trigger] group_trues(b, names, groups, h)
            == c by {
            lemma_group_done(a, names, groups, c, h);
        }
        assert forall|h: int| 0 <= h < m implies c <= (#[trigger] groups[h]).len() by {
            lemma_group_done(a, names, groups, c, h);
        }
        lemma_groups_join(b, names, groups, m);
        lemma_min_bound(groups, c, m);
        let from = min_len(groups, m);
        let zeros = tail_zeros(row, from);
        lemma_len_bounds(groups, 0, m);
        assert forall|t: int| 0 <= t < zeros.len() implies clause_true(b, #[trigger] zeros[t]) by {
            let j = row.len() - 1 - t;
            assert(row[j] == lo + j);
            assert(val(b, lo + j) == (c >= (lo + j) - lo + 1));
            lemma_clause1(b, -row[j]);
        }
        lemma_all_true_concat(
            b,
            zeros,
            shared_counters(names + nones::<V>(width), groups, row, m).1,
        );
        b
    }
}

} // verus!
