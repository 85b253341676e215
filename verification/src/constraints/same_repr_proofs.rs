//! The meaning of the reification of "all groups have equally many true
//! literals".

use vstd::prelude::*;
use crate::circuit::{negs, only_if, pair_clauses, Direction};
use crate::constraints::bounds_proofs::{input_ids, known, lemma_input_ids, lemma_same_count};
use crate::constraints::cardinality::{
    counter_encoded, counter_fits, fresh, ids_after, lemma_ids_after_grows,
};
use crate::constraints::counter_proofs::{
    at, exact_shape, lemma_counter_sound, lemma_exact_shape_fits, lemma_shaped_agree,
    lemma_shaped_counter_holds, lemma_with_counter, nonzero, row_fits, row_sem, settable,
    shape_fits, shaped_counter, shaped_row, with_counter,
};
use crate::constraints::same::{
    chain_clauses, column, equiv_clauses, equivs, lemma_fits_len, lemma_len_bounds,
    lemma_own_fits_prefix, max_len, own_counters, own_fits, same_repr_encoded, same_repr_fits,
    tail_zeros,
};
use crate::constraints::same_proofs::{
    all_known, is_new, lemma_inputs_old, lemma_with_lits_some, only_new, with_row,
};
use crate::constraints::util::{repr_lit, repr_names};
use crate::lit::VarType;
use crate::semantics::{
    agree_below, all_true, clause_true, count_true, lemma_all_true_concat, lemma_all_true_one,
    lemma_all_true_push, lemma_clause1, lemma_clause2, lemma_clause3, lemma_clause_push,
    lemma_count_range, lit_true, lits_below, none_true, val, var_of, with_value, Assignment,
};
use crate::varmap::{lemma_with_lits_extends, nones, with_lits};

verus! {

/// The length of the rows: that of the longest group.
pub open spec fn width_of<V>(groups: Seq<Seq<VarType<V>>>) -> int {
    max_len(groups, groups.len() as int)
}

/// The table before group `g` gets its row.
pub open spec fn own_table<V>(start: Seq<Option<V>>, groups: Seq<Seq<VarType<V>>>, g: int) -> Seq<
    Option<V>,
> {
    own_counters(start, groups, width_of(groups), g).0
}

/// The row of group `g`.
pub open spec fn own_row<V>(start: Seq<Option<V>>, groups: Seq<Seq<VarType<V>>>, g: int) -> Seq<
    int,
> {
    fresh(own_table(start, groups, g).len() as int + 1, width_of(groups))
}

/// The table into which group `g` is numbered: the one before it, and its
/// row.
pub open spec fn own_inner<V>(start: Seq<Option<V>>, groups: Seq<Seq<VarType<V>>>, g: int) -> Seq<
    Option<V>,
> {
    own_table(start, groups, g) + nones::<V>(width_of(groups))
}

/// The solver literals of group `g`.
pub open spec fn own_ids<V>(start: Seq<Option<V>>, groups: Seq<Seq<VarType<V>>>, g: int) -> Seq<
    int,
> {
    input_ids(own_inner(start, groups, g), groups[g])
}

/// The first variable that the counter of group `g` numbers for itself.
pub open spec fn own_base<V>(start: Seq<Option<V>>, groups: Seq<Seq<VarType<V>>>, g: int) -> int {
    with_lits(own_inner(start, groups, g), groups[g]).len() as int + 1
}

/// How many literals of group `g` are true under `a`.
pub open spec fn own_trues<V>(
    a: Assignment,
    start: Seq<Option<V>>,
    groups: Seq<Seq<VarType<V>>>,
    g: int,
) -> int {
    count_true(a, own_ids(start, groups, g), groups[g].len() as int)
}

/// The clauses of the counter of group `g`.
pub open spec fn own_counter_clauses<V>(
    start: Seq<Option<V>>,
    groups: Seq<Seq<VarType<V>>>,
    g: int,
) -> Seq<Seq<int>> {
    counter_encoded(
        own_inner(start, groups, g),
        groups[g],
        groups[g].len() as int,
        Direction::Both,
        Some(own_row(start, groups, g)),
    ).1
}

/// How the table grows from group to group.
pub proof fn lemma_own_table<V>(start: Seq<Option<V>>, groups: Seq<Seq<VarType<V>>>, g: int)
    requires
        own_fits(start, groups, width_of(groups), groups.len() as int),
        0 <= g < groups.len(),
    ensures
        counter_fits(own_inner(start, groups, g), groups[g], groups[g].len() as int, true),
        1 <= groups[g].len() <= width_of(groups),
        own_table(start, groups, g).len() + width_of(groups) < i32::MAX,
        own_table(start, groups, g + 1) == with_lits(own_inner(start, groups, g), groups[g])
            + nones::<V>(
            ids_after(
                groups[g].len() as int,
                true,
                groups[g].len() as int,
                groups[g].len() as int,
            ),
        ),
        0 <= ids_after(
            groups[g].len() as int,
            true,
            groups[g].len() as int,
            groups[g].len() as int,
        ),
        own_inner(start, groups, g).len() <= with_lits(own_inner(start, groups, g), groups[g]).len(),
        own_table(start, groups, g + 1).take(own_table(start, groups, g).len() as int)
            == own_table(start, groups, g),
        own_table(start, groups, g + 1).take(own_inner(start, groups, g).len() as int)
            == own_inner(start, groups, g),
        own_table(start, groups, g).len() <= own_table(start, groups, g + 1).len(),
        own_counters(start, groups, width_of(groups), g + 1).1 == own_counters(
            start,
            groups,
            width_of(groups),
            g,
        ).1 + tail_zeros(own_row(start, groups, g), groups[g].len() as int) + own_counter_clauses(
            start,
            groups,
            g,
        ),
        own_counters(start, groups, width_of(groups), g + 1).2 == own_counters(
            start,
            groups,
            width_of(groups),
            g,
        ).2.push(own_row(start, groups, g)),
{
    let m = groups.len() as int;
    let width = width_of(groups);
    lemma_own_fits_prefix(start, groups, width, g + 1, m);
    lemma_len_bounds(groups, g, m);
    let tg = own_table(start, groups, g);
    let inner = own_inner(start, groups, g);
    let k = groups[g].len() as int;
    lemma_fits_len(inner, groups[g]);
    lemma_ids_after_grows(k, true, k, 0, k);
    lemma_with_lits_some(inner, groups[g]);
    let named = with_lits(inner, groups[g]);
    let next = own_table(start, groups, g + 1);
    assert(next == named + nones::<V>(ids_after(k, true, k, k)));
    assert(next.take(inner.len() as int) =~= named.take(inner.len() as int));
    assert(next.take(tg.len() as int) =~= inner.take(tg.len() as int));
    assert(inner.take(tg.len() as int) =~= tg);
}

/// A later table holds every earlier one, and the table given at the
/// start.
pub proof fn lemma_own_tables_grow<V>(
    start: Seq<Option<V>>,
    groups: Seq<Seq<VarType<V>>>,
    g: int,
    h: int,
)
    requires
        own_fits(start, groups, width_of(groups), groups.len() as int),
        0 <= g <= h <= groups.len(),
    ensures
        own_table(start, groups, g).len() <= own_table(start, groups, h).len(),
        own_table(start, groups, h).take(own_table(start, groups, g).len() as int) == own_table(
            start,
            groups,
            g,
        ),
        own_table(start, groups, 0) == start,
    decreases h - g,
{
    let tg = own_table(start, groups, g);
    let th = own_table(start, groups, h);
    if g == h {
        assert(th.take(tg.len() as int) =~= tg);
    } else {
        lemma_own_tables_grow(start, groups, g, h - 1);
        lemma_own_table(start, groups, h - 1);
        let tm = own_table(start, groups, h - 1);
        assert(th.take(tg.len() as int) =~= th.take(tm.len() as int).take(tg.len() as int));
    }
}

/// The rows collected over the first `m` groups are the groups' rows.
pub proof fn lemma_own_rows<V>(start: Seq<Option<V>>, groups: Seq<Seq<VarType<V>>>, g: int, m: int)
    requires
        own_fits(start, groups, width_of(groups), groups.len() as int),
        0 <= g < m <= groups.len(),
    ensures
        own_counters(start, groups, width_of(groups), m).2.len() == m,
        own_counters(start, groups, width_of(groups), m).2[g] == own_row(start, groups, g),
    decreases m,
{
    lemma_own_table(start, groups, m - 1);
    if m >= 2 {
        lemma_own_rows(start, groups, 0, m - 1);
    }
    if g < m - 1 {
        lemma_own_rows(start, groups, g, m - 1);
    }
}

/// The clauses of the first `m` groups hold the clauses of each of them.
pub proof fn lemma_own_clauses<V>(
    a: Assignment,
    start: Seq<Option<V>>,
    groups: Seq<Seq<VarType<V>>>,
    g: int,
    m: int,
)
    requires
        own_fits(start, groups, width_of(groups), groups.len() as int),
        0 <= g < m <= groups.len(),
        all_true(a, own_counters(start, groups, width_of(groups), m).1),
    ensures
        all_true(a, tail_zeros(own_row(start, groups, g), groups[g].len() as int)),
        all_true(a, own_counter_clauses(start, groups, g)),
    decreases m,
{
    lemma_own_table(start, groups, m - 1);
    let p = own_counters(start, groups, width_of(groups), m - 1);
    let z = tail_zeros(own_row(start, groups, m - 1), groups[m - 1].len() as int);
    let c = own_counter_clauses(start, groups, m - 1);
    lemma_all_true_concat(a, p.1 + z, c);
    lemma_all_true_concat(a, p.1, z);
    if g < m - 1 {
        lemma_own_clauses(a, start, groups, g, m - 1);
    }
}

/// Clauses of every group that are true make the clauses of all groups
/// true.
pub proof fn lemma_own_clauses_join<V>(
    a: Assignment,
    start: Seq<Option<V>>,
    groups: Seq<Seq<VarType<V>>>,
    m: int,
)
    requires
        own_fits(start, groups, width_of(groups), groups.len() as int),
        0 <= m <= groups.len(),
        forall|g: int|
            0 <= g < m ==> all_true(
                a,
                #[trigger] tail_zeros(own_row(start, groups, g), groups[g].len() as int),
            ),
        forall|g: int| 0 <= g < m ==> all_true(a, #[trigger] own_counter_clauses(start, groups, g)),
    ensures
        all_true(a, own_counters(start, groups, width_of(groups), m).1),
    decreases m,
{
    if m > 0 {
        lemma_own_clauses_join(a, start, groups, m - 1);
        lemma_own_table(start, groups, m - 1);
        let p = own_counters(start, groups, width_of(groups), m - 1);
        let z = tail_zeros(own_row(start, groups, m - 1), groups[m - 1].len() as int);
        let c = own_counter_clauses(start, groups, m - 1);
        assert(all_true(a, z));
        assert(all_true(a, c));
        lemma_all_true_concat(a, p.1, z);
        lemma_all_true_concat(a, p.1 + z, c);
    }
}

/// Whether output `j` of the row of group `g` is true exactly if more than
/// `j` literals of the group are, for every `j`.
pub open spec fn row_exact<V>(
    a: Assignment,
    start: Seq<Option<V>>,
    groups: Seq<Seq<VarType<V>>>,
    g: int,
) -> bool {
    forall|j: int|
        0 <= j < width_of(groups) ==> lit_true(a, #[trigger] own_row(start, groups, g)[j]) == (
        own_trues(a, start, groups, g) >= j + 1)
}

/// In every model, the row of each group counts the group.
pub proof fn lemma_own_counted<V>(
    a: Assignment,
    start: Seq<Option<V>>,
    groups: Seq<Seq<VarType<V>>>,
    g: int,
)
    requires
        own_fits(start, groups, width_of(groups), groups.len() as int),
        0 <= g < groups.len(),
        all_true(a, own_counters(start, groups, width_of(groups), groups.len() as int).1),
    ensures
        row_exact(a, start, groups, g),
        0 <= own_trues(a, start, groups, g) <= groups[g].len() <= width_of(groups),
{
    let m = groups.len() as int;
    let width = width_of(groups);
    lemma_own_clauses(a, start, groups, g, m);
    lemma_own_table(start, groups, g);
    let inner = own_inner(start, groups, g);
    let lits = groups[g];
    let k = lits.len() as int;
    let row = own_row(start, groups, g);
    let ids = own_ids(start, groups, g);
    let base = own_base(start, groups, g);
    lemma_input_ids(inner, lits);
    assert(nonzero(row, k)) by {
        assert forall|j: int| 0 <= j < k implies #[trigger] row[j] != 0 by {
            assert(row[j] == own_table(start, groups, g).len() + 1 + j);
        }
    }
    lemma_counter_sound(a, Direction::Both, ids, k, Some(row), base, k);
    lemma_count_range(a, ids, k);
    let zeros = tail_zeros(row, k);
    assert forall|j: int| 0 <= j < width implies lit_true(a, #[trigger] row[j]) == (own_trues(
        a,
        start,
        groups,
        g,
    ) >= j + 1) by {
        assert(row[j] == own_table(start, groups, g).len() + 1 + j);
        if j >= k {
            let t = width - 1 - j;
            assert(zeros[t] == seq![-row[j]]);
            assert(clause_true(a, zeros[t]));
            lemma_clause1(a, -row[j]);
        }
    }
}

/// Whether output `i` has the same value in every row.
pub open spec fn agrees(a: Assignment, rows: Seq<Seq<int>>, i: int) -> bool {
    forall|g: int| 0 <= g < rows.len() ==> lit_true(a, #[trigger] rows[g][i]) == lit_true(
        a,
        rows[0][i],
    )
}

/// Whether output `i` of every row is a nonzero literal.
pub open spec fn column_ok(rows: Seq<Seq<int>>, i: int) -> bool {
    forall|g: int| 0 <= g < rows.len() ==> 0 <= i < (#[trigger] rows[g]).len() && rows[g][i] != 0
}

/// Where each row's output forces the next row's, the first row's output
/// forces every row's.
pub proof fn lemma_chain_up(a: Assignment, rows: Seq<Seq<int>>, i: int, g: int)
    requires
        0 <= g < rows.len(),
        forall|w: int|
            0 <= w < rows.len() - 1 ==> (lit_true(a, #[trigger] rows[w][i]) ==> lit_true(
                a,
                rows[w + 1][i],
            )),
        lit_true(a, rows[0][i]),
    ensures
        lit_true(a, rows[g][i]),
    decreases g,
{
    if g > 0 {
        lemma_chain_up(a, rows, i, g - 1);
        assert(lit_true(a, rows[g - 1][i]) ==> lit_true(a, rows[g - 1 + 1][i]));
    }
}

/// Where each row's output forces the next row's, every row's output
/// forces the last row's.
pub proof fn lemma_chain_down(a: Assignment, rows: Seq<Seq<int>>, i: int, g: int)
    requires
        0 <= g < rows.len(),
        forall|w: int|
            0 <= w < rows.len() - 1 ==> (lit_true(a, #[trigger] rows[w][i]) ==> lit_true(
                a,
                rows[w + 1][i],
            )),
        lit_true(a, rows[g][i]),
    ensures
        lit_true(a, rows[rows.len() - 1][i]),
    decreases rows.len() - g,
{
    if g < rows.len() - 1 {
        assert(lit_true(a, rows[g][i]) ==> lit_true(a, rows[g + 1][i]));
        lemma_chain_down(a, rows, i, g + 1);
    }
}

/// What the chain clauses say: where `e` is true, output `i` agrees over
/// all rows.
pub proof fn lemma_chain(a: Assignment, rows: Seq<Seq<int>>, i: int, e: int)
    requires
        1 <= rows.len(),
        column_ok(rows, i),
        e != 0,
    ensures
        all_true(a, chain_clauses(rows, i, e)) == (lit_true(a, e) ==> agrees(a, rows, i)),
{
    let m = rows.len() as int;
    let cs = chain_clauses(rows, i, e);
    let links = Seq::new((m - 1) as nat, |w: int| seq![-rows[w][i], rows[w + 1][i], -e]);
    let last = seq![-rows[m - 1][i], rows[0][i], -e];
    lemma_all_true_push(a, links, last);
    lemma_clause3(a, -rows[m - 1][i], rows[0][i], -e);
    assert(rows[m - 1][i] != 0 && rows[0][i] != 0);
    if all_true(a, cs) && lit_true(a, e) {
        assert forall|w: int| 0 <= w < m - 1 implies (lit_true(a, #[trigger] rows[w][i])
            ==> lit_true(a, rows[w + 1][i])) by {
            assert(clause_true(a, links[w]));
            lemma_clause3(a, -rows[w][i], rows[w + 1][i], -e);
            assert(rows[w][i] != 0 && rows[w + 1][i] != 0);
        }
        assert forall|g: int| 0 <= g < m implies lit_true(a, #[trigger] rows[g][i]) == lit_true(
            a,
            rows[0][i],
        ) by {
            if lit_true(a, rows[0][i]) {
                lemma_chain_up(a, rows, i, g);
            }
            if lit_true(a, rows[g][i]) {
                lemma_chain_down(a, rows, i, g);
            }
        }
    }
    if lit_true(a, e) ==> agrees(a, rows, i) {
        assert forall|w: int| 0 <= w < links.len() implies clause_true(a, #[trigger] links[w]) by {
            lemma_clause3(a, -rows[w][i], rows[w + 1][i], -e);
            assert(rows[w][i] != 0 && rows[w + 1][i] != 0);
            if lit_true(a, e) {
                assert(lit_true(a, rows[w][i]) == lit_true(a, rows[0][i]));
                assert(lit_true(a, rows[w + 1][i]) == lit_true(a, rows[0][i]));
            }
        }
        if lit_true(a, e) {
            assert(lit_true(a, rows[m - 1][i]) == lit_true(a, rows[0][i]));
        }
    }
}

/// What the clauses that define an agreement variable say: `e` is true
/// where output `i` agrees over all rows, and, where `equal`, only there.
pub proof fn lemma_equiv(a: Assignment, rows: Seq<Seq<int>>, i: int, e: int, equal: bool)
    requires
        1 <= rows.len(),
        column_ok(rows, i),
        e != 0,
    ensures
        all_true(a, equiv_clauses(rows, i, e, equal)) == ((agrees(a, rows, i) ==> lit_true(a, e))
            && (equal ==> (lit_true(a, e) ==> agrees(a, rows, i)))),
{
    let col = column(rows, i);
    let c1 = col.push(e);
    let c2 = negs(col).push(e);
    let chain = only_if(equal, chain_clauses(rows, i, e));
    lemma_all_true_concat(a, seq![c1, c2], chain);
    assert(seq![c1, c2] =~= seq![c1] + seq![c2]);
    lemma_all_true_concat(a, seq![c1], seq![c2]);
    lemma_all_true_one(a, c1);
    lemma_all_true_one(a, c2);
    lemma_clause_push(a, col, e);
    lemma_clause_push(a, negs(col), e);
    lemma_chain(a, rows, i, e);
    assert(rows[0][i] != 0);
    if agrees(a, rows, i) {
        if lit_true(a, rows[0][i]) {
            assert forall|g: int| 0 <= g < negs(col).len() implies !lit_true(
                a,
                #[trigger] negs(col)[g],
            ) by {
                assert(lit_true(a, rows[g][i]));
                assert(rows[g][i] != 0);
            }
        } else {
            assert forall|g: int| 0 <= g < col.len() implies !lit_true(a, #[trigger] col[g]) by {
                assert(!lit_true(a, rows[g][i]));
            }
        }
    }
    if none_true(a, col) {
        assert forall|g: int| 0 <= g < rows.len() implies lit_true(a, #[trigger] rows[g][i])
            == lit_true(a, rows[0][i]) by {
            assert(!lit_true(a, col[g]));
            assert(!lit_true(a, col[0]));
        }
    }
    if none_true(a, negs(col)) {
        assert forall|g: int| 0 <= g < rows.len() implies lit_true(a, #[trigger] rows[g][i])
            == lit_true(a, rows[0][i]) by {
            assert(!lit_true(a, negs(col)[g]));
            assert(!lit_true(a, negs(col)[0]));
            assert(rows[g][i] != 0);
        }
    }
}

/// The clauses that define the agreement variables are true exactly if
/// those of each output are.
pub proof fn lemma_equivs(a: Assignment, rows: Seq<Seq<int>>, base: int, equal: bool, n: int)
    requires
        0 <= n,
    ensures
        all_true(a, equivs(rows, base, equal, n)) == (forall|i: int|
            0 <= i < n ==> all_true(a, #[trigger] equiv_clauses(rows, i, base + i, equal))),
    decreases n,
{
    if n > 0 {
        lemma_equivs(a, rows, base, equal, n - 1);
        lemma_all_true_concat(
            a,
            equivs(rows, base, equal, n - 1),
            equiv_clauses(rows, n - 1, base + n - 1, equal),
        );
        if all_true(a, equivs(rows, base, equal, n)) {
            assert forall|i: int| 0 <= i < n implies all_true(
                a,
                #[trigger] equiv_clauses(rows, i, base + i, equal),
            ) by {
                if i == n - 1 {
                    assert(base + i == base + n - 1);
                }
            }
        }
        if forall|i: int|
            0 <= i < n ==> all_true(a, #[trigger] equiv_clauses(rows, i, base + i, equal)) {
            assert(all_true(a, equiv_clauses(rows, n - 1, base + (n - 1), equal)));
        }
    }
}

/// Whether all groups have as many true literals as the first.
pub open spec fn all_same<V>(
    a: Assignment,
    start: Seq<Option<V>>,
    groups: Seq<Seq<VarType<V>>>,
) -> bool {
    forall|g: int|
        0 <= g < groups.len() ==> #[trigger] own_trues(a, start, groups, g) == own_trues(
            a,
            start,
            groups,
            0,
        )
}

/// The rows of the groups, numbered from `start`.
pub open spec fn own_rows<V>(start: Seq<Option<V>>, groups: Seq<Seq<VarType<V>>>) -> Seq<Seq<int>> {
    own_counters(start, groups, width_of(groups), groups.len() as int).2
}

/// Where every row counts its group, the rows agree on an output exactly
/// if the groups agree on whether they have more true literals than it
/// stands for.
pub proof fn lemma_agrees_counts<V>(
    a: Assignment,
    start: Seq<Option<V>>,
    groups: Seq<Seq<VarType<V>>>,
    i: int,
)
    requires
        own_fits(start, groups, width_of(groups), groups.len() as int),
        1 <= groups.len(),
        0 <= i < width_of(groups),
        forall|g: int| 0 <= g < groups.len() ==> #[trigger] row_exact(a, start, groups, g),
    ensures
        column_ok(own_rows(start, groups), i),
        agrees(a, own_rows(start, groups), i) == (forall|g: int|
            0 <= g < groups.len() ==> (#[trigger] own_trues(a, start, groups, g) >= i + 1) == (
            own_trues(a, start, groups, 0) >= i + 1)),
{
    let m = groups.len() as int;
    let rows = own_rows(start, groups);
    lemma_own_rows(start, groups, 0, m);
    assert forall|g: int| 0 <= g < m implies 0 <= i < (#[trigger] rows[g]).len() && rows[g][i]
        != 0 && lit_true(a, rows[g][i]) == (own_trues(a, start, groups, g) >= i + 1) by {
        lemma_own_rows(start, groups, g, m);
        assert(row_exact(a, start, groups, g));
        assert(own_row(start, groups, g)[i] == own_table(start, groups, g).len() + 1 + i);
    }
    if agrees(a, rows, i) {
        assert forall|g: int| 0 <= g < m implies (#[trigger] own_trues(a, start, groups, g) >= i
            + 1) == (own_trues(a, start, groups, 0) >= i + 1) by {
            assert(lit_true(a, rows[g][i]) == lit_true(a, rows[0][i]));
        }
    }
    if forall|g: int|
        0 <= g < m ==> (#[trigger] own_trues(a, start, groups, g) >= i + 1) == (own_trues(
            a,
            start,
            groups,
            0,
        ) >= i + 1) {
        assert forall|g: int| 0 <= g < m implies lit_true(a, #[trigger] rows[g][i]) == lit_true(
            a,
            rows[0][i],
        ) by {
            assert((own_trues(a, start, groups, g) >= i + 1) == (own_trues(a, start, groups, 0)
                >= i + 1));
        }
    }
}

/// What the clauses `{first, l}` for every literal `l` say.
pub proof fn lemma_pairs(a: Assignment, first: int, lits: Seq<int>)
    ensures
        all_true(a, pair_clauses(first, lits)) == (forall|i: int|
            0 <= i < lits.len() ==> lit_true(a, first) || lit_true(a, #[trigger] lits[i])),
{
    let cs = pair_clauses(first, lits);
    if all_true(a, cs) {
        assert forall|i: int| 0 <= i < lits.len() implies lit_true(a, first) || lit_true(
            a,
            #[trigger] lits[i],
        ) by {
            assert(cs[i] == seq![first, lits[i]]);
            lemma_clause2(a, first, lits[i]);
        }
    }
    if forall|i: int| 0 <= i < lits.len() ==> lit_true(a, first) || lit_true(a, #[trigger] lits[i]) {
        assert forall|i: int| 0 <= i < cs.len() implies clause_true(a, #[trigger] cs[i]) by {
            assert(lit_true(a, first) || lit_true(a, lits[i]));
            lemma_clause2(a, first, lits[i]);
        }
    }
}

/// The four parts of the clauses of a reification over at least one group.
pub proof fn lemma_repr_parts<V>(
    names: Seq<Option<V>>,
    groups: Seq<Seq<VarType<V>>>,
    repr: Option<i32>,
    equal: bool,
    a: Assignment,
)
    requires
        1 <= groups.len(),
    ensures
        all_true(a, same_repr_encoded(names, groups, repr, equal).clauses) == ({
            let start = repr_names(names, repr);
            let r = repr_lit(names, repr);
            let c = own_counters(start, groups, width_of(groups), groups.len() as int);
            let base = c.0.len() as int + 1;
            let es = fresh(base, width_of(groups));
            &&& all_true(a, c.1)
            &&& all_true(a, equivs(c.2, base, equal, width_of(groups)))
            &&& equal ==> all_true(a, pair_clauses(-r, es))
            &&& clause_true(a, negs(es).push(r))
        }),
{
    let start = repr_names(names, repr);
    let r = repr_lit(names, repr);
    let c = own_counters(start, groups, width_of(groups), groups.len() as int);
    let base = c.0.len() as int + 1;
    let es = fresh(base, width_of(groups));
    let q = equivs(c.2, base, equal, width_of(groups));
    let p = only_if(equal, pair_clauses(-r, es));
    let f = seq![negs(es).push(r)];
    lemma_all_true_concat(a, c.1 + q + p, f);
    lemma_all_true_concat(a, c.1 + q, p);
    lemma_all_true_concat(a, c.1, q);
    lemma_all_true_one(a, negs(es).push(r));
}

/// Counts within the rows' length that agree on every threshold are equal.
pub proof fn lemma_thresholds(x: int, y: int, width: int)
    requires
        0 <= x <= width,
        0 <= y <= width,
        forall|i: int| 0 <= i < width ==> (#[trigger] at_least(x, i)) == at_least(y, i),
    ensures
        x == y,
{
    if x > y {
        assert(at_least(x, y) == at_least(y, y));
    }
    if y > x {
        assert(at_least(x, x) == at_least(y, x));
    }
}

/// Whether the count `c` is more than `i`.
pub open spec fn at_least(c: int, i: int) -> bool {
    c >= i + 1
}

/// In every model of a reification of "all groups have equally many true
/// literals", the representative is true where they have; and where the
/// representative shall equal the constraint, it is true only there.
pub proof fn same_cardinality_repr_sound<V>(
    names: Seq<Option<V>>,
    groups: Seq<Seq<VarType<V>>>,
    repr: Option<i32>,
    equal: bool,
    a: Assignment,
)
    requires
        same_repr_fits(names, groups, repr),
        crate::constraints::repr_ok(repr),
        all_true(a, same_repr_encoded(names, groups, repr, equal).clauses),
    ensures
        all_same(a, repr_names(names, repr), groups) ==> lit_true(
            a,
            same_repr_encoded(names, groups, repr, equal).repr,
        ),
        equal && lit_true(a, same_repr_encoded(names, groups, repr, equal).repr) ==> all_same(
            a,
            repr_names(names, repr),
            groups,
        ),
{
    let m = groups.len() as int;
    let start = repr_names(names, repr);
    let r = repr_lit(names, repr);
    if m == 0 {
        lemma_all_true_one(a, seq![r]);
        lemma_clause1(a, r);
    } else {
        let width = width_of(groups);
        let c = own_counters(start, groups, width, m);
        let rows = c.2;
        let base = c.0.len() as int + 1;
        let es = fresh(base, width);
        lemma_repr_parts(names, groups, repr, equal, a);
        lemma_equivs(a, rows, base, equal, width);
        lemma_clause_push(a, negs(es), r);
        assert forall|g: int| 0 <= g < m implies #[trigger] row_exact(a, start, groups, g) && 0
            <= own_trues(a, start, groups, g) <= width by {
            lemma_own_counted(a, start, groups, g);
        }
        assert forall|i: int| 0 <= i < width implies (agrees(a, rows, i) ==> val(a, base + i)) && (
        equal ==> (val(a, base + i) ==> agrees(a, rows, i))) by {
            lemma_agrees_counts(a, start, groups, i);
            assert(all_true(a, equiv_clauses(rows, i, base + i, equal)));
            lemma_equiv(a, rows, i, base + i, equal);
        }
        if all_same(a, start, groups) {
            assert forall|i: int| 0 <= i < negs(es).len() implies !lit_true(
                a,
                #[trigger] negs(es)[i],
            ) by {
                lemma_agrees_counts(a, start, groups, i);
                assert forall|g: int| 0 <= g < m implies (#[trigger] own_trues(
                    a,
                    start,
                    groups,
                    g,
                ) >= i + 1) == (own_trues(a, start, groups, 0) >= i + 1) by {}
                assert(agrees(a, rows, i));
                assert(val(a, base + i));
                assert(es[i] == base + i);
            }
        }
        if equal && lit_true(a, r) {
            lemma_pairs(a, -r, es);
            assert forall|g: int| 0 <= g < m implies #[trigger] own_trues(a, start, groups, g)
                == own_trues(a, start, groups, 0) by {
                let x = own_trues(a, start, groups, g);
                let y = own_trues(a, start, groups, 0);
                lemma_own_counted(a, start, groups, g);
                lemma_own_counted(a, start, groups, 0);
                assert forall|i: int| 0 <= i < width implies (#[trigger] at_least(x, i))
                    == at_least(y, i) by {
                    lemma_agrees_counts(a, start, groups, i);
                    assert(lit_true(a, -r) || lit_true(a, es[i]));
                    assert(es[i] == base + i);
                    assert(agrees(a, rows, i));
                    assert((own_trues(a, start, groups, g) >= i + 1) == (own_trues(
                        a,
                        start,
                        groups,
                        0,
                    ) >= i + 1));
                }
                lemma_thresholds(x, y, width);
            }
        }
    }
}

/// `a` with, for each of the first `g` groups, the group's row set to the
/// number of its true literals and the variables of its counter set to the
/// values that its inputs determine.
pub open spec fn own_counted<V>(
    a: Assignment,
    first: Assignment,
    start: Seq<Option<V>>,
    groups: Seq<Seq<VarType<V>>>,
    g: int,
) -> Assignment
    decreases g,
{
    if g <= 0 {
        first
    } else {
        with_counter(
            with_row(
                own_counted(a, first, start, groups, g - 1),
                own_table(start, groups, g - 1).len() as int + 1,
                width_of(groups),
                own_trues(a, start, groups, g - 1),
            ),
            exact_shape(a, own_ids(start, groups, g - 1)),
            own_ids(start, groups, g - 1),
            groups[g - 1].len() as int,
            true,
            own_base(start, groups, g - 1),
        )
    }
}

/// Whether the counter of group `g` has, under `b`, the values that its
/// inputs determine under `a`.
pub open spec fn own_shaped<V>(
    b: Assignment,
    a: Assignment,
    start: Seq<Option<V>>,
    groups: Seq<Seq<VarType<V>>>,
    g: int,
) -> bool {
    shaped_counter(
        b,
        exact_shape(a, own_ids(start, groups, g)),
        own_ids(start, groups, g),
        groups[g].len() as int,
        Some(own_row(start, groups, g)),
        own_base(start, groups, g),
        groups[g].len() as int,
    )
}

/// Whether the row of group `g` stands, under `b`, for the number of true
/// literals that the group has under `a`.
pub open spec fn own_row_set<V>(
    b: Assignment,
    a: Assignment,
    start: Seq<Option<V>>,
    groups: Seq<Seq<VarType<V>>>,
    g: int,
) -> bool {
    forall|x: int|
        own_table(start, groups, g).len() + 1 <= x < own_table(start, groups, g).len() + 1
            + width_of(groups) ==> #[trigger] val(b, x) == at_least(
            own_trues(a, start, groups, g),
            x - (own_table(start, groups, g).len() + 1),
        )
}

/// The row of a group uses variables below `bound` only, and they are the
/// `width` variables after the table before the group.
pub proof fn lemma_own_row_below<V>(
    start: Seq<Option<V>>,
    groups: Seq<Seq<VarType<V>>>,
    g: int,
    bound: int,
)
    requires
        own_table(start, groups, g).len() + width_of(groups) < bound,
    ensures
        lits_below(own_row(start, groups, g), bound),
        forall|j: int|
            0 <= j < width_of(groups) ==> #[trigger] own_row(start, groups, g)[j] == own_table(
                start,
                groups,
                g,
            ).len() + 1 + j,
{
    let row = own_row(start, groups, g);
    assert forall|j: int| 0 <= j < row.len() implies 1 <= var_of(#[trigger] row[j]) < bound by {
        assert(row[j] == own_table(start, groups, g).len() + 1 + j);
    }
}

/// Setting the row and the counter of group `h`: the counter gets the
/// values that its inputs determine, the row stands for the group's count,
/// and nothing changes but the variables of the row and of the counter.
pub proof fn lemma_own_step<V>(
    a: Assignment,
    b0: Assignment,
    names: Seq<Option<V>>,
    groups: Seq<Seq<VarType<V>>>,
    h: int,
) -> (b: Assignment)
    requires
        own_fits(names.push(None), groups, width_of(groups), groups.len() as int),
        all_known(names, groups),
        0 <= h < groups.len(),
    ensures
        b == with_counter(
            with_row(
                b0,
                own_table(names.push(None), groups, h).len() as int + 1,
                width_of(groups),
                own_trues(a, names.push(None), groups, h),
            ),
            exact_shape(a, own_ids(names.push(None), groups, h)),
            own_ids(names.push(None), groups, h),
            groups[h].len() as int,
            true,
            own_base(names.push(None), groups, h),
        ),
        own_shaped(b, a, names.push(None), groups, h),
        own_row_set(b, a, names.push(None), groups, h),
        forall|x: int|
            x <= own_table(names.push(None), groups, h).len() || x > own_table(
                names.push(None),
                groups,
                h + 1,
            ).len() ==> #[trigger] val(b, x) == val(b0, x),
        forall|x: int|
            !is_new(own_table(names.push(None), groups, h + 1), names.len() as int + 1, x)
                ==> #[trigger] val(b, x) == val(b0, x),
{
    let start = names.push(None);
    let width = width_of(groups);
    let th = own_table(start, groups, h);
    let lo = th.len() as int + 1;
    let c = own_trues(a, start, groups, h);
    let b1 = with_row(b0, lo, width, c);
    let lits = groups[h];
    let k = lits.len() as int;
    let ids = own_ids(start, groups, h);
    let base = own_base(start, groups, h);
    let t = exact_shape(a, ids);
    let row = own_row(start, groups, h);
    let inner = own_inner(start, groups, h);
    lemma_own_table(start, groups, h);
    lemma_own_tables_grow(start, groups, 0, h);
    assert(known(names, groups[h]));
    lemma_inputs_old(inner, lits, names.len() as int + 1);
    lemma_with_lits_extends(inner, lits);
    lemma_own_row_below(start, groups, h, base);
    assert forall|j: int| 0 <= j < k implies lit_true(b1, #[trigger] row[j]) == at(t, k, j) by {
        assert(row[j] == lo + j);
        assert(val(b1, lo + j) == (c >= (lo + j) - lo + 1));
    }
    assert(settable(b1, t, ids, k, Some(row), base));
    lemma_with_counter(b1, t, ids, k, Some(row), base);
    let b = with_counter(b1, t, ids, k, true, base);
    let grown = ids_after(k, true, k, k);
    let named = with_lits(inner, lits);
    let next = own_table(start, groups, h + 1);
    assert(next == named + nones::<V>(grown));
    assert forall|x: int| lo <= x < lo + width implies #[trigger] val(b, x) == at_least(
        c,
        x - lo,
    ) by {
        assert(val(b, x) == val(b1, x));
    }
    assert forall|x: int| x <= th.len() || x > next.len() implies #[trigger] val(b, x) == val(
        b0,
        x,
    ) by {
        assert(val(b, x) == val(b1, x));
    }
    assert forall|x: int| !is_new(next, names.len() as int + 1, x) implies #[trigger] val(b, x)
        == val(b0, x) by {
        if base <= x < base + grown {
            assert(next[x - 1] is None);
        }
        assert(val(b, x) == val(b1, x));
        if lo <= x < lo + width {
            assert(inner[x - 1] is None);
            assert(next.take(inner.len() as int)[x - 1] == next[x - 1]);
        }
    }
    b
}

/// The counter and the row of an earlier group `e` keep their values when
/// only variables after the table before group `h` change.
pub proof fn lemma_own_kept<V>(
    a: Assignment,
    b0: Assignment,
    b: Assignment,
    names: Seq<Option<V>>,
    groups: Seq<Seq<VarType<V>>>,
    e: int,
    h: int,
)
    requires
        own_fits(names.push(None), groups, width_of(groups), groups.len() as int),
        all_known(names, groups),
        0 <= e < h <= groups.len(),
        own_shaped(b0, a, names.push(None), groups, e),
        own_row_set(b0, a, names.push(None), groups, e),
        agree_below(b0, b, own_table(names.push(None), groups, h).len() as int + 1),
    ensures
        own_shaped(b, a, names.push(None), groups, e),
        own_row_set(b, a, names.push(None), groups, e),
{
    let start = names.push(None);
    lemma_own_table(start, groups, e);
    lemma_own_tables_grow(start, groups, e + 1, h);
    lemma_own_tables_grow(start, groups, 0, e);
    assert(known(names, groups[e]));
    let inner = own_inner(start, groups, e);
    lemma_inputs_old(inner, groups[e], names.len() as int + 1);
    lemma_with_lits_extends(inner, groups[e]);
    let ke = groups[e].len() as int;
    let be = own_base(start, groups, e);
    assert(be + ids_after(ke, true, ke, ke) == own_table(start, groups, e + 1).len() + 1);
    assert(agree_below(b0, b, be + ids_after(ke, true, ke, ke)));
    lemma_own_row_below(start, groups, e, be);
    lemma_shaped_agree(
        b0,
        b,
        exact_shape(a, own_ids(start, groups, e)),
        own_ids(start, groups, e),
        ke,
        Some(own_row(start, groups, e)),
        be,
        ke,
    );
    let lo = own_table(start, groups, e).len() as int + 1;
    assert forall|x: int| lo <= x < lo + width_of(groups) implies #[trigger] val(b, x)
        == at_least(own_trues(a, start, groups, e), x - lo) by {
        assert(val(b0, x) == val(b, x));
    }
}

/// What holds after the rows and counters of the first `g` groups were
/// set.
pub proof fn lemma_own_counted_all<V>(
    a: Assignment,
    first: Assignment,
    names: Seq<Option<V>>,
    groups: Seq<Seq<VarType<V>>>,
    g: int,
)
    requires
        own_fits(names.push(None), groups, width_of(groups), groups.len() as int),
        all_known(names, groups),
        0 <= g <= groups.len(),
    ensures
        only_new(
            own_counted(a, first, names.push(None), groups, g),
            first,
            own_table(names.push(None), groups, g),
            names.len() as int + 1,
        ),
        forall|h: int|
            0 <= h < g ==> #[trigger] own_shaped(
                own_counted(a, first, names.push(None), groups, g),
                a,
                names.push(None),
                groups,
                h,
            ),
        forall|h: int|
            0 <= h < g ==> #[trigger] own_row_set(
                own_counted(a, first, names.push(None), groups, g),
                a,
                names.push(None),
                groups,
                h,
            ),
    decreases g,
{
    let start = names.push(None);
    let b = own_counted(a, first, start, groups, g);
    if g > 0 {
        let h = g - 1;
        let b0 = own_counted(a, first, start, groups, h);
        lemma_own_counted_all(a, first, names, groups, h);
        let b2 = lemma_own_step(a, b0, names, groups, h);
        assert(b2 == b);
        lemma_own_table(start, groups, h);
        let th = own_table(start, groups, h);
        let tg = own_table(start, groups, g);
        assert forall|x: int| !is_new(tg, names.len() as int + 1, x) implies #[trigger] val(b, x)
            == val(first, x) by {
            assert(val(b, x) == val(b0, x));
            if is_new(th, names.len() as int + 1, x) {
                assert(tg.take(th.len() as int)[x - 1] == tg[x - 1]);
            }
        }
        assert(agree_below(b0, b, th.len() as int + 1));
        assert forall|e: int| 0 <= e < g implies #[trigger] own_shaped(b, a, start, groups, e)
            && own_row_set(b, a, start, groups, e) by {
            if e < h {
                assert(own_shaped(b0, a, start, groups, e));
                assert(own_row_set(b0, a, start, groups, e));
                lemma_own_kept(a, b0, b, names, groups, e, h);
            }
        }
        assert forall|e: int| 0 <= e < g implies #[trigger] own_row_set(b, a, start, groups, e) by {
            assert(own_shaped(b, a, start, groups, e) && own_row_set(b, a, start, groups, e));
        }
    }
}

/// Whether all groups agree on having more than `i` true literals.
pub open spec fn agree_at<V>(
    a: Assignment,
    start: Seq<Option<V>>,
    groups: Seq<Seq<VarType<V>>>,
    i: int,
) -> bool {
    forall|g: int|
        0 <= g < groups.len() ==> (#[trigger] own_trues(a, start, groups, g) >= i + 1) == (
        own_trues(a, start, groups, 0) >= i + 1)
}

/// `b` with the agreement variables `base ..` set to whether the groups
/// agree, under `a`, on each threshold.
pub open spec fn with_agreement<V>(
    b: Assignment,
    a: Assignment,
    start: Seq<Option<V>>,
    groups: Seq<Seq<VarType<V>>>,
    base: int,
) -> Assignment {
    |x: int|
        if base <= x < base + width_of(groups) {
            agree_at(a, start, groups, x - base)
        } else {
            b(x)
        }
}

/// The inputs of group `g` keep their values under an assignment that
/// differs from `a` only on anonymous variables numbered after `names`,
/// in a table that holds the table after the group.
pub proof fn lemma_own_inputs_kept<V>(
    b: Assignment,
    a: Assignment,
    names: Seq<Option<V>>,
    groups: Seq<Seq<VarType<V>>>,
    table: Seq<Option<V>>,
    g: int,
)
    requires
        own_fits(names.push(None), groups, width_of(groups), groups.len() as int),
        all_known(names, groups),
        0 <= g < groups.len(),
        own_table(names.push(None), groups, g + 1).len() <= table.len(),
        table.take(own_table(names.push(None), groups, g + 1).len() as int) == own_table(
            names.push(None),
            groups,
            g + 1,
        ),
        only_new(b, a, table, names.len() as int),
    ensures
        forall|i: int|
            0 <= i < groups[g].len() ==> lit_true(
                b,
                #[trigger] own_ids(names.push(None), groups, g)[i],
            ) == lit_true(a, own_ids(names.push(None), groups, g)[i]),
        own_trues(b, names.push(None), groups, g) == own_trues(a, names.push(None), groups, g),
        lits_below(own_ids(names.push(None), groups, g), own_base(names.push(None), groups, g)),
        nonzero(own_ids(names.push(None), groups, g), groups[g].len() as int),
{
    let start = names.push(None);
    let inner = own_inner(start, groups, g);
    let lits = groups[g];
    let named = with_lits(inner, lits);
    let ids = own_ids(start, groups, g);
    let next = own_table(start, groups, g + 1);
    lemma_own_table(start, groups, g);
    lemma_own_tables_grow(start, groups, 0, g);
    assert(known(names, groups[g]));
    lemma_inputs_old(inner, lits, names.len() as int);
    lemma_input_ids(inner, lits);
    assert forall|i: int| 0 <= i < lits.len() implies lit_true(b, #[trigger] ids[i]) == lit_true(
        a,
        ids[i],
    ) by {
        let x = var_of(ids[i]);
        assert(!is_new(named, names.len() as int, x));
        assert(1 <= x < named.len() + 1);
        assert(next[x - 1] == named[x - 1]);
        assert(table.take(next.len() as int)[x - 1] == table[x - 1]);
        assert(!is_new(table, names.len() as int, x));
        assert(val(b, x) == val(a, x));
    }
    lemma_same_count(a, b, ids, lits.len() as int);
}

/// What the extension gives for group `g`: the clauses of its counter and
/// the unit clauses on its row are true, its row counts it, and it has as
/// many true literals as before.
pub proof fn lemma_own_group_done<V>(
    b: Assignment,
    a: Assignment,
    names: Seq<Option<V>>,
    groups: Seq<Seq<VarType<V>>>,
    table: Seq<Option<V>>,
    g: int,
)
    requires
        own_fits(names.push(None), groups, width_of(groups), groups.len() as int),
        all_known(names, groups),
        0 <= g < groups.len(),
        own_table(names.push(None), groups, g + 1).len() <= table.len(),
        table.take(own_table(names.push(None), groups, g + 1).len() as int) == own_table(
            names.push(None),
            groups,
            g + 1,
        ),
        only_new(b, a, table, names.len() as int),
        own_shaped(b, a, names.push(None), groups, g),
        own_row_set(b, a, names.push(None), groups, g),
    ensures
        all_true(b, own_counter_clauses(names.push(None), groups, g)),
        all_true(b, tail_zeros(own_row(names.push(None), groups, g), groups[g].len() as int)),
        row_exact(b, names.push(None), groups, g),
        own_trues(b, names.push(None), groups, g) == own_trues(a, names.push(None), groups, g),
        0 <= own_trues(a, names.push(None), groups, g) <= width_of(groups),
{
    let start = names.push(None);
    let width = width_of(groups);
    let lits = groups[g];
    let k = lits.len() as int;
    let ids = own_ids(start, groups, g);
    let base = own_base(start, groups, g);
    let row = own_row(start, groups, g);
    let t = exact_shape(a, ids);
    let lo = own_table(start, groups, g).len() as int + 1;
    let c = own_trues(a, start, groups, g);
    lemma_own_table(start, groups, g);
    lemma_own_inputs_kept(b, a, names, groups, table, g);
    lemma_with_lits_extends(own_inner(start, groups, g), lits);
    lemma_own_row_below(start, groups, g, base);
    lemma_exact_shape_fits(a, Direction::Both, ids, k, k);
    assert(shape_fits(b, Direction::Both, t, ids, k, k)) by {
        assert forall|r: int| 1 <= r <= k implies #[trigger] row_fits(
            Direction::Both,
            t,
            lit_true(b, ids[r - 1]),
            r,
            k,
        ) by {
            assert(lit_true(b, ids[r - 1]) == lit_true(a, ids[r - 1]));
            assert(row_fits(Direction::Both, t, lit_true(a, ids[r - 1]), r, k));
        }
    }
    assert(nonzero(row, k)) by {
        assert forall|j: int| 0 <= j < k implies #[trigger] row[j] != 0 by {
            assert(row[j] == lo + j);
        }
    }
    lemma_shaped_counter_holds(b, Direction::Both, t, ids, k, Some(row), base, k);
    lemma_count_range(a, ids, k);
    assert forall|j: int| 0 <= j < width implies lit_true(b, #[trigger] row[j]) == (own_trues(
        b,
        start,
        groups,
        g,
    ) >= j + 1) by {
        assert(row[j] == lo + j);
        assert(val(b, lo + j) == at_least(c, (lo + j) - lo));
    }
    let zeros = tail_zeros(row, k);
    assert forall|z: int| 0 <= z < zeros.len() implies clause_true(b, #[trigger] zeros[z]) by {
        let j = row.len() - 1 - z;
        assert(row[j] == lo + j);
        assert(val(b, lo + j) == at_least(c, (lo + j) - lo));
        lemma_clause1(b, -row[j]);
    }
}

/// Every assignment extends to a model of a reification of "all groups
/// have equally many true literals" in which the representative has the
/// value `want`, provided that `want` is true where the groups have equally
/// many, and, where the representative shall equal the constraint, only
/// there. The model differs from the assignment only on variables that the
/// encoding numbers, so that every group has as many true literals as
/// before.
pub proof fn same_cardinality_repr_extends<V>(
    names: Seq<Option<V>>,
    groups: Seq<Seq<VarType<V>>>,
    equal: bool,
    a: Assignment,
    want: bool,
) -> (b: Assignment)
    requires
        same_repr_fits(names, groups, None),
        all_known(names, groups),
        all_same(a, names.push(None), groups) ==> want,
        equal && want ==> all_same(a, names.push(None), groups),
    ensures
        agree_below(b, a, names.len() as int + 1),
        forall|g: int|
            0 <= g < groups.len() ==> #[trigger] own_trues(b, names.push(None), groups, g)
                == own_trues(a, names.push(None), groups, g),
        all_true(b, same_repr_encoded(names, groups, None, equal).clauses),
        lit_true(b, same_repr_encoded(names, groups, None, equal).repr) == want,
{
    let m = groups.len() as int;
    let start = names.push(None);
    let r = names.len() as int + 1;
    let a1 = with_value(a, r, want);
    if m == 0 {
        lemma_all_true_one(a1, seq![r]);
        lemma_clause1(a1, r);
        a1
    } else {
        let width = width_of(groups);
        let c = own_counters(start, groups, width, m);
        let rows = c.2;
        let tm = own_table(start, groups, m);
        let base = tm.len() as int + 1;
        let es = fresh(base, width);
        let bm = own_counted(a, a1, start, groups, m);
        let b = with_agreement(bm, a, start, groups, base);
        let table = tm + nones::<V>(width);
        lemma_own_counted_all(a, a1, names, groups, m);
        lemma_own_tables_grow(start, groups, 0, m);
        lemma_len_bounds(groups, 0, m);
        assert(tm.take(start.len() as int)[names.len() as int] == start[names.len() as int]);
        assert forall|x: int| !is_new(table, names.len() as int, x) implies #[trigger] val(b, x)
            == val(a, x) by {
            if base <= x < base + width {
                assert(table[x - 1] is None);
            }
            assert(val(b, x) == val(bm, x));
            if is_new(tm, names.len() as int + 1, x) {
                assert(table[x - 1] == tm[x - 1]);
            }
            assert(val(bm, x) == val(a1, x));
            if x == r {
                assert(table[x - 1] == tm[x - 1]);
            }
        }
        assert(agree_below(bm, b, base));
        assert(val(b, r) == want) by {
            assert(val(b, r) == val(bm, r));
            assert(!is_new(tm, names.len() as int + 1, r));
            assert(val(bm, r) == val(a1, r));
        }
        assert forall|g: int| 0 <= g < m implies all_true(
            b,
            #[trigger] own_counter_clauses(start, groups, g),
        ) by {
            lemma_extends_group(a, a1, names, groups, g);
        }
        assert forall|g: int| 0 <= g < m implies all_true(
            b,
            #[trigger] tail_zeros(own_row(start, groups, g), groups[g].len() as int),
        ) by {
            lemma_extends_group(a, a1, names, groups, g);
        }
        assert forall|g: int| 0 <= g < m implies #[trigger] row_exact(b, start, groups, g) by {
            lemma_extends_group(a, a1, names, groups, g);
        }
        assert forall|g: int| 0 <= g < m implies #[trigger] own_trues(b, start, groups, g)
            == own_trues(a, start, groups, g) by {
            lemma_extends_group(a, a1, names, groups, g);
        }
        lemma_own_clauses_join(b, start, groups, m);
        assert forall|i: int| 0 <= i < width implies all_true(
            b,
            #[trigger] equiv_clauses(rows, i, base + i, equal),
        ) by {
            lemma_agrees_counts(b, start, groups, i);
            assert(val(b, base + i) == agree_at(a, start, groups, (base + i) - base));
            assert(agree_at(a, start, groups, i) == agrees(b, rows, i)) by {
                if agree_at(a, start, groups, i) {
                    assert forall|g: int| 0 <= g < m implies (#[trigger] own_trues(
                        b,
                        start,
                        groups,
                        g,
                    ) >= i + 1) == (own_trues(b, start, groups, 0) >= i + 1) by {
                        assert((own_trues(a, start, groups, g) >= i + 1) == (own_trues(
                            a,
                            start,
                            groups,
                            0,
                        ) >= i + 1));
                    }
                }
                if agrees(b, rows, i) {
                    assert forall|g: int| 0 <= g < m implies (#[trigger] own_trues(
                        a,
                        start,
                        groups,
                        g,
                    ) >= i + 1) == (own_trues(a, start, groups, 0) >= i + 1) by {
                        assert((own_trues(b, start, groups, g) >= i + 1) == (own_trues(
                            b,
                            start,
                            groups,
                            0,
                        ) >= i + 1));
                    }
                }
            }
            lemma_equiv(b, rows, i, base + i, equal);
        }
        lemma_equivs(b, rows, base, equal, width);
        if equal {
            lemma_pairs(b, -r, es);
            assert forall|i: int| 0 <= i < es.len() implies lit_true(b, -r) || lit_true(
                b,
                #[trigger] es[i],
            ) by {
                if want {
                    assert(es[i] == base + i);
                    assert(val(b, base + i) == agree_at(a, start, groups, (base + i) - base));
                }
            }
        }
        lemma_clause_push(b, negs(es), r);
        if !want {
            let g = choose|g: int|
                0 <= g < m && #[trigger] own_trues(a, start, groups, g) != own_trues(
                    a,
                    start,
                    groups,
                    0,
                );
            let x = own_trues(a, start, groups, g);
            let y = own_trues(a, start, groups, 0);
            lemma_extends_group(a, a1, names, groups, g);
            lemma_extends_group(a, a1, names, groups, 0);
            let i = if x > y {
                y
            } else {
                x
            };
            assert(!agree_at(a, start, groups, i)) by {
                assert((own_trues(a, start, groups, g) >= i + 1) != (own_trues(
                    a,
                    start,
                    groups,
                    0,
                ) >= i + 1));
            }
            assert(val(b, base + i) == agree_at(a, start, groups, (base + i) - base));
            assert(es[i] == base + i);
            assert(negs(es)[i] == -(base + i));
            assert(lit_true(b, negs(es)[i]));
        }
        lemma_repr_parts(names, groups, None, equal, b);
        b
    }
}

/// What the extension built in `same_cardinality_repr_extends` gives for
/// group `g`.
pub proof fn lemma_extends_group<V>(
    a: Assignment,
    a1: Assignment,
    names: Seq<Option<V>>,
    groups: Seq<Seq<VarType<V>>>,
    g: int,
)
    requires
        own_fits(names.push(None), groups, width_of(groups), groups.len() as int),
        all_known(names, groups),
        0 <= g < groups.len(),
        forall|x: int| x != names.len() + 1 ==> #[trigger] val(a1, x) == val(a, x),
    ensures
        ({
            let start = names.push(None);
            let m = groups.len() as int;
            let base = own_table(start, groups, m).len() as int + 1;
            let b = with_agreement(own_counted(a, a1, start, groups, m), a, start, groups, base);
            &&& all_true(b, own_counter_clauses(start, groups, g))
            &&& all_true(b, tail_zeros(own_row(start, groups, g), groups[g].len() as int))
            &&& row_exact(b, start, groups, g)
            &&& own_trues(b, start, groups, g) == own_trues(a, start, groups, g)
            &&& 0 <= own_trues(a, start, groups, g) <= width_of(groups)
        }),
{
    let start = names.push(None);
    let m = groups.len() as int;
    let width = width_of(groups);
    let tm = own_table(start, groups, m);
    let base = tm.len() as int + 1;
    let bm = own_counted(a, a1, start, groups, m);
    let b = with_agreement(bm, a, start, groups, base);
    let table = tm + nones::<V>(width);
    let r = names.len() as int + 1;
    lemma_own_counted_all(a, a1, names, groups, m);
    lemma_own_tables_grow(start, groups, 0, m);
    lemma_own_tables_grow(start, groups, g + 1, m);
    lemma_len_bounds(groups, 0, m);
    assert(tm.take(start.len() as int)[names.len() as int] == start[names.len() as int]);
    assert forall|x: int| !is_new(table, names.len() as int, x) implies #[trigger] val(b, x)
        == val(a, x) by {
        if base <= x < base + width {
            assert(table[x - 1] is None);
        }
        assert(val(b, x) == val(bm, x));
        if is_new(tm, names.len() as int + 1, x) {
            assert(table[x - 1] == tm[x - 1]);
        }
        assert(val(bm, x) == val(a1, x));
        if x == r {
            assert(table[x - 1] == tm[x - 1]);
        }
    }
    assert(agree_below(bm, b, base));
    assert(own_shaped(bm, a, start, groups, g));
    assert(own_row_set(bm, a, start, groups, g));
    lemma_own_kept(a, bm, b, names, groups, g, m);
    let next = own_table(start, groups, g + 1);
    assert(table.take(next.len() as int) =~= tm.take(next.len() as int));
    lemma_own_group_done(b, a, names, groups, table, g);
}

} // verus!
