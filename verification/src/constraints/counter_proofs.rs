//! What the clauses of a sequential counter say about its outputs.

use vstd::prelude::*;
use crate::circuit::Direction;
use crate::constraints::cardinality::{
    cell_clauses, cells_clauses, counter_clauses, counter_row, first_row_clauses, fresh, ids_after,
    lemma_ids_after_grows, row_clauses,
};
use crate::semantics::{
    all_true, count_true, lemma_all_true_concat, lemma_all_true_one, lemma_and_gate2,
    lemma_clause1, lemma_count_range, lemma_equal_gate, lemma_or_gate2, lit_true, val, Assignment,
};

verus! {

/// Whether the first `k` literals of `row` are nonzero.
pub open spec fn nonzero(row: Seq<int>, k: int) -> bool {
    row.len() >= k && forall|j: int| 0 <= j < k ==> #[trigger] row[j] != 0
}

/// How the outputs of a row relate to the number `cnt` of true inputs so
/// far: written forward, "more than `j` inputs are true" forces output `j`;
/// written backward, output `j` forces "more than `j` inputs are true".
pub open spec fn row_sem(a: Assignment, dir: Direction, row: Seq<int>, cnt: int, k: int) -> bool {
    forall|j: int|
        0 <= j < k ==> (dir.forward() ==> (cnt >= j + 1 ==> lit_true(a, #[trigger] row[j]))) && (
        dir.backward() ==> (lit_true(a, row[j]) ==> cnt >= j + 1))
}

/// The clauses of the outputs `1 .. k` hold the clauses of each of them.
pub proof fn lemma_cells_split(
    a: Assignment,
    dir: Direction,
    v: int,
    prev: Seq<int>,
    row: Seq<int>,
    aux: int,
    k: int,
    j: int,
)
    requires
        1 <= j < k,
        all_true(a, cells_clauses(dir, v, prev, row, aux, k)),
    ensures
        all_true(a, cell_clauses(dir, v, prev, row, aux + j - 1, j)),
    decreases k,
{
    lemma_all_true_concat(
        a,
        cells_clauses(dir, v, prev, row, aux, k - 1),
        cell_clauses(dir, v, prev, row, aux + k - 2, k - 1),
    );
    if j < k - 1 {
        lemma_cells_split(a, dir, v, prev, row, aux, k - 1, j);
    }
}

/// Clauses of each output that hold make the clauses of all of them hold.
pub proof fn lemma_cells_join(
    a: Assignment,
    dir: Direction,
    v: int,
    prev: Seq<int>,
    row: Seq<int>,
    aux: int,
    k: int,
)
    requires
        forall|j: int|
            1 <= j < k ==> all_true(a, #[trigger] cell_clauses(dir, v, prev, row, aux + j - 1, j)),
    ensures
        all_true(a, cells_clauses(dir, v, prev, row, aux, k)),
    decreases k,
{
    if k > 1 {
        lemma_cells_join(a, dir, v, prev, row, aux, k - 1);
        assert(all_true(a, cell_clauses(dir, v, prev, row, aux + (k - 1) - 1, k - 1)));
        lemma_all_true_concat(
            a,
            cells_clauses(dir, v, prev, row, aux, k - 1),
            cell_clauses(dir, v, prev, row, aux + k - 2, k - 1),
        );
    }
}

/// What the clauses of one output `j >= 1` say.
pub proof fn lemma_cell(
    a: Assignment,
    dir: Direction,
    v: int,
    prev: Seq<int>,
    row: Seq<int>,
    x: int,
    j: int,
)
    requires
        1 <= j,
        v != 0,
        x != 0,
        prev[j - 1] != 0,
        prev[j] != 0,
        row[j] != 0,
    ensures
        all_true(a, cell_clauses(dir, v, prev, row, x, j)) == ((lit_true(a, x) == (lit_true(a, v)
            && lit_true(a, prev[j - 1]))) && (dir.forward() ==> (lit_true(a, x) || lit_true(
            a,
            prev[j],
        ) ==> lit_true(a, row[j]))) && (dir.backward() ==> (lit_true(a, row[j]) ==> lit_true(a, x)
            || lit_true(a, prev[j])))),
{
    lemma_all_true_concat(
        a,
        crate::circuit::and_clauses(Direction::Both, seq![v, prev[j - 1]], x),
        crate::circuit::or_clauses(dir, seq![x, prev[j]], row[j]),
    );
    lemma_and_gate2(a, Direction::Both, v, prev[j - 1], x);
    lemma_or_gate2(a, dir, x, prev[j], row[j]);
}

/// What the clauses of the first row say.
pub proof fn lemma_first_row(a: Assignment, dir: Direction, v: int, row: Seq<int>, k: int)
    requires
        1 <= k,
        v != 0,
        nonzero(row, k),
    ensures
        all_true(a, first_row_clauses(dir, v, row, k)) == ((dir.forward() ==> (lit_true(a, v)
            ==> lit_true(a, row[0]))) && (dir.backward() ==> (lit_true(a, row[0]) ==> lit_true(
            a,
            v,
        ))) && forall|j: int| 1 <= j < k ==> !lit_true(a, #[trigger] row[j])),
{
    let zeros = Seq::new((k - 1) as nat, |j: int| seq![-row[j + 1]]);
    lemma_all_true_concat(a, crate::circuit::equal_clauses(dir, v, row[0]), zeros);
    lemma_equal_gate(a, dir, v, row[0]);
    if all_true(a, zeros) {
        assert forall|j: int| 1 <= j < k implies !lit_true(a, #[trigger] row[j]) by {
            assert(zeros[j - 1] == seq![-row[j]]);
            lemma_clause1(a, -row[j]);
        }
    }
    if forall|j: int| 1 <= j < k ==> !lit_true(a, #[trigger] row[j]) {
        assert forall|t: int| 0 <= t < zeros.len() implies crate::semantics::clause_true(
            a,
            #[trigger] zeros[t],
        ) by {
            assert(!lit_true(a, row[t + 1]));
            lemma_clause1(a, -row[t + 1]);
        }
    }
}

/// The first row counts the first input.
pub proof fn lemma_first_row_sound(a: Assignment, dir: Direction, v: int, row: Seq<int>, k: int)
    requires
        1 <= k,
        v != 0,
        nonzero(row, k),
        all_true(a, first_row_clauses(dir, v, row, k)),
    ensures
        row_sem(a, dir, row, if lit_true(a, v) { 1int } else { 0int }, k),
{
    lemma_first_row(a, dir, v, row, k);
}

/// A later row counts one more input than the row before it.
pub proof fn lemma_row_sound(
    a: Assignment,
    dir: Direction,
    v: int,
    prev: Seq<int>,
    row: Seq<int>,
    aux: int,
    k: int,
    cnt: int,
)
    requires
        1 <= k,
        v != 0,
        1 <= aux,
        nonzero(prev, k),
        nonzero(row, k),
        all_true(a, row_clauses(dir, v, prev, row, aux, k)),
        row_sem(a, dir, prev, cnt, k),
        0 <= cnt,
    ensures
        row_sem(a, dir, row, cnt + if lit_true(a, v) { 1int } else { 0int }, k),
{
    let next = cnt + if lit_true(a, v) { 1int } else { 0int };
    lemma_all_true_concat(
        a,
        crate::circuit::or_clauses(dir, seq![v, prev[0]], row[0]),
        cells_clauses(dir, v, prev, row, aux, k),
    );
    lemma_or_gate2(a, dir, v, prev[0], row[0]);
    assert forall|j: int| 0 <= j < k implies (dir.forward() ==> (next >= j + 1 ==> lit_true(
        a,
        #[trigger] row[j],
    ))) && (dir.backward() ==> (lit_true(a, row[j]) ==> next >= j + 1)) by {
        assert(row[j] != 0);
        assert(prev[j] != 0);
        let pj = lit_true(a, prev[j]);
        assert((dir.forward() ==> (cnt >= j + 1 ==> pj)) && (dir.backward() ==> (pj ==> cnt >= j
            + 1)));
        if j >= 1 {
            assert(prev[j - 1] != 0);
            let pm = lit_true(a, prev[j - 1]);
            assert((dir.forward() ==> (cnt >= j ==> pm)) && (dir.backward() ==> (pm ==> cnt
                >= j)));
            lemma_cells_split(a, dir, v, prev, row, aux, k, j);
            lemma_cell(a, dir, v, prev, row, aux + j - 1, j);
        }
    }
}

/// The rows of a counter are made of nonzero literals.
pub proof fn lemma_counter_row_nonzero(k: int, out: Option<Seq<int>>, n: int, base: int, i: int)
    requires
        1 <= k,
        1 <= base,
        1 <= i <= n,
        out is Some ==> nonzero(out->0, k),
    ensures
        nonzero(counter_row(k, out, n, base, i), k),
{
    lemma_ids_after_grows(k, out is Some, n, 0, i - 1);
}

/// After `i` inputs, the last row of a counter relates to the number of true
/// inputs as its direction says.
pub proof fn lemma_counter_sound(
    a: Assignment,
    dir: Direction,
    vars: Seq<int>,
    k: int,
    out: Option<Seq<int>>,
    base: int,
    i: int,
)
    requires
        1 <= k,
        1 <= base,
        1 <= i <= vars.len(),
        nonzero(vars, vars.len() as int),
        out is Some ==> nonzero(out->0, k),
        all_true(a, counter_clauses(dir, vars, k, out, base, i)),
    ensures
        row_sem(a, dir, counter_row(k, out, vars.len() as int, base, i), count_true(a, vars, i), k),
    decreases i,
{
    let n = vars.len() as int;
    lemma_counter_row_nonzero(k, out, n, base, i);
    assert(count_true(a, vars, 0) == 0);
    if i == 1 {
        lemma_first_row_sound(a, dir, vars[0], counter_row(k, out, n, base, 1), k);
    } else {
        let prev = counter_row(k, out, n, base, i - 1);
        let row = counter_row(k, out, n, base, i);
        let aux = base + ids_after(k, out is Some, n, i) - (k - 1);
        lemma_all_true_concat(
            a,
            counter_clauses(dir, vars, k, out, base, i - 1),
            row_clauses(dir, vars[i - 1], prev, row, aux, k),
        );
        lemma_counter_sound(a, dir, vars, k, out, base, i - 1);
        lemma_counter_row_nonzero(k, out, n, base, i - 1);
        lemma_ids_after_grows(k, out is Some, n, 0, i - 1);
        lemma_count_range(a, vars, i - 1);
        lemma_row_sound(a, dir, vars[i - 1], prev, row, aux, k, count_true(a, vars, i - 1));
    }
}

/// A choice of truth values for the outputs of a counter: whether output
/// `j` of row `i` is true.
pub type Shape = spec_fn(int, int) -> bool;

/// The value that `t` gives to output `j` of row `i`.
pub open spec fn at(t: Shape, i: int, j: int) -> bool {
    t(i, j)
}

/// Whether the outputs of `row` have the values that `t` gives to row `i`.
pub open spec fn shaped_row(a: Assignment, row: Seq<int>, t: Shape, i: int, k: int) -> bool {
    forall|j: int| 0 <= j < k ==> lit_true(a, #[trigger] row[j]) == at(t, i, j)
}

/// Whether the AND variables `aux ..` of row `i` have the values of their
/// gates: variable `aux + j - 1` is true exactly if the input `v` is true
/// and output `j - 1` of the row before.
pub open spec fn shaped_aux(a: Assignment, v: int, aux: int, t: Shape, i: int, k: int) -> bool {
    forall|x: int|
        aux <= x < aux + k - 1 ==> #[trigger] val(a, x) == (lit_true(a, v) && at(
            t,
            i - 1,
            x - aux,
        ))
}

/// Whether all variables of the first `i` rows of a counter have the values
/// that `t` and the gates determine.
pub open spec fn shaped_counter(
    a: Assignment,
    t: Shape,
    vars: Seq<int>,
    k: int,
    out: Option<Seq<int>>,
    base: int,
    i: int,
) -> bool
    decreases i,
{
    let n = vars.len() as int;
    if i <= 0 {
        true
    } else {
        &&& shaped_counter(a, t, vars, k, out, base, i - 1)
        &&& shaped_row(a, counter_row(k, out, n, base, i), t, i, k)
        &&& i >= 2 ==> shaped_aux(
            a,
            vars[i - 1],
            base + ids_after(k, out is Some, n, i) - (k - 1),
            t,
            i,
            k,
        )
    }
}

/// Whether the values that `t` gives to row `i` fit the gates of that row,
/// as far as direction `dir` writes them, where `v` says whether input `i`
/// is true.
pub open spec fn row_fits(dir: Direction, t: Shape, v: bool, i: int, k: int) -> bool {
    if i == 1 {
        &&& dir.forward() ==> (v ==> at(t, 1, 0))
        &&& dir.backward() ==> (at(t, 1, 0) ==> v)
        &&& forall|j: int| 1 <= j < k ==> !#[trigger] at(t, 1, j)
    } else {
        &&& dir.forward() ==> (v || at(t, i - 1, 0) ==> at(t, i, 0))
        &&& dir.backward() ==> (at(t, i, 0) ==> v || at(t, i - 1, 0))
        &&& forall|j: int|
            1 <= j < k ==> (dir.forward() ==> ((v && at(t, i - 1, j - 1)) || at(t, i - 1, j)
                ==> #[trigger] at(t, i, j))) && (dir.backward() ==> (at(t, i, j) ==> (v && at(
                t,
                i - 1,
                j - 1,
            )) || at(t, i - 1, j)))
    }
}

/// Whether the values of `t` fit the gates of the first `i` rows.
pub open spec fn shape_fits(
    a: Assignment,
    dir: Direction,
    t: Shape,
    vars: Seq<int>,
    k: int,
    i: int,
) -> bool {
    forall|r: int| 1 <= r <= i ==> #[trigger] row_fits(dir, t, lit_true(a, vars[r - 1]), r, k)
}

/// A counter whose variables have values that fit its gates satisfies its
/// clauses.
pub proof fn lemma_shaped_counter_holds(
    a: Assignment,
    dir: Direction,
    t: Shape,
    vars: Seq<int>,
    k: int,
    out: Option<Seq<int>>,
    base: int,
    i: int,
)
    requires
        1 <= k,
        1 <= base,
        0 <= i <= vars.len(),
        nonzero(vars, vars.len() as int),
        out is Some ==> nonzero(out->0, k),
        shaped_counter(a, t, vars, k, out, base, i),
        shape_fits(a, dir, t, vars, k, i),
    ensures
        all_true(a, counter_clauses(dir, vars, k, out, base, i)),
    decreases i,
{
    let n = vars.len() as int;
    if i >= 1 {
        lemma_counter_row_nonzero(k, out, n, base, i);
        let row = counter_row(k, out, n, base, i);
        let v = vars[i - 1];
        assert(row_fits(dir, t, lit_true(a, v), i, k));
        if i == 1 {
            lemma_first_row(a, dir, vars[0], row, k);
            assert forall|j: int| 1 <= j < k implies !lit_true(a, #[trigger] row[j]) by {
                assert(lit_true(a, row[j]) == at(t, 1, j));
            }
            assert(lit_true(a, row[0]) == at(t, 1, 0));
        } else {
            assert(shape_fits(a, dir, t, vars, k, i - 1));
            lemma_shaped_counter_holds(a, dir, t, vars, k, out, base, i - 1);
            lemma_counter_row_nonzero(k, out, n, base, i - 1);
            lemma_ids_after_grows(k, out is Some, n, 0, i - 1);
            let prev = counter_row(k, out, n, base, i - 1);
            let aux = base + ids_after(k, out is Some, n, i) - (k - 1);
            assert(shaped_counter(a, t, vars, k, out, base, i - 1));
            assert(shaped_row(a, prev, t, i - 1, k));
            assert(lit_true(a, row[0]) == at(t, i, 0));
            assert(lit_true(a, prev[0]) == at(t, i - 1, 0));
            lemma_or_gate2(a, dir, v, prev[0], row[0]);
            assert forall|j: int| 1 <= j < k implies all_true(
                a,
                #[trigger] cell_clauses(dir, v, prev, row, aux + j - 1, j),
            ) by {
                let x = aux + j - 1;
                assert(val(a, x) == (lit_true(a, v) && at(t, i - 1, x - aux)));
                assert(lit_true(a, row[j]) == at(t, i, j));
                assert(lit_true(a, prev[j]) == at(t, i - 1, j));
                assert(lit_true(a, prev[j - 1]) == at(t, i - 1, j - 1));
                assert((dir.forward() ==> ((lit_true(a, v) && at(t, i - 1, j - 1)) || at(
                    t,
                    i - 1,
                    j,
                ) ==> at(t, i, j))) && (dir.backward() ==> (at(t, i, j) ==> (lit_true(a, v) && at(
                    t,
                    i - 1,
                    j - 1,
                )) || at(t, i - 1, j))));
                lemma_cell(a, dir, v, prev, row, x, j);
            }
            lemma_cells_join(a, dir, v, prev, row, aux, k);
            lemma_all_true_concat(
                a,
                crate::circuit::or_clauses(dir, seq![v, prev[0]], row[0]),
                cells_clauses(dir, v, prev, row, aux, k),
            );
            lemma_all_true_concat(
                a,
                counter_clauses(dir, vars, k, out, base, i - 1),
                row_clauses(dir, v, prev, row, aux, k),
            );
        }
    }
}

/// The value that `t` and the gates determine for the counter variable
/// `x`, where it belongs to one of the first `i` rows; else its value under
/// `a`.
pub open spec fn counter_value(
    a: Assignment,
    t: Shape,
    vars: Seq<int>,
    k: int,
    shared: bool,
    base: int,
    i: int,
    x: int,
) -> bool
    decreases i,
{
    let n = vars.len() as int;
    if i <= 0 {
        val(a, x)
    } else {
        let lo = base + ids_after(k, shared, n, i - 1);
        let hi = base + ids_after(k, shared, n, i);
        if lo <= x < hi {
            if !(shared && i == n) && x < lo + k {
                at(t, i, x - lo)
            } else {
                lit_true(a, vars[i - 1]) && at(t, i - 1, x - (hi - (k - 1)))
            }
        } else {
            counter_value(a, t, vars, k, shared, base, i - 1, x)
        }
    }
}

/// `a` with the variables of a counter set to the values that `t` and the
/// gates determine.
pub open spec fn with_counter(
    a: Assignment,
    t: Shape,
    vars: Seq<int>,
    k: int,
    shared: bool,
    base: int,
) -> Assignment {
    |x: int| counter_value(a, t, vars, k, shared, base, vars.len() as int, x)
}

/// Outside the variables of the first `i` rows, nothing changes.
pub proof fn lemma_counter_value_outside(
    a: Assignment,
    t: Shape,
    vars: Seq<int>,
    k: int,
    shared: bool,
    base: int,
    i: int,
    x: int,
)
    requires
        1 <= k,
        0 <= i,
        x < base || x >= base + ids_after(k, shared, vars.len() as int, i),
    ensures
        counter_value(a, t, vars, k, shared, base, i, x) == val(a, x),
    decreases i,
{
    if i > 0 {
        lemma_ids_after_grows(k, shared, vars.len() as int, i - 1, i);
        lemma_ids_after_grows(k, shared, vars.len() as int, 0, i - 1);
        lemma_counter_value_outside(a, t, vars, k, shared, base, i - 1, x);
    }
}

/// The value of a variable of the first `i` rows does not depend on later
/// rows.
pub proof fn lemma_counter_value_stable(
    a: Assignment,
    t: Shape,
    vars: Seq<int>,
    k: int,
    shared: bool,
    base: int,
    i: int,
    m: int,
    x: int,
)
    requires
        1 <= k,
        0 <= i <= m,
        x < base + ids_after(k, shared, vars.len() as int, i),
    ensures
        counter_value(a, t, vars, k, shared, base, m, x) == counter_value(
            a,
            t,
            vars,
            k,
            shared,
            base,
            i,
            x,
        ),
    decreases m,
{
    if i < m {
        lemma_ids_after_grows(k, shared, vars.len() as int, i, m - 1);
        lemma_counter_value_stable(a, t, vars, k, shared, base, i, m - 1, x);
    }
}

/// What must hold for the variables of a counter to be set: the inputs,
/// and an outside row, use earlier variables only, and an outside row has
/// the values of the last row already.
pub open spec fn settable(
    a: Assignment,
    t: Shape,
    vars: Seq<int>,
    k: int,
    out: Option<Seq<int>>,
    base: int,
) -> bool {
    &&& 1 <= k
    &&& 1 <= base
    &&& 1 <= vars.len()
    &&& crate::semantics::lits_below(vars, base)
    &&& out is Some ==> out->0.len() >= k && crate::semantics::lits_below(out->0, base)
        && shaped_row(a, out->0, t, vars.len() as int, k)
}

/// Setting the variables of a counter to the values that `t` and the gates
/// determine changes no other variable and gives a counter with exactly
/// these values.
pub proof fn lemma_with_counter(
    a: Assignment,
    t: Shape,
    vars: Seq<int>,
    k: int,
    out: Option<Seq<int>>,
    base: int,
)
    requires
        settable(a, t, vars, k, out, base),
    ensures
        forall|x: int|
            x < base || x >= base + ids_after(k, out is Some, vars.len() as int, vars.len() as int)
                ==> #[trigger] val(with_counter(a, t, vars, k, out is Some, base), x) == val(a, x),
        shaped_counter(
            with_counter(a, t, vars, k, out is Some, base),
            t,
            vars,
            k,
            out,
            base,
            vars.len() as int,
        ),
{
    let n = vars.len() as int;
    let shared = out is Some;
    let b = with_counter(a, t, vars, k, shared, base);
    assert forall|x: int| x < base || x >= base + ids_after(k, shared, n, n) implies #[trigger] val(
        b,
        x,
    ) == val(a, x) by {
        lemma_counter_value_outside(a, t, vars, k, shared, base, n, x);
    }
    assert(crate::semantics::agree_below(b, a, base));
    lemma_shaped_prefix(a, b, t, vars, k, out, base, n);
}

/// The first `i` rows of the counter set by `with_counter` have the values
/// that `t` and the gates determine.
pub proof fn lemma_shaped_prefix(
    a: Assignment,
    b: Assignment,
    t: Shape,
    vars: Seq<int>,
    k: int,
    out: Option<Seq<int>>,
    base: int,
    i: int,
)
    requires
        settable(a, t, vars, k, out, base),
        0 <= i <= vars.len(),
        b == with_counter(a, t, vars, k, out is Some, base),
        crate::semantics::agree_below(b, a, base),
    ensures
        shaped_counter(b, t, vars, k, out, base, i),
    decreases i,
{
    let n = vars.len() as int;
    let shared = out is Some;
    if i >= 1 {
        lemma_shaped_prefix(a, b, t, vars, k, out, base, i - 1);
        crate::semantics::lemma_count_agree(b, a, vars, base, n);
        lemma_ids_after_grows(k, shared, n, 0, i - 1);
        lemma_ids_after_grows(k, shared, n, i - 1, i);
        let lo = base + ids_after(k, shared, n, i - 1);
        let hi = base + ids_after(k, shared, n, i);
        let row = counter_row(k, out, n, base, i);
        if shared && i == n {
            let o = out->0;
            assert forall|j: int| 0 <= j < k implies lit_true(b, #[trigger] row[j]) == at(
                t,
                i,
                j,
            ) by {
                assert(1 <= crate::semantics::var_of(o[j]) < base);
                assert(lit_true(a, o[j]) == at(t, n, j));
            }
        } else {
            assert forall|j: int| 0 <= j < k implies lit_true(b, #[trigger] row[j]) == at(
                t,
                i,
                j,
            ) by {
                let x = lo + j;
                assert(row[j] == x);
                lemma_counter_value_stable(a, t, vars, k, shared, base, i, n, x);
            }
        }
        if i >= 2 {
            let aux = hi - (k - 1);
            assert forall|x: int| aux <= x < aux + k - 1 implies #[trigger] val(b, x) == (lit_true(
                b,
                vars[i - 1],
            ) && at(t, i - 1, x - aux)) by {
                lemma_counter_value_stable(a, t, vars, k, shared, base, i, n, x);
                assert(lit_true(b, vars[i - 1]) == lit_true(a, vars[i - 1]));
            }
        }
    }
}

/// The values that the inputs themselves determine: output `j` of row `i`
/// is true exactly if more than `j` of the first `i` inputs are.
pub open spec fn exact_shape(a: Assignment, vars: Seq<int>) -> Shape {
    |i: int, j: int| count_true(a, vars, i) >= j + 1
}

/// The values that the inputs determine fit the gates in both directions.
pub proof fn lemma_exact_shape_fits(a: Assignment, dir: Direction, vars: Seq<int>, k: int, i: int)
    requires
        0 <= i <= vars.len(),
    ensures
        shape_fits(a, dir, exact_shape(a, vars), vars, k, i),
{
    let t = exact_shape(a, vars);
    assert forall|r: int| 1 <= r <= i implies #[trigger] row_fits(
        dir,
        t,
        lit_true(a, vars[r - 1]),
        r,
        k,
    ) by {
        lemma_count_range(a, vars, r - 1);
        assert(count_true(a, vars, 0) == 0);
        assert(count_true(a, vars, r) == count_true(a, vars, r - 1) + if lit_true(
            a,
            vars[r - 1],
        ) {
            1int
        } else {
            0int
        });
    }
}

/// The values in which every output is false fit the gates written
/// backward.
pub open spec fn low_shape() -> Shape {
    |i: int, j: int| false
}

/// The values in which the first row has its first output true and every
/// later row all outputs fit the gates written forward.
pub open spec fn high_shape() -> Shape {
    |i: int, j: int| i >= 2 || j == 0
}

/// The all-false values fit every gate written backward only.
pub proof fn lemma_low_shape_fits(a: Assignment, vars: Seq<int>, k: int, i: int)
    ensures
        shape_fits(a, Direction::OutToIn, low_shape(), vars, k, i),
{
}

/// The all-true values fit every gate written forward only.
pub proof fn lemma_high_shape_fits(a: Assignment, vars: Seq<int>, k: int, i: int)
    ensures
        shape_fits(a, Direction::InToOut, high_shape(), vars, k, i),
{
}

/// Whether a counter has the values that `t` and the gates determine
/// depends on its own variables, its inputs and its outside row only.
pub proof fn lemma_shaped_agree(
    a: Assignment,
    b: Assignment,
    t: Shape,
    vars: Seq<int>,
    k: int,
    out: Option<Seq<int>>,
    base: int,
    i: int,
)
    requires
        1 <= k,
        1 <= base,
        0 <= i <= vars.len(),
        shaped_counter(a, t, vars, k, out, base, i),
        crate::semantics::agree_below(
            a,
            b,
            base + ids_after(k, out is Some, vars.len() as int, i),
        ),
        crate::semantics::lits_below(vars, base),
        out is Some ==> out->0.len() >= k && crate::semantics::lits_below(out->0, base),
    ensures
        shaped_counter(b, t, vars, k, out, base, i),
    decreases i,
{
    let n = vars.len() as int;
    let shared = out is Some;
    if i >= 1 {
        lemma_ids_after_grows(k, shared, n, 0, i - 1);
        lemma_ids_after_grows(k, shared, n, i - 1, i);
        let lo = base + ids_after(k, shared, n, i - 1);
        let hi = base + ids_after(k, shared, n, i);
        assert(crate::semantics::agree_below(a, b, lo));
        lemma_shaped_agree(a, b, t, vars, k, out, base, i - 1);
        let row = counter_row(k, out, n, base, i);
        assert forall|j: int| 0 <= j < k implies lit_true(b, #[trigger] row[j]) == at(t, i, j) by {
            assert(lit_true(a, row[j]) == at(t, i, j));
            if shared && i == n {
                assert(1 <= crate::semantics::var_of((out->0)[j]) < base);
            } else {
                assert(row[j] == lo + j);
                assert(val(a, lo + j) == val(b, lo + j));
            }
        }
        if i >= 2 {
            let aux = hi - (k - 1);
            assert(1 <= crate::semantics::var_of(vars[i - 1]) < base);
            assert forall|x: int| aux <= x < aux + k - 1 implies #[trigger] val(b, x) == (lit_true(
                b,
                vars[i - 1],
            ) && at(t, i - 1, x - aux)) by {
                assert(val(a, x) == (lit_true(a, vars[i - 1]) && at(t, i - 1, x - aux)));
                assert(val(a, x) == val(b, x));
            }
        }
    }
}

} // verus!
