//! Cardinality constraints, encoded with a sequential counter.

use vstd::prelude::*;
use crate::backend::{all_literals, ints, is_literal, lemma_ints_push, Backend};
use crate::circuit::{
    and_clauses, clause1, clause2, clause3, equal_clauses, or_clauses, zero_clauses, Circuit,
    Direction,
};
use crate::lit::VarType;
use crate::varmap::{
    all_well_formed, lemma_nones_keep, lemma_with_lits_extends, lit_ids, nones, with_lits, SatVar,
    VarMap,
};

verus! {

/// The `k` consecutive numbers from `base` on.
pub open spec fn fresh(base: int, k: int) -> Seq<int> {
    Seq::new(k as nat, |j: int| base + j)
}

/// How many fresh variables the first `i` rows of a counter take.
///
/// A row takes `k` outputs, and every row but the first `k - 1` more for its
/// AND gates. Where the last of the `n` rows is `shared`, its outputs are
/// given from outside and take none.
pub open spec fn ids_after(k: int, shared: bool, n: int, i: int) -> int
    decreases i,
{
    if i <= 0 {
        0
    } else if i == 1 {
        if shared && n == 1 {
            0
        } else {
            k
        }
    } else {
        ids_after(k, shared, n, i - 1) + if shared && i == n {
            k - 1
        } else {
            2 * k - 1
        }
    }
}

/// The clauses of the first row: its first output equals the first input,
/// the other outputs are false.
pub open spec fn first_row_clauses(dir: Direction, v: int, row: Seq<int>, k: int) -> Seq<
    Seq<int>,
> {
    equal_clauses(dir, v, row[0]) + Seq::new((k - 1) as nat, |j: int| seq![-row[j + 1]])
}

/// The clauses of output `j >= 1` in a later row: the AND of the input and
/// the previous row's output `j - 1`, defined in both directions as `a`, and
/// the output as the OR of `a` and the previous row's output `j`.
pub open spec fn cell_clauses(
    dir: Direction,
    v: int,
    prev: Seq<int>,
    row: Seq<int>,
    a: int,
    j: int,
) -> Seq<Seq<int>> {
    and_clauses(Direction::Both, seq![v, prev[j - 1]], a) + or_clauses(
        dir,
        seq![a, prev[j]],
        row[j],
    )
}

/// The clauses of the outputs `1 .. j` of a later row, whose AND gates are
/// numbered from `aux` on.
pub open spec fn cells_clauses(
    dir: Direction,
    v: int,
    prev: Seq<int>,
    row: Seq<int>,
    aux: int,
    j: int,
) -> Seq<Seq<int>>
    decreases j,
{
    if j <= 1 {
        Seq::empty()
    } else {
        cells_clauses(dir, v, prev, row, aux, j - 1) + cell_clauses(
            dir,
            v,
            prev,
            row,
            aux + j - 2,
            j - 1,
        )
    }
}

/// The clauses of a later row: output 0 is the OR of the input and the
/// previous row's output 0; then the outputs `1 .. k`.
pub open spec fn row_clauses(
    dir: Direction,
    v: int,
    prev: Seq<int>,
    row: Seq<int>,
    aux: int,
    k: int,
) -> Seq<Seq<int>> {
    or_clauses(dir, seq![v, prev[0]], row[0]) + cells_clauses(dir, v, prev, row, aux, k)
}

/// The outputs of row `i` (counted from 1) of a counter over `n` inputs
/// whose fresh variables start at `base`.
pub open spec fn counter_row(k: int, out: Option<Seq<int>>, n: int, base: int, i: int) -> Seq<
    int,
> {
    if out is Some && i == n {
        out->0
    } else {
        fresh(base + ids_after(k, out is Some, n, i - 1), k)
    }
}

/// The clauses of the first `i` rows of a counter over the inputs `vars`.
pub open spec fn counter_clauses(
    dir: Direction,
    vars: Seq<int>,
    k: int,
    out: Option<Seq<int>>,
    base: int,
    i: int,
) -> Seq<Seq<int>>
    decreases i,
{
    let n = vars.len() as int;
    if i <= 0 {
        Seq::empty()
    } else if i == 1 {
        first_row_clauses(dir, vars[0], counter_row(k, out, n, base, 1), k)
    } else {
        counter_clauses(dir, vars, k, out, base, i - 1) + row_clauses(
            dir,
            vars[i - 1],
            counter_row(k, out, n, base, i - 1),
            counter_row(k, out, n, base, i),
            base + ids_after(k, out is Some, n, i) - (k - 1),
            k,
        )
    }
}

/// The rows of `ids_after` never shrink, and take at most `2k - 1` each.
pub proof fn lemma_ids_after_grows(k: int, shared: bool, n: int, i: int, j: int)
    requires
        1 <= k,
        0 <= i <= j,
    ensures
        0 <= ids_after(k, shared, n, i) <= ids_after(k, shared, n, j),
    decreases j,
{
    if i < j {
        lemma_ids_after_grows(k, shared, n, i, j - 1);
    } else if i > 0 {
        lemma_ids_after_grows(k, shared, n, i - 1, i - 1);
    }
}

/// One more anonymous entry.
pub proof fn lemma_nones_push<V>(names: Seq<Option<V>>, n: int)
    requires
        0 <= n,
    ensures
        (names + nones::<V>(n)).push(None) == names + nones::<V>(n + 1),
        (names + nones::<V>(n)).len() == names.len() + n,
        names + nones::<V>(0) == names,
{
    assert((names + nones::<V>(n)).push(None) =~= names + nones::<V>(n + 1));
    assert(names + nones::<V>(0) =~= names);
}

/// Runs of anonymous entries add up.
pub proof fn lemma_nones_add<V>(names: Seq<Option<V>>, a: int, b: int)
    requires
        0 <= a,
        0 <= b,
    ensures
        (names + nones::<V>(a)) + nones::<V>(b) == names + nones::<V>(a + b),
{
    assert((names + nones::<V>(a)) + nones::<V>(b) =~= names + nones::<V>(a + b));
}

/// Numbers `k` fresh anonymous variables and returns them in order.
pub fn new_vars<V: SatVar>(varmap: &mut VarMap<V>, k: u32) -> (row: Vec<i32>)
    requires
        old(varmap).wf(),
        old(varmap)@.len() + k < i32::MAX,
    ensures
        final(varmap).wf(),
        final(varmap)@ == old(varmap)@ + nones::<V>(k as int),
        ints(row@) == fresh(old(varmap)@.len() as int + 1, k as int),
        all_literals(row@),
        row@.len() == k,
{
    let mut row: Vec<i32> = Vec::new();
    let mut j: u32 = 0;
    proof {
        lemma_nones_push::<V>(old(varmap)@, 0);
    }
    while j < k
        invariant
            j <= k,
            varmap.wf(),
            old(varmap)@.len() + k < i32::MAX,
            varmap@ == old(varmap)@ + nones::<V>(j as int),
            row@.len() == j,
            all_literals(row@),
            ints(row@) == fresh(old(varmap)@.len() as int + 1, j as int),
        decreases k - j,
    {
        proof {
            lemma_nones_push::<V>(old(varmap)@, j as int);
        }
        let ghost before = row@;
        let id = varmap.new_var();
        row.push(id);
        proof {
            lemma_ints_push(before, id);
            assert(ints(row@) =~= fresh(old(varmap)@.len() as int + 1, j as int + 1));
        }
        j += 1;
    }
    row
}

/// Writes the clauses of one later row of a counter: `prev` is the row
/// before, `row` the row defined, `v` the input. The AND gates take the next
/// `k - 1` free numbers.
pub fn encode_counter_row<V: SatVar, B: Backend>(
    dir: Direction,
    v: i32,
    prev: &Vec<i32>,
    row: &Vec<i32>,
    k: u32,
    backend: &mut B,
    varmap: &mut VarMap<V>,
)
    requires
        old(varmap).wf(),
        1 <= k,
        old(varmap)@.len() + k - 1 < i32::MAX,
        is_literal(v),
        k <= prev@.len(),
        all_literals(prev@),
        k <= row@.len(),
        all_literals(row@),
    ensures
        final(varmap).wf(),
        final(varmap)@ == old(varmap)@ + nones::<V>(k - 1),
        final(backend).clauses() == old(backend).clauses() + row_clauses(
            dir,
            v as int,
            ints(prev@),
            ints(row@),
            old(varmap)@.len() as int + 1,
            k as int,
        ),
{
    let circuit = Circuit::new(dir);
    let both = Circuit::new(Direction::Both);
    let ghost names = varmap@;
    let ghost aux = names.len() as int + 1;
    proof {
        lemma_nones_push::<V>(names, 0);
        assert(ints(prev@)[0] == prev@[0]);
        assert(ints(row@)[0] == row@[0]);
    }
    circuit.or_gate(backend, &clause2(v, prev[0]), row[0]);
    let ghost after_or = backend.clauses();
    let mut j: usize = 1;
    while j < k as usize
        invariant
            1 <= j <= k,
            names.len() + k - 1 < i32::MAX,
            aux == names.len() + 1,
            varmap.wf(),
            varmap@ == names + nones::<V>(j - 1),
            k <= prev@.len(),
            all_literals(prev@),
            k <= row@.len(),
            all_literals(row@),
            is_literal(v),
            circuit.dir == dir,
            both.dir == Direction::Both,
            backend.clauses() == after_or + cells_clauses(
                dir,
                v as int,
                ints(prev@),
                ints(row@),
                aux,
                j as int,
            ),
        decreases k - j,
    {
        proof {
            lemma_nones_push::<V>(names, j - 1);
            assert(ints(prev@)[j - 1] == prev@[j - 1]);
            assert(ints(prev@)[j as int] == prev@[j as int]);
            assert(ints(row@)[j as int] == row@[j as int]);
        }
        let ghost cells = backend.clauses();
        let a = varmap.new_var();
        both.and_gate(backend, &clause2(v, prev[j - 1]), a);
        circuit.or_gate(backend, &clause2(a, prev[j]), row[j]);
        proof {
            assert(backend.clauses() =~= cells + cell_clauses(
                dir,
                v as int,
                ints(prev@),
                ints(row@),
                aux + j - 1,
                j as int,
            ));
            assert(backend.clauses() =~= after_or + cells_clauses(
                dir,
                v as int,
                ints(prev@),
                ints(row@),
                aux,
                j as int + 1,
            ));
        }
        j += 1;
    }
    assert(backend.clauses() =~= old(backend).clauses() + row_clauses(
        dir,
        v as int,
        ints(prev@),
        ints(row@),
        aux,
        k as int,
    ));
}

/// Writes the clauses of the first row of a counter.
pub fn encode_counter_first_row<B: Backend>(
    dir: Direction,
    v: i32,
    row: &Vec<i32>,
    k: u32,
    backend: &mut B,
)
    requires
        1 <= k <= row@.len(),
        is_literal(v),
        all_literals(row@),
    ensures
        final(backend).clauses() == old(backend).clauses() + first_row_clauses(
            dir,
            v as int,
            ints(row@),
            k as int,
        ),
{
    let circuit = Circuit::new(dir);
    assert(ints(row@)[0] == row@[0]);
    circuit.equal(backend, v, row[0]);
    let ghost start = backend.clauses();
    let ghost zeros = Seq::new((k - 1) as nat, |j: int| seq![-ints(row@)[j + 1]]);
    let mut j: usize = 1;
    while j < k as usize
        invariant
            1 <= j <= k,
            k <= row@.len(),
            all_literals(row@),
            zeros == Seq::new((k - 1) as nat, |j: int| seq![-ints(row@)[j + 1]]),
            backend.clauses() == start + zeros.take(j - 1),
        decreases k - j,
    {
        assert(ints(row@)[j as int] == row@[j as int]);
        circuit.set_zero(backend, row[j]);
        assert(backend.clauses() =~= start + zeros.take(j as int));
        j += 1;
    }
    assert(zeros.take(k - 1) =~= zeros);
    assert(backend.clauses() =~= old(backend).clauses() + first_row_clauses(
        dir,
        v as int,
        ints(row@),
        k as int,
    ));
}

/// The outside row of a counter as mathematical integers.
pub open spec fn out_ints(out: Option<&Vec<i32>>) -> Option<Seq<int>> {
    match out {
        Some(o) => Some(ints(o@)),
        None => None,
    }
}

/// Whether a counter over `lits` with `k` outputs can be encoded into
/// `names`: there is an output and an input, and the variable numbers stay
/// within the solver's integer type.
pub open spec fn counter_fits<V>(
    names: Seq<Option<V>>,
    lits: Seq<VarType<V>>,
    k: int,
    shared: bool,
) -> bool {
    &&& 1 <= k
    &&& 1 <= lits.len()
    &&& all_well_formed(lits)
    &&& with_lits(names, lits).len() + ids_after(k, shared, lits.len() as int, lits.len() as int)
        < i32::MAX
}

/// What encoding a counter does: the inputs are numbered first, then the
/// fresh variables; the clauses are those of all rows; the result is the
/// last row.
pub open spec fn counter_encoded<V>(
    names: Seq<Option<V>>,
    lits: Seq<VarType<V>>,
    k: int,
    dir: Direction,
    out: Option<Seq<int>>,
) -> (Seq<Option<V>>, Seq<Seq<int>>, Seq<int>) {
    let named = with_lits(names, lits);
    let n = lits.len() as int;
    let base = named.len() as int + 1;
    (
        named + nones::<V>(ids_after(k, out is Some, n, n)),
        counter_clauses(dir, lit_ids(named, lits), k, out, base, n),
        counter_row(k, out, n, base, n),
    )
}

/// Encodes a sequential counter over `lits` with `k` outputs and returns its
/// last row: output `j` stands for "more than `j` inputs are true". Where
/// `out` is given, it serves as the last row.
pub fn encode_cardinality_constraint<V: SatVar, B: Backend>(
    lits: &Vec<VarType<V>>,
    k: u32,
    dir: Direction,
    out: Option<&Vec<i32>>,
    backend: &mut B,
    varmap: &mut VarMap<V>,
) -> (row: Vec<i32>)
    requires
        old(varmap).wf(),
        counter_fits(old(varmap)@, lits@, k as int, out is Some),
        out matches Some(o) ==> k <= o@.len() && all_literals(o@),
    ensures
        final(varmap).wf(),
        final(varmap)@ == counter_encoded(old(varmap)@, lits@, k as int, dir, out_ints(out)).0,
        final(backend).clauses() == old(backend).clauses() + counter_encoded(
            old(varmap)@,
            lits@,
            k as int,
            dir,
            out_ints(out),
        ).1,
        ints(row@) == counter_encoded(old(varmap)@, lits@, k as int, dir, out_ints(out)).2,
        all_literals(row@),
        row@.len() >= k,
{
    let n: usize = lits.len();
    let ghost names = varmap@;
    let ghost named = with_lits(names, lits@);
    let ghost base = named.len() as int + 1;
    let ghost shared = out is Some;
    let ghost outs = out_ints(out);
    let ghost kk = k as int;
    let ghost nn = n as int;
    proof {
        lemma_ids_after_grows(kk, shared, nn, 0, nn);
        lemma_ids_after_grows(kk, shared, nn, 1, nn);
    }
    let vars = varmap.add_vars(lits);
    let ghost ivars = lit_ids(named, lits@);

    let mut prev: Vec<i32> = if n == 1 && out.is_some() {
        crate::mock::copy_row(out.unwrap())
    } else {
        new_vars(varmap, k)
    };
    proof {
        lemma_nones_push::<V>(named, 0);
        assert(ints(vars@)[0] == vars@[0]);
    }
    encode_counter_first_row(dir, vars[0], &prev, k, backend);

    let mut i: usize = 1;
    while i < n
        invariant
            1 <= i <= n,
            n == lits@.len(),
            nn == n,
            kk == k,
            1 <= k,
            shared == (out is Some),
            outs == out_ints(out),
            out matches Some(o) ==> k <= o@.len() && all_literals(o@),
            base == named.len() + 1,
            named.len() + ids_after(kk, shared, nn, nn) < i32::MAX,
            varmap.wf(),
            varmap@ == named + nones::<V>(ids_after(kk, shared, nn, i as int)),
            vars@.len() == n,
            all_literals(vars@),
            ints(vars@) == ivars,
            k <= prev@.len(),
            all_literals(prev@),
            ints(prev@) == counter_row(kk, outs, nn, base, i as int),
            backend.clauses() == old(backend).clauses() + counter_clauses(
                dir,
                ivars,
                kk,
                outs,
                base,
                i as int,
            ),
        decreases n - i,
    {
        let ghost done = ids_after(kk, shared, nn, i as int);
        let ghost last = shared && i as int + 1 == nn;
        let ghost step = ids_after(kk, shared, nn, i as int + 1);
        proof {
            assert(step == done + if last { kk - 1 } else { 2 * kk - 1 });
            lemma_ids_after_grows(kk, shared, nn, i as int + 1, nn);
            lemma_ids_after_grows(kk, shared, nn, 0, i as int);
            lemma_nones_push::<V>(named, done);
            assert(ints(vars@)[i as int] == vars@[i as int]);
        }
        let row: Vec<i32> = if i + 1 == n && out.is_some() {
            crate::mock::copy_row(out.unwrap())
        } else {
            proof {
                lemma_nones_add::<V>(named, done, kk);
            }
            new_vars(varmap, k)
        };
        let ghost mid = varmap@;
        let ghost taken = if last { done } else { done + kk };
        proof {
            assert(mid == named + nones::<V>(taken));
            lemma_nones_push::<V>(named, taken);
            lemma_nones_add::<V>(named, taken, kk - 1);
            assert(ints(row@) == counter_row(kk, outs, nn, base, i as int + 1));
        }
        let ghost before = backend.clauses();
        encode_counter_row(dir, vars[i], &prev, &row, k, backend, varmap);
        proof {
            assert(varmap@ == named + nones::<V>(step));
            assert(mid.len() + 1 == base + step - (kk - 1));
            assert(counter_clauses(dir, ivars, kk, outs, base, i as int + 1) == counter_clauses(
                dir,
                ivars,
                kk,
                outs,
                base,
                i as int,
            ) + row_clauses(
                dir,
                ivars[i as int],
                counter_row(kk, outs, nn, base, i as int),
                counter_row(kk, outs, nn, base, i as int + 1),
                base + step - (kk - 1),
                kk,
            ));
            assert(backend.clauses() == before + row_clauses(
                dir,
                ivars[i as int],
                ints(prev@),
                ints(row@),
                mid.len() as int + 1,
                kk,
            ));
            assert((old(backend).clauses() + counter_clauses(
                dir,
                ivars,
                kk,
                outs,
                base,
                i as int,
            )) + row_clauses(
                dir,
                ivars[i as int],
                ints(prev@),
                ints(row@),
                mid.len() as int + 1,
                kk,
            ) =~= old(backend).clauses() + counter_clauses(
                dir,
                ivars,
                kk,
                outs,
                base,
                i as int + 1,
            ));
        }
        prev = row;
        i += 1;
    }
    prev
}

} // verus!
