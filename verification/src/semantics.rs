//! What clauses mean: truth under an assignment of the solver variables.

use vstd::prelude::*;
use crate::circuit::{and_clauses, equal_clauses, or_clauses, zero_clauses, Direction};

verus! {

/// An assignment: the truth value of every solver variable.
pub type Assignment = spec_fn(int) -> bool;

/// The variable of a signed literal.
pub open spec fn var_of(l: int) -> int {
    if l < 0 {
        -l
    } else {
        l
    }
}

/// The truth value of variable `v` under `a`.
pub open spec fn val(a: Assignment, v: int) -> bool {
    a(v)
}

/// Whether literal `l` is true under `a`.
pub open spec fn lit_true(a: Assignment, l: int) -> bool {
    if l > 0 {
        val(a, l)
    } else {
        !val(a, -l)
    }
}

/// Whether one literal of `c` is true under `a`.
pub open spec fn clause_true(a: Assignment, c: Seq<int>) -> bool {
    exists|i: int| 0 <= i < c.len() && lit_true(a, #[trigger] c[i])
}

/// Whether every clause of `cs` is true under `a`.
pub open spec fn all_true(a: Assignment, cs: Seq<Seq<int>>) -> bool {
    forall|i: int| 0 <= i < cs.len() ==> clause_true(a, #[trigger] cs[i])
}

/// How many of the first `i` literals of `lits` are true under `a`.
pub open spec fn count_true(a: Assignment, lits: Seq<int>, i: int) -> int
    decreases i,
{
    if i <= 0 {
        0
    } else {
        count_true(a, lits, i - 1) + if lit_true(a, lits[i - 1]) {
            1int
        } else {
            0int
        }
    }
}

/// Whether `a` and `b` give the same value to every variable below `bound`.
pub open spec fn agree_below(a: Assignment, b: Assignment, bound: int) -> bool {
    forall|v: int| 1 <= v < bound ==> #[trigger] val(a, v) == val(b, v)
}

/// Whether every literal of `lits` is nonzero with a variable below `bound`.
pub open spec fn lits_below(lits: Seq<int>, bound: int) -> bool {
    forall|i: int| 0 <= i < lits.len() ==> 1 <= var_of(#[trigger] lits[i]) < bound
}

/// A clause list is true exactly if both its parts are.
pub proof fn lemma_all_true_concat(a: Assignment, x: Seq<Seq<int>>, y: Seq<Seq<int>>)
    ensures
        all_true(a, x + y) == (all_true(a, x) && all_true(a, y)),
{
    if all_true(a, x + y) {
        assert forall|i: int| 0 <= i < x.len() implies clause_true(a, #[trigger] x[i]) by {
            assert((x + y)[i] == x[i]);
        }
        assert forall|i: int| 0 <= i < y.len() implies clause_true(a, #[trigger] y[i]) by {
            assert((x + y)[x.len() + i] == y[i]);
        }
    }
    if all_true(a, x) && all_true(a, y) {
        assert forall|i: int| 0 <= i < (x + y).len() implies clause_true(
            a,
            #[trigger] (x + y)[i],
        ) by {
            if i < x.len() {
                assert((x + y)[i] == x[i]);
            } else {
                assert((x + y)[i] == y[i - x.len()]);
            }
        }
    }
}

/// Appending a clause.
pub proof fn lemma_all_true_push(a: Assignment, x: Seq<Seq<int>>, c: Seq<int>)
    ensures
        all_true(a, x.push(c)) == (all_true(a, x) && clause_true(a, c)),
{
    assert(x.push(c) =~= x + seq![c]);
    lemma_all_true_concat(a, x, seq![c]);
    lemma_all_true_one(a, c);
}

/// A list of one clause.
pub proof fn lemma_all_true_one(a: Assignment, c: Seq<int>)
    ensures
        all_true(a, seq![c]) == clause_true(a, c),
{
    assert(seq![c][0] == c);
}

/// A clause of one literal.
pub proof fn lemma_clause1(a: Assignment, x: int)
    ensures
        clause_true(a, seq![x]) == lit_true(a, x),
{
    assert(seq![x][0] == x);
}

/// A clause of two literals.
pub proof fn lemma_clause2(a: Assignment, x: int, y: int)
    ensures
        clause_true(a, seq![x, y]) == (lit_true(a, x) || lit_true(a, y)),
{
    let c = seq![x, y];
    assert(c[0] == x && c[1] == y);
}

/// A clause of three literals.
pub proof fn lemma_clause3(a: Assignment, x: int, y: int, z: int)
    ensures
        clause_true(a, seq![x, y, z]) == (lit_true(a, x) || lit_true(a, y) || lit_true(a, z)),
{
    let c = seq![x, y, z];
    assert(c[0] == x && c[1] == y && c[2] == z);
}

/// What the clauses of `x <-> y` say.
pub proof fn lemma_equal_gate(a: Assignment, dir: Direction, x: int, y: int)
    requires
        x != 0,
        y != 0,
    ensures
        all_true(a, equal_clauses(dir, x, y)) == ((dir.forward() ==> (lit_true(a, x) ==> lit_true(
            a,
            y,
        ))) && (dir.backward() ==> (lit_true(a, y) ==> lit_true(a, x)))),
{
    let f = crate::circuit::only_if(dir.forward(), seq![seq![-x, y]]);
    let b = crate::circuit::only_if(dir.backward(), seq![seq![x, -y]]);
    lemma_all_true_concat(a, f, b);
    lemma_all_true_one(a, seq![-x, y]);
    lemma_all_true_one(a, seq![x, -y]);
    lemma_clause2(a, -x, y);
    lemma_clause2(a, x, -y);
}

/// What the clause of `not x` says.
pub proof fn zero_gate_meaning(a: Assignment, x: int)
    requires
        x != 0,
    ensures
        all_true(a, zero_clauses(x)) == !lit_true(a, x),
{
    lemma_all_true_one(a, seq![-x]);
    lemma_clause1(a, -x);
}

/// What the clauses of `o <-> x AND y` say.
pub proof fn lemma_and_gate2(a: Assignment, dir: Direction, x: int, y: int, o: int)
    requires
        x != 0,
        y != 0,
        o != 0,
    ensures
        all_true(a, and_clauses(dir, seq![x, y], o)) == ((dir.forward() ==> (lit_true(a, x)
            && lit_true(a, y) ==> lit_true(a, o))) && (dir.backward() ==> (lit_true(a, o)
            ==> lit_true(a, x) && lit_true(a, y)))),
{
    let inputs = seq![x, y];
    let fc = crate::circuit::negs(inputs).push(o);
    let f = crate::circuit::only_if(dir.forward(), seq![fc]);
    let bs = crate::circuit::pair_clauses(-o, inputs);
    let b = crate::circuit::only_if(dir.backward(), bs);
    lemma_all_true_concat(a, f, b);
    lemma_all_true_one(a, fc);
    assert(fc =~= seq![-x, -y, o]);
    lemma_clause3(a, -x, -y, o);
    assert(bs =~= seq![seq![-o, x], seq![-o, y]]);
    assert(bs =~= seq![seq![-o, x]] + seq![seq![-o, y]]);
    lemma_all_true_concat(a, seq![seq![-o, x]], seq![seq![-o, y]]);
    lemma_all_true_one(a, seq![-o, x]);
    lemma_all_true_one(a, seq![-o, y]);
    lemma_clause2(a, -o, x);
    lemma_clause2(a, -o, y);
}

/// What the clauses of `o <-> x OR y` say.
pub proof fn lemma_or_gate2(a: Assignment, dir: Direction, x: int, y: int, o: int)
    requires
        x != 0,
        y != 0,
        o != 0,
    ensures
        all_true(a, or_clauses(dir, seq![x, y], o)) == ((dir.forward() ==> (lit_true(a, x)
            || lit_true(a, y) ==> lit_true(a, o))) && (dir.backward() ==> (lit_true(a, o)
            ==> lit_true(a, x) || lit_true(a, y)))),
{
    let inputs = seq![x, y];
    let fs = crate::circuit::guard_clauses(inputs, o);
    let f = crate::circuit::only_if(dir.forward(), fs);
    let bc = seq![-o] + inputs;
    let b = crate::circuit::only_if(dir.backward(), seq![bc]);
    lemma_all_true_concat(a, f, b);
    lemma_all_true_one(a, bc);
    assert(bc =~= seq![-o, x, y]);
    lemma_clause3(a, -o, x, y);
    assert(fs =~= seq![seq![-x, o]] + seq![seq![-y, o]]);
    lemma_all_true_concat(a, seq![seq![-x, o]], seq![seq![-y, o]]);
    lemma_all_true_one(a, seq![-x, o]);
    lemma_all_true_one(a, seq![-y, o]);
    lemma_clause2(a, -x, o);
    lemma_clause2(a, -y, o);
}

/// Assignments that agree on the variables of `lits` give the same count.
pub proof fn lemma_count_agree(a: Assignment, b: Assignment, lits: Seq<int>, bound: int, i: int)
    requires
        agree_below(a, b, bound),
        lits_below(lits, bound),
        0 <= i <= lits.len(),
    ensures
        count_true(a, lits, i) == count_true(b, lits, i),
        forall|j: int| 0 <= j < lits.len() ==> lit_true(a, #[trigger] lits[j]) == lit_true(b, lits[j]),
    decreases i,
{
    assert forall|j: int| 0 <= j < lits.len() implies lit_true(a, #[trigger] lits[j]) == lit_true(
        b,
        lits[j],
    ) by {
        assert(1 <= var_of(lits[j]) < bound);
    }
    if i > 0 {
        lemma_count_agree(a, b, lits, bound, i - 1);
    }
}

/// A count lies between 0 and the number of literals counted, and grows by
/// at most one per literal.
pub proof fn lemma_count_range(a: Assignment, lits: Seq<int>, i: int)
    requires
        0 <= i,
    ensures
        0 <= count_true(a, lits, i) <= i,
    decreases i,
{
    if i > 0 {
        lemma_count_range(a, lits, i - 1);
    }
}

/// Whether no literal of `lits` is true under `a`.
pub open spec fn none_true(a: Assignment, lits: Seq<int>) -> bool {
    forall|j: int| 0 <= j < lits.len() ==> !lit_true(a, #[trigger] lits[j])
}

/// Whether every literal of `lits` is nonzero.
pub open spec fn all_nonzero(lits: Seq<int>) -> bool {
    forall|j: int| 0 <= j < lits.len() ==> #[trigger] lits[j] != 0
}

/// The count is zero exactly if no literal is true.
pub proof fn lemma_count_zero(a: Assignment, lits: Seq<int>, i: int)
    requires
        0 <= i <= lits.len(),
    ensures
        (count_true(a, lits, i) == 0) == (forall|j: int|
            0 <= j < i ==> !lit_true(a, #[trigger] lits[j])),
    decreases i,
{
    if i > 0 {
        lemma_count_zero(a, lits, i - 1);
        lemma_count_range(a, lits, i - 1);
        if count_true(a, lits, i) == 0 {
            assert forall|j: int| 0 <= j < i implies !lit_true(a, #[trigger] lits[j]) by {
                if j == i - 1 {
                }
            }
        }
    }
}

/// What unit clauses against every literal say.
pub proof fn lemma_unit_negs(a: Assignment, lits: Seq<int>)
    requires
        all_nonzero(lits),
    ensures
        all_true(a, crate::constraints::util::unit_negs(lits)) == none_true(a, lits),
{
    let cs = crate::constraints::util::unit_negs(lits);
    if all_true(a, cs) {
        assert forall|j: int| 0 <= j < lits.len() implies !lit_true(a, #[trigger] lits[j]) by {
            assert(cs[j] == seq![-lits[j]]);
            lemma_clause1(a, -lits[j]);
        }
    }
    if none_true(a, lits) {
        assert forall|j: int| 0 <= j < cs.len() implies clause_true(a, #[trigger] cs[j]) by {
            assert(!lit_true(a, lits[j]));
            lemma_clause1(a, -lits[j]);
        }
    }
}

/// What the clauses `{-l, last}` for every literal `l` say.
pub proof fn lemma_guards(a: Assignment, lits: Seq<int>, last: int)
    requires
        all_nonzero(lits),
    ensures
        all_true(a, crate::circuit::guard_clauses(lits, last)) == (forall|j: int|
            0 <= j < lits.len() ==> (lit_true(a, #[trigger] lits[j]) ==> lit_true(a, last))),
{
    let cs = crate::circuit::guard_clauses(lits, last);
    if all_true(a, cs) {
        assert forall|j: int| 0 <= j < lits.len() implies (lit_true(a, #[trigger] lits[j])
            ==> lit_true(a, last)) by {
            assert(cs[j] == seq![-lits[j], last]);
            lemma_clause2(a, -lits[j], last);
        }
    }
    if forall|j: int| 0 <= j < lits.len() ==> (lit_true(a, #[trigger] lits[j]) ==> lit_true(a, last)) {
        assert forall|j: int| 0 <= j < cs.len() implies clause_true(a, #[trigger] cs[j]) by {
            assert(lit_true(a, lits[j]) ==> lit_true(a, last));
            lemma_clause2(a, -lits[j], last);
        }
    }
}

/// What a clause made of `lits` and one more literal says.
pub proof fn lemma_clause_push(a: Assignment, lits: Seq<int>, last: int)
    ensures
        clause_true(a, lits.push(last)) == (!none_true(a, lits) || lit_true(a, last)),
{
    let c = lits.push(last);
    if clause_true(a, c) {
        let i = choose|i: int| 0 <= i < c.len() && lit_true(a, #[trigger] c[i]);
        if i < lits.len() {
            assert(c[i] == lits[i]);
        }
    }
    if !none_true(a, lits) {
        let j = choose|j: int| 0 <= j < lits.len() && lit_true(a, #[trigger] lits[j]);
        assert(c[j] == lits[j]);
    }
    if lit_true(a, last) {
        assert(c[lits.len() as int] == last);
    }
}

/// `a` with variable `x` set to `b`.
pub open spec fn with_value(a: Assignment, x: int, b: bool) -> Assignment {
    |v: int| if v == x { b } else { a(v) }
}

/// Clauses with the negation of `r` appended say that the clauses hold
/// where `r` is true.
pub proof fn guarded_meaning(a: Assignment, clauses: Seq<Seq<int>>, r: int)
    requires
        r != 0,
    ensures
        all_true(a, crate::constraints::util::guarded(clauses, -r)) == (lit_true(a, r)
            ==> all_true(a, clauses)),
{
    let g = crate::constraints::util::guarded(clauses, -r);
    assert forall|i: int| 0 <= i < clauses.len() implies clause_true(a, #[trigger] g[i]) == (
    !lit_true(a, r) || clause_true(a, clauses[i])) by {
        lemma_clause_push(a, clauses[i], -r);
        let c = clauses[i];
        if clause_true(a, c) {
            let j = choose|j: int| 0 <= j < c.len() && lit_true(a, #[trigger] c[j]);
            assert(!none_true(a, c));
        }
        if !none_true(a, c) {
            let j = choose|j: int| 0 <= j < c.len() && lit_true(a, #[trigger] c[j]);
            assert(clause_true(a, c));
        }
    }
    if all_true(a, g) && lit_true(a, r) {
        assert forall|i: int| 0 <= i < clauses.len() implies clause_true(
            a,
            #[trigger] clauses[i],
        ) by {
            assert(clause_true(a, g[i]));
        }
    }
    if lit_true(a, r) ==> all_true(a, clauses) {
        assert forall|i: int| 0 <= i < g.len() implies clause_true(a, #[trigger] g[i]) by {
            if lit_true(a, r) {
                assert(clause_true(a, clauses[i]));
            }
        }
    }
}

/// Whether every literal of every clause of `cs` is nonzero with a
/// variable below `bound`.
pub open spec fn clauses_below(cs: Seq<Seq<int>>, bound: int) -> bool {
    forall|i: int| 0 <= i < cs.len() ==> lits_below(#[trigger] cs[i], bound)
}

/// Assignments that agree on the variables of the clauses make the same
/// clauses true.
pub proof fn lemma_all_true_agree(a: Assignment, b: Assignment, cs: Seq<Seq<int>>, bound: int)
    requires
        agree_below(a, b, bound),
        clauses_below(cs, bound),
    ensures
        all_true(a, cs) == all_true(b, cs),
{
    assert forall|i: int| 0 <= i < cs.len() implies clause_true(a, #[trigger] cs[i]) == clause_true(
        b,
        cs[i],
    ) by {
        let c = cs[i];
        assert(lits_below(c, bound));
        lemma_count_agree(a, b, c, bound, 0);
        if clause_true(a, c) {
            let j = choose|j: int| 0 <= j < c.len() && lit_true(a, #[trigger] c[j]);
            assert(lit_true(b, c[j]));
        }
        if clause_true(b, c) {
            let j = choose|j: int| 0 <= j < c.len() && lit_true(b, #[trigger] c[j]);
            assert(lit_true(a, c[j]));
        }
    }
    if all_true(a, cs) {
        assert forall|i: int| 0 <= i < cs.len() implies clause_true(b, #[trigger] cs[i]) by {
            assert(clause_true(a, cs[i]));
        }
    }
    if all_true(b, cs) {
        assert forall|i: int| 0 <= i < cs.len() implies clause_true(a, #[trigger] cs[i]) by {
            assert(clause_true(b, cs[i]));
        }
    }
}

/// Clause lists over variables below a bound stay so when joined, and
/// under a larger bound.
pub proof fn lemma_clauses_below_concat(x: Seq<Seq<int>>, y: Seq<Seq<int>>, lo: int, bound: int)
    requires
        clauses_below(x, lo),
        clauses_below(y, bound),
        lo <= bound,
    ensures
        clauses_below(x + y, bound),
{
    assert forall|i: int| 0 <= i < (x + y).len() implies lits_below(#[trigger] (x + y)[i], bound) by {
        if i < x.len() {
            let c = x[i];
            assert((x + y)[i] == c);
            assert(lits_below(c, lo));
            assert forall|j: int| 0 <= j < c.len() implies 1 <= var_of(#[trigger] c[j]) < bound by {
                assert(1 <= var_of(c[j]) < lo);
            }
        } else {
            assert((x + y)[i] == y[i - x.len()]);
        }
    }
}

/// The clauses of a gate over two inputs use the variables of its inputs
/// and of its output only.
pub proof fn lemma_gate2_below(dir: Direction, x: int, y: int, o: int, bound: int, conj: bool)
    requires
        1 <= var_of(x) < bound,
        1 <= var_of(y) < bound,
        1 <= var_of(o) < bound,
    ensures
        clauses_below(
            if conj {
                and_clauses(dir, seq![x, y], o)
            } else {
                or_clauses(dir, seq![x, y], o)
            },
            bound,
        ),
{
    let inputs = seq![x, y];
    let cs = if conj {
        and_clauses(dir, inputs, o)
    } else {
        or_clauses(dir, inputs, o)
    };
    assert forall|i: int| 0 <= i < cs.len() implies lits_below(#[trigger] cs[i], bound) by {
        let c = cs[i];
        assert forall|j: int| 0 <= j < c.len() implies 1 <= var_of(#[trigger] c[j]) < bound by {
            if conj {
                let f = crate::circuit::only_if(
                    dir.forward(),
                    seq![crate::circuit::negs(inputs).push(o)],
                );
                let b = crate::circuit::only_if(
                    dir.backward(),
                    crate::circuit::pair_clauses(-o, inputs),
                );
                if i < f.len() {
                    assert(c == crate::circuit::negs(inputs).push(o));
                    assert(c =~= seq![-x, -y, o]);
                } else {
                    let t = i - f.len();
                    assert(c == b[t]);
                    assert(c == seq![-o, inputs[t]]);
                }
            } else {
                let f = crate::circuit::only_if(
                    dir.forward(),
                    crate::circuit::guard_clauses(inputs, o),
                );
                let b = crate::circuit::only_if(dir.backward(), seq![seq![-o] + inputs]);
                if i < f.len() {
                    assert(c == seq![-inputs[i], o]);
                } else {
                    assert(c == seq![-o] + inputs);
                    assert(c =~= seq![-o, x, y]);
                }
            }
        }
    }
}

} // verus!
