//! Several groups of literals with the same number of true literals each.

use vstd::prelude::*;
use crate::backend::{all_literals, ints, is_literal, lemma_ints_push, Backend};
use crate::circuit::{clause1, clause3, negs, only_if, Direction};
use crate::constraints::cardinality::{
    counter_encoded, counter_fits, encode_cardinality_constraint, fresh, lemma_ids_after_grows,
    lemma_nones_push, new_vars,
};
use crate::constraints::util::{pick_repr, repr_lit, repr_names};
use crate::constraints::{repr_ok, Constraint, ConstraintRepr, Encoded};
use crate::lit::VarType;
use crate::varmap::{lemma_with_lits_extends, nones, SatVar, VarMap};

verus! {

/// Every group has the same number of true literals.
#[derive(Debug, Clone)]
pub struct SameCardinality<V> {
    lits: Vec<Vec<VarType<V>>>,
}

/// The groups held in `v`.
pub open spec fn groups_of<V>(v: Seq<Vec<VarType<V>>>) -> Seq<Seq<VarType<V>>> {
    Seq::new(v.len(), |i: int| v[i]@)
}

/// The length of the longest of the first `g` groups; 0 for none.
pub open spec fn max_len<V>(groups: Seq<Seq<VarType<V>>>, g: int) -> int
    decreases g,
{
    if g <= 0 {
        0
    } else {
        let m = max_len(groups, g - 1);
        if groups[g - 1].len() > m {
            groups[g - 1].len() as int
        } else {
            m
        }
    }
}

/// The length of the shortest of the first `g >= 1` groups.
pub open spec fn min_len<V>(groups: Seq<Seq<VarType<V>>>, g: int) -> int
    decreases g,
{
    if g <= 1 {
        groups[0].len() as int
    } else {
        let m = min_len(groups, g - 1);
        if groups[g - 1].len() < m {
            groups[g - 1].len() as int
        } else {
            m
        }
    }
}

/// Unit clauses against the outputs of `row` from the last down to
/// position `from`.
pub open spec fn tail_zeros(row: Seq<int>, from: int) -> Seq<Seq<int>> {
    Seq::new((row.len() - from) as nat, |t: int| seq![-row[row.len() - 1 - t]])
}

/// The first `g` groups counted into the one row `row`: the table
/// afterwards and the clauses written.
pub open spec fn shared_counters<V>(
    names: Seq<Option<V>>,
    groups: Seq<Seq<VarType<V>>>,
    row: Seq<int>,
    g: int,
) -> (Seq<Option<V>>, Seq<Seq<int>>)
    decreases g,
{
    if g <= 0 {
        (names, Seq::empty())
    } else {
        let p = shared_counters(names, groups, row, g - 1);
        let c = counter_encoded(
            p.0,
            groups[g - 1],
            groups[g - 1].len() as int,
            Direction::Both,
            Some(row),
        );
        (c.0, p.1 + c.1)
    }
}

/// Whether the first `g` groups can be counted into one row.
pub open spec fn shared_fits<V>(
    names: Seq<Option<V>>,
    groups: Seq<Seq<VarType<V>>>,
    row: Seq<int>,
    g: int,
) -> bool
    decreases g,
{
    g <= 0 || (shared_fits(names, groups, row, g - 1) && counter_fits(
        shared_counters(names, groups, row, g - 1).0,
        groups[g - 1],
        groups[g - 1].len() as int,
        true,
    ))
}

/// Whether the constraint over `groups` can be encoded into `names`: no
/// group is empty and the variable numbers stay in range.
pub open spec fn same_fits<V>(names: Seq<Option<V>>, groups: Seq<Seq<VarType<V>>>) -> bool {
    let m = groups.len() as int;
    let width = max_len(groups, m);
    m == 0 || (names.len() + width < i32::MAX && shared_fits(
        names + nones::<V>(width),
        groups,
        fresh(names.len() as int + 1, width),
        m,
    ))
}

/// The encoding of the constraint over `groups`: nothing for no group;
/// else a fresh row as long as the longest group, unit clauses against its
/// outputs beyond the shortest group's length, and every group counted into
/// that row in both directions.
pub open spec fn same_encoded<V>(names: Seq<Option<V>>, groups: Seq<Seq<VarType<V>>>) -> Encoded<
    V,
> {
    let m = groups.len() as int;
    if m == 0 {
        Encoded { names: names, clauses: Seq::empty(), repr: 0 }
    } else {
        let width = max_len(groups, m);
        let row = fresh(names.len() as int + 1, width);
        let c = shared_counters(names + nones::<V>(width), groups, row, m);
        Encoded { names: c.0, clauses: tail_zeros(row, min_len(groups, m)) + c.1, repr: 0 }
    }
}

/// The lengths of the longest and the shortest group.
pub fn group_lens<V>(lits: &Vec<Vec<VarType<V>>>) -> (r: (usize, usize))
    requires
        lits@.len() >= 1,
    ensures
        r.0 == max_len(groups_of(lits@), lits@.len() as int),
        r.1 == min_len(groups_of(lits@), lits@.len() as int),
        r.1 <= r.0,
{
    let mut max: usize = lits[0].len();
    let mut min: usize = lits[0].len();
    let mut g: usize = 1;
    assert(max_len(groups_of(lits@), 0) == 0);
    while g < lits.len()
        invariant
            1 <= g <= lits@.len(),
            max == max_len(groups_of(lits@), g as int),
            min == min_len(groups_of(lits@), g as int),
            min <= max,
        decreases lits@.len() - g,
    {
        let l = lits[g].len();
        if l > max {
            max = l;
        }
        if l < min {
            min = l;
        }
        g += 1;
    }
    (max, min)
}

/// Writes unit clauses against the outputs of `row` from the last down to
/// position `from`.
pub fn add_tail_zeros<B: Backend>(backend: &mut B, row: &Vec<i32>, from: usize)
    requires
        from <= row@.len(),
        all_literals(row@),
    ensures
        final(backend).clauses() == old(backend).clauses() + tail_zeros(ints(row@), from as int),
{
    let n = row.len();
    let mut t: usize = 0;
    let ghost zeros = tail_zeros(ints(row@), from as int);
    while t < n - from
        invariant
            t <= n - from,
            from <= n,
            n == row@.len(),
            all_literals(row@),
            zeros == tail_zeros(ints(row@), from as int),
            backend.clauses() == old(backend).clauses() + zeros.take(t as int),
        decreases n - from - t,
    {
        assert(ints(row@)[n - 1 - t] == row@[n - 1 - t]);
        backend.add_clause(&clause1(-row[n - 1 - t]));
        assert(backend.clauses() =~= old(backend).clauses() + zeros.take(t as int + 1));
        t += 1;
    }
    assert(zeros.take(n - from) =~= zeros);
}

/// Counting fewer groups fits too.
pub proof fn lemma_shared_fits_prefix<V>(
    names: Seq<Option<V>>,
    groups: Seq<Seq<VarType<V>>>,
    row: Seq<int>,
    g: int,
    m: int,
)
    requires
        0 <= g <= m,
        shared_fits(names, groups, row, m),
    ensures
        shared_fits(names, groups, row, g),
    decreases m,
{
    if g < m {
        lemma_shared_fits_prefix(names, groups, row, g, m - 1);
    }
}

impl<V: SatVar> SameCardinality<V> {
    /// The groups of this constraint, in the order they were added.
    pub closed spec fn groups(self) -> Seq<Seq<VarType<V>>> {
        groups_of(self.lits@)
    }

    /// A constraint over no group.
    pub fn new() -> (c: Self)
        ensures
            c.groups() == Seq::<Seq<VarType<V>>>::empty(),
    {
        let c = SameCardinality { lits: Vec::new() };
        assert(c.groups() =~= Seq::<Seq<VarType<V>>>::empty());
        c
    }

    /// Adds one group.
    pub fn add_lits(&mut self, lits: Vec<VarType<V>>) -> (r: &mut Self)
        ensures
            r.groups() == old(self).groups().push(lits@),
            *final(self) == *final(r),
    {
        self.lits.push(lits);
        assert(self.groups() =~= old(self).groups().push(lits@));
        self
    }
}

/// No group is longer than the longest, nor shorter than the shortest.
pub proof fn lemma_len_bounds<V>(groups: Seq<Seq<VarType<V>>>, g: int, m: int)
    requires
        0 <= g < m,
    ensures
        min_len(groups, m) <= groups[g].len() <= max_len(groups, m),
        0 <= min_len(groups, m) <= max_len(groups, m),
    decreases m,
{
    if g < m - 1 {
        lemma_len_bounds(groups, g, m - 1);
    } else if m >= 2 {
        lemma_len_bounds(groups, 0, m - 1);
    }
}

/// A group that a counter fits has fewer literals than the solver has
/// variable numbers.
pub proof fn lemma_fits_len<V>(names: Seq<Option<V>>, lits: Seq<VarType<V>>)
    requires
        counter_fits(names, lits, lits.len() as int, true),
    ensures
        1 <= lits.len() < i32::MAX,
{
    let n = lits.len() as int;
    if n >= 2 {
        lemma_ids_after_grows(n, true, n, 1, n);
    }
}

impl<V: SatVar> Constraint<V> for SameCardinality<V> {
    open spec fn fits(self, names: Seq<Option<V>>) -> bool {
        same_fits(names, self.groups())
    }

    open spec fn encoded(self, names: Seq<Option<V>>) -> Encoded<V> {
        same_encoded(names, self.groups())
    }

    fn encode<B: Backend>(self, backend: &mut B, varmap: &mut VarMap<V>) {
        let m = self.lits.len();
        if m == 0 {
            assert(backend.clauses() =~= old(backend).clauses() + Seq::<Seq<int>>::empty());
            return ;
        }
        let ghost groups = self.groups();
        let ghost names = varmap@;
        let (max, min) = group_lens(&self.lits);
        let row = new_vars(varmap, max as u32);
        let ghost irow = ints(row@);
        let ghost n1 = varmap@;
        add_tail_zeros(backend, &row, min);
        let ghost start = backend.clauses();
        let mut g: usize = 0;
        assert(start =~= start + Seq::<Seq<int>>::empty());
        while g < m
            invariant
                g <= m,
                m == self.lits@.len(),
                groups == groups_of(self.lits@),
                max == max_len(groups, m as int),
                shared_fits(n1, groups, irow, m as int),
                irow == ints(row@),
                row@.len() == max,
                all_literals(row@),
                varmap.wf(),
                varmap@ == shared_counters(n1, groups, irow, g as int).0,
                backend.clauses() == start + shared_counters(n1, groups, irow, g as int).1,
            decreases m - g,
        {
            proof {
                lemma_shared_fits_prefix(n1, groups, irow, g as int + 1, m as int);
                lemma_len_bounds(groups, g as int, m as int);
                lemma_fits_len(varmap@, groups[g as int]);
            }
            let len = self.lits[g].len();
            let ghost before = backend.clauses();
            encode_cardinality_constraint(
                &self.lits[g],
                len as u32,
                Direction::Both,
                Some(&row),
                backend,
                varmap,
            );
            assert(backend.clauses() =~= start + shared_counters(
                n1,
                groups,
                irow,
                g as int + 1,
            ).1);
            g += 1;
        }
        assert(backend.clauses() =~= old(backend).clauses() + same_encoded(
            names,
            groups,
        ).clauses);
    }
}

/// The first `g` groups, each counted into a fresh row of its own of
/// `width` outputs: the table afterwards, the clauses written, and the rows.
pub open spec fn own_counters<V>(
    names: Seq<Option<V>>,
    groups: Seq<Seq<VarType<V>>>,
    width: int,
    g: int,
) -> (Seq<Option<V>>, Seq<Seq<int>>, Seq<Seq<int>>)
    decreases g,
{
    if g <= 0 {
        (names, Seq::empty(), Seq::empty())
    } else {
        let p = own_counters(names, groups, width, g - 1);
        let row = fresh(p.0.len() as int + 1, width);
        let k = groups[g - 1].len() as int;
        let c = counter_encoded(p.0 + nones::<V>(width), groups[g - 1], k, Direction::Both, Some(row));
        (c.0, p.1 + tail_zeros(row, k) + c.1, p.2.push(row))
    }
}

/// Whether the first `g` groups can be counted into rows of their own.
pub open spec fn own_fits<V>(
    names: Seq<Option<V>>,
    groups: Seq<Seq<VarType<V>>>,
    width: int,
    g: int,
) -> bool
    decreases g,
{
    g <= 0 || {
        let p = own_counters(names, groups, width, g - 1);
        &&& own_fits(names, groups, width, g - 1)
        &&& p.0.len() + width < i32::MAX
        &&& counter_fits(
            p.0 + nones::<V>(width),
            groups[g - 1],
            groups[g - 1].len() as int,
            true,
        )
    }
}

/// Output `i` of every row, in the order of the rows.
pub open spec fn column(rows: Seq<Seq<int>>, i: int) -> Seq<int> {
    Seq::new(rows.len(), |g: int| rows[g][i])
}

/// The clauses by which `e` forces output `i` to agree over all rows: each
/// row's output forces the next row's, and the last row's the first's.
pub open spec fn chain_clauses(rows: Seq<Seq<int>>, i: int, e: int) -> Seq<Seq<int>> {
    Seq::new((rows.len() - 1) as nat, |w: int| seq![-rows[w][i], rows[w + 1][i], -e]).push(
        seq![-rows[rows.len() - 1][i], rows[0][i], -e],
    )
}

/// The clauses that define `e` as "output `i` agrees over all rows": `e`
/// is forced where all are false and where all are true; where `equal`,
/// `e` also forces the agreement.
pub open spec fn equiv_clauses(rows: Seq<Seq<int>>, i: int, e: int, equal: bool) -> Seq<
    Seq<int>,
> {
    seq![column(rows, i).push(e), negs(column(rows, i)).push(e)] + only_if(
        equal,
        chain_clauses(rows, i, e),
    )
}

/// The clauses that define the agreement variables `base ..` of the outputs
/// `0 .. i`.
pub open spec fn equivs(rows: Seq<Seq<int>>, base: int, equal: bool, i: int) -> Seq<Seq<int>>
    decreases i,
{
    if i <= 0 {
        Seq::empty()
    } else {
        equivs(rows, base, equal, i - 1) + equiv_clauses(rows, i - 1, base + i - 1, equal)
    }
}

/// Whether a reification of the constraint over `groups` can be encoded.
pub open spec fn same_repr_fits<V>(
    names: Seq<Option<V>>,
    groups: Seq<Seq<VarType<V>>>,
    repr: Option<i32>,
) -> bool {
    let m = groups.len() as int;
    let width = max_len(groups, m);
    let start = repr_names(names, repr);
    &&& start.len() < i32::MAX
    &&& m == 0 || (own_fits(start, groups, width, m) && own_counters(
        start,
        groups,
        width,
        m,
    ).0.len() + width < i32::MAX)
}

/// The reification of the constraint over `groups` with representative `r`.
///
/// For no group, the unit clause `{r}`. Else every group is counted into a
/// row of its own, as long as the longest group, with unit clauses against
/// the outputs beyond the group's length. For every output position a fresh
/// variable is defined as "the rows agree here". The clause
/// `{-e0, .., -e(M-1), r}` forces `r` where they agree everywhere; where
/// `equal`, the clauses `{-r, ej}` make `r` force every agreement.
pub open spec fn same_repr_encoded<V>(
    names: Seq<Option<V>>,
    groups: Seq<Seq<VarType<V>>>,
    repr: Option<i32>,
    equal: bool,
) -> Encoded<V> {
    let m = groups.len() as int;
    let r = repr_lit(names, repr);
    let start = repr_names(names, repr);
    if m == 0 {
        Encoded { names: start, clauses: seq![seq![r]], repr: r }
    } else {
        let width = max_len(groups, m);
        let c = own_counters(start, groups, width, m);
        let base = c.0.len() as int + 1;
        let es = fresh(base, width);
        Encoded {
            names: c.0 + nones::<V>(width),
            clauses: c.1 + equivs(c.2, base, equal, width) + only_if(
                equal,
                crate::circuit::pair_clauses(-r, es),
            ) + seq![negs(es).push(r)],
            repr: r,
        }
    }
}

/// The rows of `v` as sequences of integers.
pub open spec fn rows_ints(v: Seq<Vec<i32>>) -> Seq<Seq<int>> {
    Seq::new(v.len(), |g: int| ints(v[g]@))
}

/// Whether every row of `rows` has at least `width` entries, all literals.
pub open spec fn rows_ok(rows: Seq<Vec<i32>>, width: int) -> bool {
    forall|g: int| 0 <= g < rows.len() ==> width <= (#[trigger] rows[g])@.len() && all_literals(rows[g]@)
}

/// Counting fewer groups into rows of their own fits too.
pub proof fn lemma_own_fits_prefix<V>(
    names: Seq<Option<V>>,
    groups: Seq<Seq<VarType<V>>>,
    width: int,
    g: int,
    m: int,
)
    requires
        0 <= g <= m,
        own_fits(names, groups, width, m),
    ensures
        own_fits(names, groups, width, g),
    decreases m,
{
    if g < m {
        lemma_own_fits_prefix(names, groups, width, g, m - 1);
    }
}

/// The clause made of output `i` of every row, each negated if `negate`,
/// followed by `e`.
pub fn column_clause(rows: &Vec<Vec<i32>>, i: usize, negate: bool, e: i32) -> (c: Vec<i32>)
    requires
        rows_ok(rows@, i as int + 1),
        is_literal(e),
    ensures
        all_literals(c@),
        ints(c@) == if negate {
            negs(column(rows_ints(rows@), i as int)).push(e as int)
        } else {
            column(rows_ints(rows@), i as int).push(e as int)
        },
{
    let mut c: Vec<i32> = Vec::new();
    let mut g: usize = 0;
    let ghost col = column(rows_ints(rows@), i as int);
    while g < rows.len()
        invariant
            g <= rows@.len(),
            rows_ok(rows@, i as int + 1),
            col == column(rows_ints(rows@), i as int),
            all_literals(c@),
            ints(c@) == if negate {
                negs(col).take(g as int)
            } else {
                col.take(g as int)
            },
        decreases rows@.len() - g,
    {
        assert(rows@[g as int]@.len() > i);
        let x: i32 = rows[g][i];
        assert(is_literal(x));
        assert(col[g as int] == x) by {
            assert(ints(rows@[g as int]@)[i as int] == x);
        }
        let y: i32 = if negate { -x } else { x };
        proof {
            lemma_ints_push(c@, y);
        }
        c.push(y);
        proof {
            if negate {
                assert(ints(c@) =~= negs(col).take(g as int + 1));
            } else {
                assert(ints(c@) =~= col.take(g as int + 1));
            }
        }
        g += 1;
    }
    proof {
        assert(negs(col).take(rows@.len() as int) =~= negs(col));
        assert(col.take(rows@.len() as int) =~= col);
        lemma_ints_push(c@, e);
    }
    c.push(e);
    c
}

/// Writes the clauses by which `e` forces output `i` to agree over all
/// rows.
pub fn add_chain<B: Backend>(backend: &mut B, rows: &Vec<Vec<i32>>, i: usize, e: i32)
    requires
        rows@.len() >= 1,
        rows_ok(rows@, i as int + 1),
        is_literal(e),
    ensures
        final(backend).clauses() == old(backend).clauses() + chain_clauses(
            rows_ints(rows@),
            i as int,
            e as int,
        ),
{
    let m = rows.len();
    let ghost rs = rows_ints(rows@);
    let ghost links = Seq::new((m - 1) as nat, |w: int| seq![-rs[w][i as int], rs[w + 1][i as int], -e]);
    let mut w: usize = 0;
    while w + 1 < m
        invariant
            w + 1 <= m,
            m == rows@.len(),
            rows_ok(rows@, i as int + 1),
            is_literal(e),
            rs == rows_ints(rows@),
            links == Seq::new(
                (m - 1) as nat,
                |w: int| seq![-rs[w][i as int], rs[w + 1][i as int], -e],
            ),
            backend.clauses() == old(backend).clauses() + links.take(w as int),
        decreases m - w,
    {
        assert(rows@[w as int]@.len() > i && rows@[w + 1]@.len() > i);
        let a: i32 = rows[w][i];
        let b: i32 = rows[w + 1][i];
        assert(is_literal(a) && is_literal(b));
        assert(ints(rows@[w as int]@)[i as int] == a);
        assert(ints(rows@[w + 1]@)[i as int] == b);
        backend.add_clause(&clause3(-a, b, -e));
        assert(backend.clauses() =~= old(backend).clauses() + links.take(w as int + 1));
        w += 1;
    }
    assert(links.take(m - 1) =~= links);
    assert(rows@[m - 1]@.len() > i && rows@[0]@.len() > i);
    let a: i32 = rows[m - 1][i];
    let b: i32 = rows[0][i];
    assert(is_literal(a) && is_literal(b));
    assert(ints(rows@[m - 1]@)[i as int] == a);
    assert(ints(rows@[0]@)[i as int] == b);
    backend.add_clause(&clause3(-a, b, -e));
}

/// Writes the clauses that define `e` as "output `i` agrees over all rows".
pub fn add_equiv<B: Backend>(
    backend: &mut B,
    rows: &Vec<Vec<i32>>,
    i: usize,
    e: i32,
    equal: bool,
)
    requires
        rows@.len() >= 1,
        rows_ok(rows@, i as int + 1),
        is_literal(e),
    ensures
        final(backend).clauses() == old(backend).clauses() + equiv_clauses(
            rows_ints(rows@),
            i as int,
            e as int,
            equal,
        ),
{
    backend.add_clause(&column_clause(rows, i, false, e));
    backend.add_clause(&column_clause(rows, i, true, e));
    if equal {
        add_chain(backend, rows, i, e);
    }
    assert(backend.clauses() =~= old(backend).clauses() + equiv_clauses(
        rows_ints(rows@),
        i as int,
        e as int,
        equal,
    ));
}

/// Counts every group into a fresh row of its own of `width` outputs and
/// returns the rows.
pub fn encode_own_counters<V: SatVar, B: Backend>(
    lits: &Vec<Vec<VarType<V>>>,
    width: usize,
    backend: &mut B,
    varmap: &mut VarMap<V>,
) -> (rows: Vec<Vec<i32>>)
    requires
        old(varmap).wf(),
        width == max_len(groups_of(lits@), lits@.len() as int),
        own_fits(old(varmap)@, groups_of(lits@), width as int, lits@.len() as int),
    ensures
        final(varmap).wf(),
        final(varmap)@ == own_counters(
            old(varmap)@,
            groups_of(lits@),
            width as int,
            lits@.len() as int,
        ).0,
        final(backend).clauses() == old(backend).clauses() + own_counters(
            old(varmap)@,
            groups_of(lits@),
            width as int,
            lits@.len() as int,
        ).1,
        rows_ints(rows@) == own_counters(
            old(varmap)@,
            groups_of(lits@),
            width as int,
            lits@.len() as int,
        ).2,
        rows@.len() == lits@.len(),
        rows_ok(rows@, width as int),
{
    let m = lits.len();
    let ghost groups = groups_of(lits@);
    let ghost names = varmap@;
    let ghost w = width as int;
    let mut rows: Vec<Vec<i32>> = Vec::new();
    let mut g: usize = 0;
    assert(backend.clauses() =~= old(backend).clauses() + Seq::<Seq<int>>::empty());
    assert(rows_ints(rows@) =~= Seq::<Seq<int>>::empty());
    while g < m
        invariant
            g <= m,
            m == lits@.len(),
            groups == groups_of(lits@),
            w == width,
            width == max_len(groups, m as int),
            own_fits(names, groups, w, m as int),
            varmap.wf(),
            varmap@ == own_counters(names, groups, w, g as int).0,
            backend.clauses() == old(backend).clauses() + own_counters(
                names,
                groups,
                w,
                g as int,
            ).1,
            rows_ints(rows@) == own_counters(names, groups, w, g as int).2,
            rows@.len() == g,
            rows_ok(rows@, w),
        decreases m - g,
    {
        let ghost p = own_counters(names, groups, w, g as int);
        proof {
            lemma_own_fits_prefix(names, groups, w, g as int + 1, m as int);
            lemma_len_bounds(groups, g as int, m as int);
            lemma_fits_len(p.0 + nones::<V>(w), groups[g as int]);
        }
        let row = new_vars(varmap, width as u32);
        let len = lits[g].len();
        let ghost before = backend.clauses();
        add_tail_zeros(backend, &row, len);
        encode_cardinality_constraint(
            &lits[g],
            len as u32,
            Direction::Both,
            Some(&row),
            backend,
            varmap,
        );
        let ghost old_rows = rows@;
        let ghost irow = ints(row@);
        rows.push(row);
        proof {
            assert(backend.clauses() =~= old(backend).clauses() + own_counters(
                names,
                groups,
                w,
                g as int + 1,
            ).1);
            assert(rows_ints(rows@) =~= rows_ints(old_rows).push(irow));
            assert forall|h: int| 0 <= h < rows@.len() implies w <= (#[trigger] rows@[h])@.len()
                && all_literals(rows@[h]@) by {
                if h < g {
                    assert(rows@[h] == old_rows[h]);
                }
            }
        }
        g += 1;
    }
    rows
}

/// Defines a fresh agreement variable for each of the first `width` output
/// positions of `rows` and returns these variables.
pub fn encode_equivs<V: SatVar, B: Backend>(
    rows: &Vec<Vec<i32>>,
    width: usize,
    equal: bool,
    backend: &mut B,
    varmap: &mut VarMap<V>,
) -> (es: Vec<i32>)
    requires
        old(varmap).wf(),
        old(varmap)@.len() + width < i32::MAX,
        rows@.len() >= 1,
        rows_ok(rows@, width as int),
    ensures
        final(varmap).wf(),
        final(varmap)@ == old(varmap)@ + nones::<V>(width as int),
        final(backend).clauses() == old(backend).clauses() + equivs(
            rows_ints(rows@),
            old(varmap)@.len() as int + 1,
            equal,
            width as int,
        ),
        ints(es@) == fresh(old(varmap)@.len() as int + 1, width as int),
        all_literals(es@),
        es@.len() == width,
{
    let ghost names = varmap@;
    let ghost base = names.len() as int + 1;
    let ghost rs = rows_ints(rows@);
    let mut es: Vec<i32> = Vec::new();
    let mut i: usize = 0;
    proof {
        lemma_nones_push::<V>(names, 0);
        assert(backend.clauses() =~= old(backend).clauses() + Seq::<Seq<int>>::empty());
        assert(ints(es@) =~= fresh(base, 0));
    }
    while i < width
        invariant
            i <= width,
            names.len() + width < i32::MAX,
            base == names.len() + 1,
            rows@.len() >= 1,
            rows_ok(rows@, width as int),
            rs == rows_ints(rows@),
            varmap.wf(),
            varmap@ == names + nones::<V>(i as int),
            backend.clauses() == old(backend).clauses() + equivs(rs, base, equal, i as int),
            ints(es@) == fresh(base, i as int),
            all_literals(es@),
            es@.len() == i,
        decreases width - i,
    {
        proof {
            lemma_nones_push::<V>(names, i as int);
            lemma_ints_push(es@, (base + i) as i32);
        }
        let e = varmap.new_var();
        add_equiv(backend, rows, i, e, equal);
        es.push(e);
        proof {
            assert(backend.clauses() =~= old(backend).clauses() + equivs(
                rs,
                base,
                equal,
                i as int + 1,
            ));
            assert(ints(es@) =~= fresh(base, i as int + 1));
        }
        i += 1;
    }
    es
}

/// The clause made of every literal of `lits` negated, followed by `last`.
pub fn negated_clause_with(lits: &Vec<i32>, last: i32) -> (c: Vec<i32>)
    requires
        all_literals(lits@),
        is_literal(last),
    ensures
        all_literals(c@),
        ints(c@) == negs(ints(lits@)).push(last as int),
{
    let mut c: Vec<i32> = Vec::new();
    let mut i: usize = 0;
    while i < lits.len()
        invariant
            i <= lits@.len(),
            all_literals(lits@),
            all_literals(c@),
            ints(c@) == negs(ints(lits@)).take(i as int),
        decreases lits@.len() - i,
    {
        proof {
            lemma_ints_push(c@, (-lits@[i as int]) as i32);
        }
        c.push(-lits[i]);
        assert(ints(c@) =~= negs(ints(lits@)).take(i as int + 1));
        i += 1;
    }
    proof {
        assert(negs(ints(lits@)).take(lits@.len() as int) =~= negs(ints(lits@)));
        lemma_ints_push(c@, last);
    }
    c.push(last);
    c
}

/// Writes, for each literal `l` of `lits`, the clause `{first, l}`.
pub fn add_pairs<B: Backend>(backend: &mut B, first: i32, lits: &Vec<i32>)
    requires
        all_literals(lits@),
        is_literal(first),
    ensures
        final(backend).clauses() == old(backend).clauses() + crate::circuit::pair_clauses(
            first as int,
            ints(lits@),
        ),
{
    let ghost all = crate::circuit::pair_clauses(first as int, ints(lits@));
    let mut i: usize = 0;
    while i < lits.len()
        invariant
            i <= lits@.len(),
            all_literals(lits@),
            is_literal(first),
            all == crate::circuit::pair_clauses(first as int, ints(lits@)),
            backend.clauses() == old(backend).clauses() + all.take(i as int),
        decreases lits@.len() - i,
    {
        backend.add_clause(&crate::circuit::clause2(first, lits[i]));
        assert(backend.clauses() =~= old(backend).clauses() + all.take(i as int + 1));
        i += 1;
    }
    assert(all.take(lits@.len() as int) =~= all);
}

/// Writes a reification of `constraint` and returns its representative:
/// `repr` where one is given, else a fresh variable. Where `equal`, the
/// representative is true exactly if the groups agree; else it is only
/// forced true where they agree.
pub fn encode_same_cardinality_repr<V: SatVar, B: Backend>(
    constraint: SameCardinality<V>,
    repr: Option<i32>,
    backend: &mut B,
    varmap: &mut VarMap<V>,
    equal: bool,
) -> (r: i32)
    requires
        old(varmap).wf(),
        repr_ok(repr),
        same_repr_fits(old(varmap)@, constraint.groups(), repr),
    ensures
        final(varmap).wf(),
        final(varmap)@ == same_repr_encoded(old(varmap)@, constraint.groups(), repr, equal).names,
        final(backend).clauses() == old(backend).clauses() + same_repr_encoded(
            old(varmap)@,
            constraint.groups(),
            repr,
            equal,
        ).clauses,
        r == same_repr_encoded(old(varmap)@, constraint.groups(), repr, equal).repr,
        is_literal(r),
        repr is Some ==> r == repr->0,
{
    let r = pick_repr(repr, varmap);
    if constraint.lits.len() == 0 {
        backend.add_clause(&clause1(r));
        assert(backend.clauses() =~= old(backend).clauses() + seq![seq![r as int]]);
        return r;
    }
    let (max, min) = group_lens(&constraint.lits);
    let rows = encode_own_counters(&constraint.lits, max, backend, varmap);
    let es = encode_equivs(&rows, max, equal, backend, varmap);
    if equal {
        add_pairs(backend, -r, &es);
    }
    backend.add_clause(&negated_clause_with(&es, r));
    assert(backend.clauses() =~= old(backend).clauses() + same_repr_encoded(
        old(varmap)@,
        constraint.groups(),
        repr,
        equal,
    ).clauses);
    r
}

impl<V: SatVar> ConstraintRepr<V> for SameCardinality<V> {
    open spec fn implies_fits(self, repr: Option<i32>, names: Seq<Option<V>>) -> bool {
        same_repr_fits(names, self.groups(), repr)
    }

    open spec fn implies_encoded(self, repr: Option<i32>, names: Seq<Option<V>>) -> Encoded<V> {
        same_repr_encoded(names, self.groups(), repr, false)
    }

    open spec fn equals_fits(self, repr: Option<i32>, names: Seq<Option<V>>) -> bool {
        same_repr_fits(names, self.groups(), repr)
    }

    open spec fn equals_encoded(self, repr: Option<i32>, names: Seq<Option<V>>) -> Encoded<V> {
        same_repr_encoded(names, self.groups(), repr, true)
    }

    fn encode_constraint_implies_repr<B: Backend>(
        self,
        repr: Option<i32>,
        backend: &mut B,
        varmap: &mut VarMap<V>,
    ) -> (r: i32) {
        encode_same_cardinality_repr(self, repr, backend, varmap, false)
    }

    fn encode_constraint_equals_repr<B: Backend>(
        self,
        repr: Option<i32>,
        backend: &mut B,
        varmap: &mut VarMap<V>,
    ) -> (r: i32) {
        encode_same_cardinality_repr(self, repr, backend, varmap, true)
    }
}

} // verus!
