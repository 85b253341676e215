//! How many truth patterns of `n` inputs have a given number of true
//! inputs.

use vstd::prelude::*;
use vstd::relations::injective_on;
use vstd::set_lib::{lemma_map_size, lemma_set_disjoint_lens};

verus! {

/// The number of ways to choose `k` of `n` things.
pub open spec fn binomial(n: nat, k: int) -> nat
    decreases n,
{
    if k < 0 {
        0
    } else if k == 0 {
        1
    } else if n == 0 {
        0
    } else {
        binomial((n - 1) as nat, k - 1) + binomial((n - 1) as nat, k)
    }
}

/// The sum of `binomial(n, i)` over `lo <= i <= hi`.
pub open spec fn binomial_sum(n: nat, lo: int, hi: int) -> nat
    decreases hi - lo + 1,
{
    if hi < lo {
        0
    } else {
        binomial_sum(n, lo, hi - 1) + binomial(n, hi)
    }
}

/// How many of the first `i` entries of `p` are true.
pub open spec fn ones(p: Seq<bool>, i: int) -> int
    decreases i,
{
    if i <= 0 {
        0
    } else {
        ones(p, i - 1) + if p[i - 1] {
            1int
        } else {
            0int
        }
    }
}

/// The patterns of length `n` with exactly `k` true entries.
pub open spec fn patterns(n: nat, k: int) -> Set<Seq<bool>> {
    Set::new(|p: Seq<bool>| p.len() == n && ones(p, n as int) == k)
}

/// The patterns of length `n` with between `lo` and `hi` true entries.
pub open spec fn patterns_between(n: nat, lo: int, hi: int) -> Set<Seq<bool>> {
    Set::new(|p: Seq<bool>| p.len() == n && lo <= ones(p, n as int) <= hi)
}

/// A count of true entries lies between 0 and the number of entries.
pub proof fn lemma_ones_range(p: Seq<bool>, i: int)
    requires
        0 <= i,
    ensures
        0 <= ones(p, i) <= i,
    decreases i,
{
    if i > 0 {
        lemma_ones_range(p, i - 1);
    }
}

/// The count over a prefix does not depend on what follows it.
pub proof fn lemma_ones_prefix(p: Seq<bool>, q: Seq<bool>, i: int)
    requires
        0 <= i <= p.len(),
        i <= q.len(),
        forall|j: int| 0 <= j < i ==> p[j] == q[j],
    ensures
        ones(p, i) == ones(q, i),
    decreases i,
{
    if i > 0 {
        lemma_ones_prefix(p, q, i - 1);
    }
}

/// There are `binomial(n, k)` patterns of length `n` with exactly `k` true
/// entries.
pub proof fn lemma_patterns_count(n: nat, k: int)
    ensures
        patterns(n, k).finite(),
        patterns(n, k).len() == binomial(n, k),
    decreases n,
{
    let s = patterns(n, k);
    if n == 0 {
        if k == 0 {
            let e = Seq::<bool>::empty();
            assert(s =~= Set::empty().insert(e)) by {
                assert forall|p: Seq<bool>| s.contains(p) implies p == e by {
                    assert(p =~= e);
                }
                assert(s.contains(e));
            }
        } else {
            assert(s =~= Set::empty());
        }
    } else {
        let m = (n - 1) as nat;
        let zero = |p: Seq<bool>| p.push(false);
        let one = |p: Seq<bool>| p.push(true);
        let a0 = patterns(m, k);
        let b0 = patterns(m, k - 1);
        lemma_patterns_count(m, k);
        lemma_patterns_count(m, k - 1);
        let a = a0.map(zero);
        let b = b0.map(one);
        assert(injective_on(zero, a0)) by {
            assert forall|x: Seq<bool>, y: Seq<bool>|
                a0.contains(x) && a0.contains(y) && #[trigger] zero(x) == #[trigger] zero(
                    y,
                ) implies x == y by {
                assert(x.push(false).drop_last() =~= x);
                assert(y.push(false).drop_last() =~= y);
            }
        }
        assert(injective_on(one, b0)) by {
            assert forall|x: Seq<bool>, y: Seq<bool>|
                b0.contains(x) && b0.contains(y) && #[trigger] one(x) == #[trigger] one(
                    y,
                ) implies x == y by {
                assert(x.push(true).drop_last() =~= x);
                assert(y.push(true).drop_last() =~= y);
            }
        }
        lemma_map_size(a0, a, zero);
        lemma_map_size(b0, b, one);
        assert(a.disjoint(b)) by {
            assert forall|p: Seq<bool>| a.contains(p) implies !b.contains(p) by {
                let x = choose|x: Seq<bool>| a0.contains(x) && zero(x) == p;
                if b.contains(p) {
                    let y = choose|y: Seq<bool>| b0.contains(y) && one(y) == p;
                    assert(x.push(false)[m as int] != y.push(true)[m as int]);
                }
            }
        }
        lemma_set_disjoint_lens(a, b);
        assert(s =~= a + b) by {
            assert forall|p: Seq<bool>| s.contains(p) implies (a + b).contains(p) by {
                let q = p.drop_last();
                lemma_ones_prefix(p, q, m as int);
                if p[m as int] {
                    assert(q.push(true) =~= p);
                    assert(b0.contains(q));
                    assert(one(q) == p);
                    assert(b.contains(p));
                } else {
                    assert(q.push(false) =~= p);
                    assert(a0.contains(q));
                    assert(zero(q) == p);
                    assert(a.contains(p));
                }
            }
            assert forall|p: Seq<bool>| (a + b).contains(p) implies s.contains(p) by {
                if a.contains(p) {
                    let x = choose|x: Seq<bool>| a0.contains(x) && zero(x) == p;
                    lemma_ones_prefix(p, x, m as int);
                } else {
                    let y = choose|y: Seq<bool>| b0.contains(y) && one(y) == p;
                    lemma_ones_prefix(p, y, m as int);
                }
            }
        }
        if k == 0 {
            lemma_ones_empty_below(m);
        }
    }
}

/// No pattern has fewer than 0 true entries.
pub proof fn lemma_ones_empty_below(n: nat)
    ensures
        patterns(n, -1) =~= Set::empty(),
{
    assert forall|p: Seq<bool>| !(#[trigger] patterns(n, -1).contains(p)) by {
        lemma_ones_range(p, n as int);
    }
}

/// There are `binomial_sum(n, lo, hi)` patterns of length `n` with between
/// `lo` and `hi` true entries.
pub proof fn lemma_patterns_between_count(n: nat, lo: int, hi: int)
    ensures
        patterns_between(n, lo, hi).finite(),
        patterns_between(n, lo, hi).len() == binomial_sum(n, lo, hi),
    decreases hi - lo + 1,
{
    let s = patterns_between(n, lo, hi);
    if hi < lo {
        assert(s =~= Set::empty());
    } else {
        let rest = patterns_between(n, lo, hi - 1);
        let top = patterns(n, hi);
        lemma_patterns_between_count(n, lo, hi - 1);
        lemma_patterns_count(n, hi);
        assert(rest.disjoint(top));
        lemma_set_disjoint_lens(rest, top);
        assert(s =~= rest + top);
    }
}

/// The tuples made of a tuple of `ts` followed by a pattern of `ps`.
pub open spec fn extended(ts: Set<Seq<Seq<bool>>>, ps: Set<Seq<bool>>) -> Set<Seq<Seq<bool>>> {
    Set::new(|t: Seq<Seq<bool>>| t.len() > 0 && ts.contains(t.drop_last()) && ps.contains(t.last()))
}

/// There are as many extended tuples as tuples times patterns.
pub proof fn lemma_extended_count(ts: Set<Seq<Seq<bool>>>, ps: Set<Seq<bool>>)
    requires
        ts.finite(),
        ps.finite(),
    ensures
        extended(ts, ps).finite(),
        extended(ts, ps).len() == ts.len() * ps.len(),
    decreases ts.len(),
{
    let all = extended(ts, ps);
    if ts.len() == 0 {
        assert(ts =~= Set::empty());
        assert(all =~= Set::empty());
        assert(ts.len() * ps.len() == 0) by (nonlinear_arith)
            requires
                ts.len() == 0,
        ;
    } else {
        let x = ts.choose();
        let rest = ts.remove(x);
        lemma_extended_count(rest, ps);
        let with_x = |p: Seq<bool>| x.push(p);
        let part = ps.map(with_x);
        assert(injective_on(with_x, ps)) by {
            assert forall|p: Seq<bool>, q: Seq<bool>|
                ps.contains(p) && ps.contains(q) && #[trigger] with_x(p) == #[trigger] with_x(
                    q,
                ) implies p == q by {
                assert(x.push(p).last() == p);
                assert(x.push(q).last() == q);
            }
        }
        lemma_map_size(ps, part, with_x);
        let before = extended(rest, ps);
        assert(before.disjoint(part)) by {
            assert forall|t: Seq<Seq<bool>>| part.contains(t) implies !before.contains(t) by {
                let p = choose|p: Seq<bool>| ps.contains(p) && with_x(p) == t;
                assert(x.push(p).drop_last() =~= x);
            }
        }
        lemma_set_disjoint_lens(before, part);
        assert(all =~= before + part) by {
            assert forall|t: Seq<Seq<bool>>| all.contains(t) implies (before + part).contains(
                t,
            ) by {
                if t.drop_last() == x {
                    assert(x.push(t.last()) =~= t);
                    assert(with_x(t.last()) == t);
                    assert(part.contains(t));
                }
            }
            assert forall|t: Seq<Seq<bool>>| (before + part).contains(t) implies all.contains(
                t,
            ) by {
                if part.contains(t) {
                    let p = choose|p: Seq<bool>| ps.contains(p) && with_x(p) == t;
                    assert(x.push(p).drop_last() =~= x);
                    assert(x.push(p).last() == p);
                }
            }
        }
        assert(ts.len() * ps.len() == rest.len() * ps.len() + ps.len()) by (nonlinear_arith)
            requires
                ts.len() == rest.len() + 1,
        ;
    }
}

/// The tuples of `g` patterns, the `j`-th of length `lens[j]`, with `c`
/// true entries each.
pub open spec fn tuples(lens: Seq<nat>, c: int, g: int) -> Set<Seq<Seq<bool>>>
    decreases g,
{
    if g <= 0 {
        Set::empty().insert(Seq::empty())
    } else {
        extended(tuples(lens, c, g - 1), patterns(lens[g - 1], c))
    }
}

/// The product of `binomial(lens[j], c)` over `j < g`.
pub open spec fn product(lens: Seq<nat>, c: int, g: int) -> nat
    decreases g,
{
    if g <= 0 {
        1
    } else {
        product(lens, c, g - 1) * binomial(lens[g - 1], c)
    }
}

/// There are `product(lens, c, g)` such tuples.
pub proof fn lemma_tuples_count(lens: Seq<nat>, c: int, g: int)
    ensures
        tuples(lens, c, g).finite(),
        tuples(lens, c, g).len() == product(lens, c, g),
    decreases g,
{
    if g > 0 {
        lemma_tuples_count(lens, c, g - 1);
        lemma_patterns_count(lens[g - 1], c);
        lemma_extended_count(tuples(lens, c, g - 1), patterns(lens[g - 1], c));
    }
}

/// Whether `t` is made of `g` patterns, the `j`-th of length `lens[j]`,
/// with `c` true entries each.
pub open spec fn is_tuple(lens: Seq<nat>, c: int, g: int, t: Seq<Seq<bool>>) -> bool {
    &&& t.len() == g
    &&& forall|j: int|
        0 <= j < g ==> (#[trigger] t[j]).len() == lens[j] && ones(t[j], lens[j] as int) == c
}

/// The tuples are what their name says.
pub proof fn lemma_tuples_are(lens: Seq<nat>, c: int, g: int, t: Seq<Seq<bool>>)
    requires
        0 <= g,
    ensures
        tuples(lens, c, g).contains(t) == is_tuple(lens, c, g, t),
    decreases g,
{
    if g == 0 {
        if t.len() == 0 {
            assert(t =~= Seq::<Seq<bool>>::empty());
        }
    } else {
        if t.len() > 0 {
            lemma_tuples_are(lens, c, g - 1, t.drop_last());
            let d = t.drop_last();
            if is_tuple(lens, c, g, t) {
                assert forall|j: int| 0 <= j < g - 1 implies (#[trigger] d[j]).len() == lens[j]
                    && ones(d[j], lens[j] as int) == c by {
                    assert(d[j] == t[j]);
                }
                assert(t.last() == t[g - 1]);
            }
            if tuples(lens, c, g).contains(t) {
                assert forall|j: int| 0 <= j < g implies (#[trigger] t[j]).len() == lens[j]
                    && ones(t[j], lens[j] as int) == c by {
                    if j < g - 1 {
                        assert(d[j] == t[j]);
                    } else {
                        assert(t.last() == t[j]);
                    }
                }
            }
        }
    }
}

/// The tuples of `m` patterns that have equally many true entries each, at
/// most `hi`.
pub open spec fn level_tuples(lens: Seq<nat>, m: int, hi: int) -> Set<Seq<Seq<bool>>> {
    Set::new(|t: Seq<Seq<bool>>| exists|c: int| 0 <= c <= hi && #[trigger] is_tuple(lens, c, m, t))
}

/// The sum of `product(lens, c, m)` over `0 <= c <= hi`.
pub open spec fn product_sum(lens: Seq<nat>, m: int, hi: int) -> nat
    decreases hi + 1,
{
    if hi < 0 {
        0
    } else {
        product_sum(lens, m, hi - 1) + product(lens, hi, m)
    }
}

/// There are `product_sum(lens, m, hi)` tuples of `m >= 1` patterns with
/// equally many true entries each, at most `hi`.
pub proof fn lemma_level_tuples_count(lens: Seq<nat>, m: int, hi: int)
    requires
        1 <= m,
    ensures
        level_tuples(lens, m, hi).finite(),
        level_tuples(lens, m, hi).len() == product_sum(lens, m, hi),
    decreases hi + 1,
{
    let s = level_tuples(lens, m, hi);
    if hi < 0 {
        assert(s =~= Set::empty());
    } else {
        let rest = level_tuples(lens, m, hi - 1);
        let top = tuples(lens, hi, m);
        lemma_level_tuples_count(lens, m, hi - 1);
        lemma_tuples_count(lens, hi, m);
        assert forall|t: Seq<Seq<bool>>| top.contains(t) == is_tuple(lens, hi, m, t) by {
            lemma_tuples_are(lens, hi, m, t);
        }
        assert(rest.disjoint(top)) by {
            assert forall|t: Seq<Seq<bool>>| rest.contains(t) implies !top.contains(t) by {
                let c = choose|c: int| 0 <= c <= hi - 1 && #[trigger] is_tuple(lens, c, m, t);
                if top.contains(t) {
                    assert(ones(t[0], lens[0] as int) == c);
                    assert(ones(t[0], lens[0] as int) == hi);
                }
            }
        }
        lemma_set_disjoint_lens(rest, top);
        assert(s =~= rest + top) by {
            assert forall|t: Seq<Seq<bool>>| s.contains(t) implies (rest + top).contains(t) by {
                let c = choose|c: int| 0 <= c <= hi && #[trigger] is_tuple(lens, c, m, t);
                if c < hi {
                    assert(rest.contains(t));
                }
            }
            assert forall|t: Seq<Seq<bool>>| (rest + top).contains(t) implies s.contains(t) by {
                if rest.contains(t) {
                    let c = choose|c: int| 0 <= c <= hi - 1 && #[trigger] is_tuple(lens, c, m, t);
                    assert(is_tuple(lens, c, m, t));
                } else {
                    assert(is_tuple(lens, hi, m, t));
                }
            }
        }
    }
}

} // verus!
