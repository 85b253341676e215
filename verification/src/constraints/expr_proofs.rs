//! The meaning of the circuit of a Boolean expression.

use vstd::prelude::*;
use crate::circuit::{and_clauses, or_clauses, Direction};
use crate::constraints::bounds::repr_dir;
use crate::constraints::bounds_proofs::lemma_tie;
use crate::constraints::expr::{
    expr_encoded, expr_fits, expr_repr_encoded, expr_true_encoded, lemma_expr_names, Expr,
};
use crate::constraints::same_proofs::{is_new, only_new};
use crate::constraints::util::{tie_clauses, tied};
use crate::lit::VarType;
use crate::semantics::{
    agree_below, all_true, clauses_below, lemma_all_true_agree, lemma_all_true_concat,
    lemma_all_true_push, lemma_and_gate2, lemma_clause1, lemma_clauses_below_concat,
    lemma_gate2_below, lemma_or_gate2, lit_true, val, var_of, with_value, Assignment,
};
use crate::varmap::{lemma_id_of_range, lemma_with_lit_extends, lit_id, with_lit};

verus! {

/// The truth value of an expression under `a`, its literals numbered as
/// the encoding into `names` numbers them.
pub open spec fn expr_value<V>(a: Assignment, names: Seq<Option<V>>, e: Expr<V>) -> bool
    decreases e,
{
    match e {
        Expr::Lit(l) => lit_true(a, lit_id(with_lit(names, l), l)),
        Expr::Not(x) => !expr_value(a, names, *x),
        Expr::And(x, y) => expr_value(a, names, *x) && expr_value(
            a,
            expr_encoded(names, *x, Direction::Both).names,
            *y,
        ),
        Expr::Or(x, y) => expr_value(a, names, *x) || expr_value(
            a,
            expr_encoded(names, *x, Direction::Both).names,
            *y,
        ),
    }
}

/// The literal of an expression is a variable of the table after it, and
/// the table after it holds the table before it.
pub proof fn lemma_expr_repr<V>(names: Seq<Option<V>>, e: Expr<V>, dir: Direction)
    requires
        expr_fits(names, e),
    ensures
        expr_encoded(names, e, dir).repr != 0,
        names.len() <= expr_encoded(names, e, dir).names.len(),
        expr_encoded(names, e, dir).names.take(names.len() as int) == names,
    decreases e,
{
    let after = expr_encoded(names, e, dir).names;
    match e {
        Expr::Lit(l) => {
            lemma_with_lit_extends(names, l);
        },
        Expr::Not(x) => {
            lemma_expr_repr(names, *x, dir.flipped());
        },
        Expr::And(x, y) => {
            lemma_expr_names(names, *x, dir);
            let p = expr_encoded(names, *x, dir);
            lemma_expr_repr(names, *x, dir);
            lemma_expr_repr(p.names, *y, dir);
            let q = expr_encoded(p.names, *y, dir);
            assert(after.take(names.len() as int) =~= q.names.take(p.names.len() as int).take(
                names.len() as int,
            ));
        },
        Expr::Or(x, y) => {
            lemma_expr_names(names, *x, dir);
            let p = expr_encoded(names, *x, dir);
            lemma_expr_repr(names, *x, dir);
            lemma_expr_repr(p.names, *y, dir);
            let q = expr_encoded(p.names, *y, dir);
            assert(after.take(names.len() as int) =~= q.names.take(p.names.len() as int).take(
                names.len() as int,
            ));
        },
    }
}

/// In every model of the circuit of an expression, the literal of the
/// expression is true where the expression is, as far as the circuit is
/// written forward, and true only there, as far as it is written backward.
pub proof fn expr_circuit_sound<V>(
    names: Seq<Option<V>>,
    e: Expr<V>,
    dir: Direction,
    a: Assignment,
)
    requires
        expr_fits(names, e),
        all_true(a, expr_encoded(names, e, dir).clauses),
    ensures
        dir.forward() ==> (expr_value(a, names, e) ==> lit_true(
            a,
            expr_encoded(names, e, dir).repr,
        )),
        dir.backward() ==> (lit_true(a, expr_encoded(names, e, dir).repr) ==> expr_value(
            a,
            names,
            e,
        )),
    decreases e,
{
    match e {
        Expr::Lit(l) => {},
        Expr::Not(x) => {
            lemma_expr_repr(names, *x, dir.flipped());
            expr_circuit_sound(names, *x, dir.flipped(), a);
        },
        Expr::And(x, y) => {
            lemma_expr_names(names, *x, dir);
            let p = expr_encoded(names, *x, dir);
            let q = expr_encoded(p.names, *y, dir);
            let o = q.names.len() as int + 1;
            lemma_all_true_concat(a, p.clauses + q.clauses, and_clauses(dir, seq![p.repr, q.repr], o));
            lemma_all_true_concat(a, p.clauses, q.clauses);
            lemma_expr_repr(names, *x, dir);
            lemma_expr_repr(p.names, *y, dir);
            expr_circuit_sound(names, *x, dir, a);
            expr_circuit_sound(p.names, *y, dir, a);
            lemma_and_gate2(a, dir, p.repr, q.repr, o);
        },
        Expr::Or(x, y) => {
            lemma_expr_names(names, *x, dir);
            let p = expr_encoded(names, *x, dir);
            let q = expr_encoded(p.names, *y, dir);
            let o = q.names.len() as int + 1;
            lemma_all_true_concat(a, p.clauses + q.clauses, or_clauses(dir, seq![p.repr, q.repr], o));
            lemma_all_true_concat(a, p.clauses, q.clauses);
            lemma_expr_repr(names, *x, dir);
            lemma_expr_repr(p.names, *y, dir);
            expr_circuit_sound(names, *x, dir, a);
            expr_circuit_sound(p.names, *y, dir, a);
            lemma_or_gate2(a, dir, p.repr, q.repr, o);
        },
    }
}

/// Every model of "the expression is true" makes the expression true.
pub proof fn expr_true_sound<V>(names: Seq<Option<V>>, e: Expr<V>, a: Assignment)
    requires
        expr_fits(names, e),
        all_true(a, expr_true_encoded(names, e).clauses),
    ensures
        expr_value(a, names, e),
{
    let p = expr_encoded(names, e, Direction::OutToIn);
    lemma_all_true_push(a, p.clauses, seq![p.repr]);
    lemma_clause1(a, p.repr);
    expr_circuit_sound(names, e, Direction::OutToIn, a);
}

/// In every model of a reification of an expression, the representative is
/// true where the expression is; and where the representative shall equal
/// the expression, it is true only there.
pub proof fn expr_repr_sound<V>(
    names: Seq<Option<V>>,
    e: Expr<V>,
    repr: Option<i32>,
    equal: bool,
    a: Assignment,
)
    requires
        expr_fits(names, e),
        crate::constraints::repr_ok(repr),
        all_true(a, expr_repr_encoded(names, e, repr, equal).clauses),
    ensures
        expr_value(a, names, e) ==> lit_true(a, expr_repr_encoded(names, e, repr, equal).repr),
        equal && lit_true(a, expr_repr_encoded(names, e, repr, equal).repr) ==> expr_value(
            a,
            names,
            e,
        ),
{
    let dir = repr_dir(equal, Direction::InToOut);
    let p = expr_encoded(names, e, dir);
    lemma_all_true_concat(a, p.clauses, tie_clauses(p.repr, repr));
    lemma_expr_repr(names, e, dir);
    expr_circuit_sound(names, e, dir, a);
    lemma_tie(a, p.repr, repr);
}

/// Whether every unnamed literal of an expression is a variable numbered
/// up to `lo`.
pub open spec fn expr_known<V>(lo: int, e: Expr<V>) -> bool
    decreases e,
{
    match e {
        Expr::Lit(l) => l matches VarType::Unnamed(x) ==> 1 <= var_of(x as int) <= lo,
        Expr::Not(x) => expr_known(lo, *x),
        Expr::And(x, y) => expr_known(lo, *x) && expr_known(lo, *y),
        Expr::Or(x, y) => expr_known(lo, *x) && expr_known(lo, *y),
    }
}

/// `a` with the output of every gate of the circuit set to the value that
/// the expression under that gate has under `a0`.
pub open spec fn expr_set<V>(
    a: Assignment,
    a0: Assignment,
    names: Seq<Option<V>>,
    e: Expr<V>,
) -> Assignment
    decreases e,
{
    match e {
        Expr::Lit(l) => a,
        Expr::Not(x) => expr_set(a, a0, names, *x),
        Expr::And(x, y) => {
            let p = expr_encoded(names, *x, Direction::Both);
            let q = expr_encoded(p.names, *y, Direction::Both);
            with_value(
                expr_set(expr_set(a, a0, names, *x), a0, p.names, *y),
                q.names.len() as int + 1,
                expr_value(a0, names, e),
            )
        },
        Expr::Or(x, y) => {
            let p = expr_encoded(names, *x, Direction::Both);
            let q = expr_encoded(p.names, *y, Direction::Both);
            with_value(
                expr_set(expr_set(a, a0, names, *x), a0, p.names, *y),
                q.names.len() as int + 1,
                expr_value(a0, names, e),
            )
        },
    }
}

/// An assignment that differs from another only on the new anonymous
/// variables of a table does so for every table that holds that table.
pub proof fn lemma_only_new_grow<V>(
    b: Assignment,
    a: Assignment,
    table: Seq<Option<V>>,
    larger: Seq<Option<V>>,
    lo: int,
)
    requires
        only_new(b, a, table, lo),
        0 <= lo,
        table.len() <= larger.len(),
        larger.take(table.len() as int) == table,
    ensures
        only_new(b, a, larger, lo),
{
    assert forall|x: int| !is_new(larger, lo, x) implies #[trigger] val(b, x) == val(a, x) by {
        if lo < x <= table.len() {
            assert(larger.take(table.len() as int)[x - 1] == larger[x - 1]);
        }
        assert(!is_new(table, lo, x));
    }
}

/// What setting the outputs of all gates gives: a model of the circuit, in
/// whatever direction it is written, in which the literal of the expression
/// has the value of the expression, and which differs from the assignment
/// only on outputs of gates.
pub proof fn lemma_expr_set<V>(
    a: Assignment,
    a0: Assignment,
    names: Seq<Option<V>>,
    lo: int,
    e: Expr<V>,
    dir: Direction,
)
    requires
        expr_fits(names, e),
        expr_known(lo, e),
        0 <= lo <= names.len(),
        only_new(a, a0, names, lo),
    ensures
        only_new(expr_set(a, a0, names, e), a0, expr_encoded(names, e, dir).names, lo),
        agree_below(expr_set(a, a0, names, e), a, names.len() as int + 1),
        all_true(expr_set(a, a0, names, e), expr_encoded(names, e, dir).clauses),
        lit_true(expr_set(a, a0, names, e), expr_encoded(names, e, dir).repr) == expr_value(
            a0,
            names,
            e,
        ),
        clauses_below(
            expr_encoded(names, e, dir).clauses,
            expr_encoded(names, e, dir).names.len() as int + 1,
        ),
        1 <= var_of(expr_encoded(names, e, dir).repr) <= expr_encoded(names, e, dir).names.len(),
    decreases e,
{
    let b = expr_set(a, a0, names, e);
    let enc = expr_encoded(names, e, dir);
    lemma_expr_repr(names, e, dir);
    match e {
        Expr::Lit(l) => {
            let named = with_lit(names, l);
            lemma_with_lit_extends(names, l);
            lemma_only_new_grow(a, a0, names, named, lo);
            let id = lit_id(named, l);
            match l {
                VarType::Named(n) => {
                    lemma_id_of_range(named, n.spec_var());
                },
                VarType::Unnamed(x) => {},
            }
            assert(!is_new(named, lo, var_of(id)));
            assert(val(a, var_of(id)) == val(a0, var_of(id)));
        },
        Expr::Not(x) => {
            lemma_expr_set(a, a0, names, lo, *x, dir.flipped());
            lemma_expr_repr(names, *x, dir.flipped());
        },
        Expr::And(x, y) => {
            lemma_expr_names(names, *x, dir);
            let p = expr_encoded(names, *x, dir);
            lemma_expr_names(p.names, *y, dir);
            let q = expr_encoded(p.names, *y, dir);
            let o = q.names.len() as int + 1;
            let b1 = expr_set(a, a0, names, *x);
            let b2 = expr_set(b1, a0, p.names, *y);
            lemma_expr_repr(names, *x, dir);
            lemma_expr_repr(p.names, *y, dir);
            lemma_expr_set(a, a0, names, lo, *x, dir);
            lemma_expr_set(b1, a0, p.names, lo, *y, dir);
            lemma_all_true_agree(b1, b2, p.clauses, p.names.len() as int + 1);
            assert(agree_below(b2, b, o));
            lemma_clauses_below_concat(p.clauses, q.clauses, p.names.len() as int + 1, o);
            lemma_all_true_concat(b2, p.clauses, q.clauses);
            lemma_all_true_agree(b2, b, p.clauses + q.clauses, o);
            let gate = and_clauses(dir, seq![p.repr, q.repr], o);
            lemma_and_gate2(b, dir, p.repr, q.repr, o);
            assert(lit_true(b, p.repr) == lit_true(b1, p.repr)) by {
                assert(val(b, var_of(p.repr)) == val(b2, var_of(p.repr)));
                assert(val(b2, var_of(p.repr)) == val(b1, var_of(p.repr)));
            }
            assert(lit_true(b, q.repr) == lit_true(b2, q.repr)) by {
                assert(val(b, var_of(q.repr)) == val(b2, var_of(q.repr)));
            }
            lemma_all_true_concat(b, p.clauses + q.clauses, gate);
            lemma_gate2_below(dir, p.repr, q.repr, o, o + 1, true);
            lemma_clauses_below_concat(p.clauses + q.clauses, gate, o, o + 1);
            assert forall|v: int| !is_new(enc.names, lo, v) implies #[trigger] val(b, v) == val(
                a0,
                v,
            ) by {
                if v != o {
                    if 1 <= v <= q.names.len() {
                        assert(enc.names[v - 1] == q.names[v - 1]);
                    }
                    assert(!is_new(q.names, lo, v));
                    assert(val(b, v) == val(b2, v));
                }
            }
            assert forall|v: int| 1 <= v < names.len() + 1 implies #[trigger] val(b, v) == val(
                a,
                v,
            ) by {
                assert(val(b, v) == val(b2, v));
                assert(val(b2, v) == val(b1, v));
            }
        },
        Expr::Or(x, y) => {
            lemma_expr_names(names, *x, dir);
            let p = expr_encoded(names, *x, dir);
            lemma_expr_names(p.names, *y, dir);
            let q = expr_encoded(p.names, *y, dir);
            let o = q.names.len() as int + 1;
            let b1 = expr_set(a, a0, names, *x);
            let b2 = expr_set(b1, a0, p.names, *y);
            lemma_expr_repr(names, *x, dir);
            lemma_expr_repr(p.names, *y, dir);
            lemma_expr_set(a, a0, names, lo, *x, dir);
            lemma_expr_set(b1, a0, p.names, lo, *y, dir);
            lemma_all_true_agree(b1, b2, p.clauses, p.names.len() as int + 1);
            assert(agree_below(b2, b, o));
            lemma_clauses_below_concat(p.clauses, q.clauses, p.names.len() as int + 1, o);
            lemma_all_true_concat(b2, p.clauses, q.clauses);
            lemma_all_true_agree(b2, b, p.clauses + q.clauses, o);
            let gate = or_clauses(dir, seq![p.repr, q.repr], o);
            lemma_or_gate2(b, dir, p.repr, q.repr, o);
            assert(lit_true(b, p.repr) == lit_true(b1, p.repr)) by {
                assert(val(b, var_of(p.repr)) == val(b2, var_of(p.repr)));
                assert(val(b2, var_of(p.repr)) == val(b1, var_of(p.repr)));
            }
            assert(lit_true(b, q.repr) == lit_true(b2, q.repr)) by {
                assert(val(b, var_of(q.repr)) == val(b2, var_of(q.repr)));
            }
            lemma_all_true_concat(b, p.clauses + q.clauses, gate);
            lemma_gate2_below(dir, p.repr, q.repr, o, o + 1, false);
            lemma_clauses_below_concat(p.clauses + q.clauses, gate, o, o + 1);
            assert forall|v: int| !is_new(enc.names, lo, v) implies #[trigger] val(b, v) == val(
                a0,
                v,
            ) by {
                if v != o {
                    if 1 <= v <= q.names.len() {
                        assert(enc.names[v - 1] == q.names[v - 1]);
                    }
                    assert(!is_new(q.names, lo, v));
                    assert(val(b, v) == val(b2, v));
                }
            }
            assert forall|v: int| 1 <= v < names.len() + 1 implies #[trigger] val(b, v) == val(
                a,
                v,
            ) by {
                assert(val(b, v) == val(b2, v));
                assert(val(b2, v) == val(b1, v));
            }
        },
    }
}

/// Every assignment under which the expression is true extends to a model
/// of "the expression is true" that differs from it only on outputs of
/// gates.
pub proof fn expr_true_complete<V>(names: Seq<Option<V>>, e: Expr<V>, a: Assignment) -> (b:
    Assignment)
    requires
        expr_fits(names, e),
        expr_known(names.len() as int, e),
        expr_value(a, names, e),
    ensures
        only_new(b, a, expr_true_encoded(names, e).names, names.len() as int),
        all_true(b, expr_true_encoded(names, e).clauses),
{
    let b = expr_set(a, a, names, e);
    lemma_expr_set(a, a, names, names.len() as int, e, Direction::OutToIn);
    let p = expr_encoded(names, e, Direction::OutToIn);
    lemma_clause1(b, p.repr);
    lemma_all_true_push(b, p.clauses, seq![p.repr]);
    b
}

/// Every assignment extends to a model of a reification of an expression
/// in which the representative has the value of the expression, and which
/// differs from the assignment only on outputs of gates.
pub proof fn expr_repr_extends<V>(
    names: Seq<Option<V>>,
    e: Expr<V>,
    equal: bool,
    a: Assignment,
) -> (b: Assignment)
    requires
        expr_fits(names, e),
        expr_known(names.len() as int, e),
    ensures
        only_new(b, a, expr_repr_encoded(names, e, None, equal).names, names.len() as int),
        all_true(b, expr_repr_encoded(names, e, None, equal).clauses),
        lit_true(b, expr_repr_encoded(names, e, None, equal).repr) == expr_value(a, names, e),
{
    let dir = repr_dir(equal, Direction::InToOut);
    let b = expr_set(a, a, names, e);
    lemma_expr_set(a, a, names, names.len() as int, e, dir);
    let p = expr_encoded(names, e, dir);
    assert(p.clauses + tie_clauses(p.repr, None) =~= p.clauses);
    b
}

} // verus!
