use satoxid::cadical_backend::CadicalEncoder;
use satoxid::constraints::basic::Clause;
use satoxid::constraints::bounds::{AtMostK, AtleastK, ExactlyK};
use satoxid::constraints::logic::{encode_reprs, reversed, And, If, Or};
use satoxid::constraints::test_util::{constraint_equals_repr_tester, retry_until_unsat};
use satoxid::constraints::util::{equals_repr_by_guard, repr_implies_constraint};
use satoxid::constraints::ConstraintRepr;
use satoxid::encoder::Encoder;
use satoxid::lit::Lit::{Neg, Pos};
use satoxid::lit::VarType;
use satoxid::mock::MockSolver;
use satoxid::model::Model;

fn named(vars: &[&'static str]) -> Vec<VarType<&'static str>> {
    vars.iter().map(|v| VarType::Named(Pos(*v))).collect()
}

fn count_models(encoder: &mut CadicalEncoder<&'static str>, check: fn(&[bool]) -> bool) -> usize {
    retry_until_unsat(encoder, |model: &Model<&'static str>| {
        let mut m: Vec<(&'static str, bool)> =
            model.vars().iter().map(|l| (*l.var(), l.is_pos())).collect();
        m.sort();
        let values: Vec<bool> = m.iter().map(|(_, b)| *b).collect();
        assert!(check(&values), "unexpected model {:?}", m);
    })
}

#[test]
fn reversal() {
    assert_eq!(reversed(vec![1, 2, 3]), vec![3, 2, 1]);
    assert_eq!(reversed(Vec::<u8>::new()), Vec::<u8>::new());
}

#[test]
fn conjunction_encodes_each_in_order() {
    let mut e: Encoder<&str, MockSolver> = Encoder::with_backend(MockSolver::new());
    e.add_constraint(And(vec![Pos("a"), Neg("b"), Neg("a")]));
    assert_eq!(e.backend.get_clauses(), vec![vec![1], vec![-2], vec![-1]]);
}

#[test]
fn representatives_come_in_order() {
    let mut e: Encoder<&str, MockSolver> = Encoder::with_backend(MockSolver::new());
    let reprs = encode_reprs(
        vec![Pos("a"), Neg("b"), Neg("a")],
        true,
        &mut e.backend,
        &mut e.varmap,
    );
    assert_eq!(reprs, vec![1, -2, -1]);
    assert_eq!(e.backend.get_clauses(), Vec::<Vec<i32>>::new());
}

#[test]
fn gates_over_literals() {
    let mut e: Encoder<&str, MockSolver> = Encoder::with_backend(MockSolver::new());
    let r = And(vec![Pos("a"), Neg("b")]).encode_constraint_equals_repr(
        None,
        &mut e.backend,
        &mut e.varmap,
    );
    assert_eq!(r, 3);
    assert_eq!(
        e.backend.get_clauses(),
        vec![vec![-1, 2, 3], vec![-3, 1], vec![-3, -2]]
    );

    let mut e: Encoder<&str, MockSolver> = Encoder::with_backend(MockSolver::new());
    let r = Or(vec![Pos("a"), Neg("b")]).encode_constraint_implies_repr(
        Some(9),
        &mut e.backend,
        &mut e.varmap,
    );
    assert_eq!(r, 9);
    assert_eq!(e.backend.get_clauses(), vec![vec![-1, 9], vec![2, 9]]);

    let mut e: Encoder<&str, MockSolver> = Encoder::with_backend(MockSolver::new());
    e.add_constraint(Or(vec![Pos("a"), Neg("b")]));
    assert_eq!(e.backend.get_clauses(), vec![vec![1, -2]]);

    let mut e: Encoder<&str, MockSolver> = Encoder::with_backend(MockSolver::new());
    e.add_constraint(If { cond: Pos("a"), conseq: Neg("b") });
    assert_eq!(e.backend.get_clauses(), vec![vec![-1, -2]]);
}

#[test]
fn disjunction_of_bounds() {
    // exactly one of a, b, c — or all three
    let mut e = CadicalEncoder::new();
    e.add_constraint(Or(vec![
        AtMostK { k: 1, lits: named(&["a", "b", "c"]) },
        AtMostK { k: 0, lits: vec![VarType::Named(Neg("a")), VarType::Named(Neg("b")), VarType::Named(Neg("c"))] },
    ]));
    let n = count_models(&mut e, |v| {
        let t = v.iter().filter(|b| **b).count();
        t <= 1 || t == 3
    });
    assert_eq!(n, 5);
}

#[test]
fn conjunction_of_bounds_reified() {
    let mut e = CadicalEncoder::new();
    let c = And(vec![
        AtleastK { k: 1, lits: named(&["a", "b", "c"]) },
        AtleastK { k: 2, lits: named(&["b", "c", "d"]) },
    ]);
    let repr = c.encode_constraint_equals_repr(None, &mut e.backend, &mut e.varmap);
    let res = constraint_equals_repr_tester(&mut e, repr, |m: &Model<&'static str>| {
        let on = |v: &str| m.var(if v == "a" { "a" } else if v == "b" { "b" } else if v == "c" { "c" } else { "d" }) == Some(true);
        let first = ["a", "b", "c"].iter().filter(|v| on(v)).count();
        let second = ["b", "c", "d"].iter().filter(|v| on(v)).count();
        first >= 1 && second >= 2
    })
    .unwrap();
    assert_eq!(res.total(), 16);
    // b and c; or d with one of b, c
    assert_eq!(res.correct, 8);
}

#[test]
fn implication_of_bounds() {
    // if a or b, then exactly one of c, d
    let mut e = CadicalEncoder::new();
    e.add_constraint(If {
        cond: Clause(named(&["a", "b"])),
        conseq: ExactlyK { k: 1, lits: named(&["c", "d"]) },
    });
    let n = count_models(&mut e, |v| !(v[0] || v[1]) || (v[2] != v[3]));
    assert_eq!(n, 4 + 3 * 2);
}

#[test]
fn guarded_clauses() {
    let mut e: Encoder<&str, MockSolver> = Encoder::with_backend(MockSolver::new());
    let r = e.varmap.new_var();
    repr_implies_constraint(
        crate_clause(),
        r,
        &mut e.backend,
        &mut e.varmap,
    );
    assert_eq!(e.backend.get_clauses(), vec![vec![2, -3, -1]]);

    let mut e: Encoder<&str, MockSolver> = Encoder::with_backend(MockSolver::new());
    let r = equals_repr_by_guard(
        AtMostK { k: 0, lits: named(&["a", "b"]) },
        AtMostK { k: 0, lits: named(&["a", "b"]) },
        None,
        &mut e.backend,
        &mut e.varmap,
    );
    assert_eq!(r, 1);
    assert_eq!(
        e.backend.get_clauses(),
        vec![vec![2, 3, 1], vec![-2, -1], vec![-3, -1]]
    );
}

fn crate_clause() -> Clause<&'static str> {
    Clause(vec![VarType::Named(Pos("a")), VarType::Named(Neg("b"))])
}

#[test]
fn guarded_reification_is_two_sided() {
    let mut e = CadicalEncoder::new();
    let repr = equals_repr_by_guard(
        ExactlyK { k: 2, lits: named(&["a", "b", "c", "d"]) },
        ExactlyK { k: 2, lits: named(&["a", "b", "c", "d"]) },
        None,
        &mut e.backend,
        &mut e.varmap,
    );
    let res = constraint_equals_repr_tester(&mut e, repr, |m: &Model<&'static str>| {
        m.vars().iter().filter(|l| l.is_pos()).count() == 2
    })
    .unwrap();
    assert_eq!(res.correct, 6);
    assert_eq!(res.total(), 16);
}
