use satoxid::circuit::Direction;
use satoxid::constraints::expr::encode_expr;
use satoxid::constraints::test_util::{
    constraint_equals_repr_tester, constraint_implies_repr_tester, retry_until_unsat,
};
use satoxid::constraints::{ConstraintRepr, Expr};
use satoxid::lit::Lit::{Neg, Pos};
use satoxid::lit::VarType;
use satoxid::{CadicalEncoder, Encoder, MockSolver, Model};

fn lit(v: &'static str) -> Box<Expr<&'static str>> {
    Box::new(Expr::Lit(VarType::Named(Pos(v))))
}

// (a and not b) or c
fn sample() -> Expr<&'static str> {
    Expr::Or(
        Box::new(Expr::And(lit("a"), Box::new(Expr::Not(lit("b"))))),
        lit("c"),
    )
}

fn value(m: &Model<&'static str>) -> bool {
    let on = |v: &'static str| m.var(v) == Some(true);
    (on("a") && !on("b")) || on("c")
}

#[test]
fn directions_flip() {
    assert_eq!(Direction::InToOut.flip(), Direction::OutToIn);
    assert_eq!(Direction::OutToIn.flip(), Direction::InToOut);
    assert_eq!(Direction::Both.flip(), Direction::Both);
}

#[test]
fn expression_circuit() {
    let mut e: Encoder<&str, MockSolver> = Encoder::with_backend(MockSolver::new());
    let r = encode_expr(sample(), Direction::Both, &mut e.backend, &mut e.varmap);
    // a = 1, b = 2, the conjunction 3, c = 4, the disjunction 5
    assert_eq!(r, 5);
    assert_eq!(
        e.backend.get_clauses(),
        vec![
            vec![-1, 2, 3],
            vec![-3, 1],
            vec![-3, -2],
            vec![-3, 5],
            vec![-4, 5],
            vec![-5, 3, 4],
        ]
    );

    let mut e: Encoder<&str, MockSolver> = Encoder::with_backend(MockSolver::new());
    let r = encode_expr(
        Expr::Not(Box::new(Expr::And(lit("a"), lit("b")))),
        Direction::InToOut,
        &mut e.backend,
        &mut e.varmap,
    );
    // under a negation gates are written backward
    assert_eq!(r, -3);
    assert_eq!(e.backend.get_clauses(), vec![vec![-3, 1], vec![-3, 2]]);

    let mut e: Encoder<&str, MockSolver> = Encoder::with_backend(MockSolver::new());
    let r = encode_expr(
        Expr::Lit(VarType::Named(Neg("a"))),
        Direction::Both,
        &mut e.backend,
        &mut e.varmap,
    );
    assert_eq!(r, -1);
    assert_eq!(e.backend.get_clauses(), Vec::<Vec<i32>>::new());
}

#[test]
fn expression_as_constraint() {
    let mut e: Encoder<&str, MockSolver> = Encoder::with_backend(MockSolver::new());
    e.add_constraint(sample());
    assert_eq!(
        e.backend.get_clauses(),
        vec![vec![-3, 1], vec![-3, -2], vec![-5, 3, 4], vec![5]]
    );

    let mut e = CadicalEncoder::new();
    e.add_constraint(sample());
    let n = retry_until_unsat(&mut e, |m: &Model<&'static str>| assert!(value(m)));
    assert_eq!(n, 5);
}

#[test]
fn expression_reified() {
    let mut e = CadicalEncoder::new();
    let repr = sample().encode_constraint_equals_repr(None, &mut e.backend, &mut e.varmap);
    let res = constraint_equals_repr_tester(&mut e, repr, value).unwrap();
    assert_eq!(res.correct, 5);
    assert_eq!(res.total(), 8);

    let mut e = CadicalEncoder::new();
    let given = e.varmap.new_var();
    let repr = sample().encode_constraint_equals_repr(Some(given), &mut e.backend, &mut e.varmap);
    assert_eq!(repr, given);
    let res = constraint_equals_repr_tester(&mut e, repr, value).unwrap();
    assert_eq!(res.correct, 5);
    assert_eq!(res.total(), 8);

    let mut e = CadicalEncoder::new();
    let repr = sample().encode_constraint_implies_repr(None, &mut e.backend, &mut e.varmap);
    let res = constraint_implies_repr_tester(&mut e, repr, value).unwrap();
    assert_eq!(res.correct, 5);
    assert_eq!(res.total(), 8);
}
