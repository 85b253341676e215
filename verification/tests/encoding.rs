use satoxid::backend::SolveResult::{Sat, Unknown, Unsat};
use satoxid::backend::{Backend, IncrementalSolver, SolveResult, Solver};
use satoxid::cadical_backend::{solve_result, value_or_true, CadicalEncoder, CadicalSolver};
use satoxid::circuit::{clause1, clause2, clause3, Circuit, Direction};
use satoxid::constraints::basic::{Clause, Equal};
use satoxid::constraints::bounds::{AtMostK, AtleastK, ExactlyK};
use satoxid::constraints::cardinality::{
    encode_cardinality_constraint, encode_counter_first_row, encode_counter_row, new_vars,
};
use satoxid::constraints::same::{
    add_tail_zeros, column_clause, encode_same_cardinality_repr, group_lens, SameCardinality,
};
use satoxid::constraints::test_util::{
    assumptions_with, check_repr, constraint_equals_repr_tester, judge, retry_until_unsat,
    ConstraintTestResult, ReprFault,
};
use satoxid::constraints::util::{
    add_guards, add_negated_units, clause_with, pick_repr, tie_repr,
};
use satoxid::constraints::{Constraint, ConstraintRepr};
use satoxid::encoder::{read_values, Encoder};
use satoxid::lit::Lit::{Neg, Pos};
use satoxid::lit::{Lit, VarType};
use satoxid::mock::{copy_row, MockSolver};
use satoxid::model::Model;
use satoxid::varmap::VarMap;
use std::cmp::Ordering;

fn named(vars: &[&'static str]) -> Vec<VarType<&'static str>> {
    vars.iter().map(|v| VarType::Named(Pos(*v))).collect()
}

fn mock_encoder() -> Encoder<&'static str, MockSolver> {
    Encoder::with_backend(MockSolver::new())
}

fn sorted_models(encoder: &mut CadicalEncoder<&'static str>) -> Vec<Vec<(&'static str, bool)>> {
    let found = std::cell::RefCell::new(Vec::new());
    retry_until_unsat(encoder, |model: &Model<&'static str>| {
        let mut m: Vec<(&'static str, bool)> =
            model.vars().iter().map(|l| (*l.var(), l.is_pos())).collect();
        m.sort();
        found.borrow_mut().push(m);
    });
    let mut all = found.into_inner();
    all.sort();
    all
}

#[test]
fn negation_flips_and_returns() {
    let l = Pos("a");
    assert_eq!(!l, Neg("a"));
    assert_eq!(!!l, l);
    let n: VarType<&str> = VarType::Unnamed(7);
    assert_eq!(!n, VarType::Unnamed(-7));
    assert_eq!(!!n, n);
    let v = VarType::Named(Neg("b"));
    assert_eq!(!v, VarType::Named(Pos("b")));
    assert_eq!(!!v, v);
}

#[test]
fn literal_accessors() {
    let p = Pos(3u32);
    let n = Neg(3u32);
    assert!(p.is_pos());
    assert!(!p.is_neg());
    assert!(n.is_neg());
    assert!(!n.is_pos());
    assert_eq!(*p.var(), 3);
    assert_eq!(n.unwrap(), 3);
    assert_eq!(VarType::from(p), VarType::Named(Pos(3u32)));
    assert_eq!(VarType::from(5u32), VarType::Named(Pos(5u32)));
}

#[test]
fn literals_order_by_variable_then_polarity() {
    assert_eq!(Pos(1).partial_cmp(&Neg(1)), Some(Ordering::Less));
    assert_eq!(Neg(1).partial_cmp(&Pos(1)), Some(Ordering::Greater));
    assert_eq!(Neg(1).partial_cmp(&Pos(2)), Some(Ordering::Less));
    assert_eq!(Pos(2).partial_cmp(&Neg(1)), Some(Ordering::Greater));
    assert_eq!(Neg(4).partial_cmp(&Neg(4)), Some(Ordering::Equal));
    assert!(Pos(1) < Neg(1));
    assert!(VarType::Named(Pos(1)) < VarType::Named(Neg(1)));
    assert!(VarType::Named(Neg(9)) < VarType::Unnamed(-5));
    assert!(VarType::<u32>::Unnamed(-5) < VarType::Unnamed(2));
}

#[test]
fn varmap_numbers_in_order_of_first_use() {
    let mut m: VarMap<&str> = VarMap::new();
    assert_eq!(m.add_var(VarType::Named(Pos("a"))), 1);
    assert_eq!(m.add_var(VarType::Named(Neg("b"))), -2);
    assert_eq!(m.new_var(), 3);
    assert_eq!(m.add_var(VarType::Named(Neg("a"))), -1);
    assert_eq!(m.add_var(VarType::Unnamed(-9)), -9);
    assert_eq!(m.add_var(VarType::Named(Pos("c"))), 4);
    assert_eq!(m.num_vars(), 4);
    assert!(m.has_room());
    assert_eq!(m.iter_internal_vars(), vec![1, 2, 3, 4]);

    assert_eq!(m.get_var(VarType::Named(Pos("b"))), Some(2));
    assert_eq!(m.get_var(VarType::Named(Neg("c"))), Some(-4));
    assert_eq!(m.get_var(VarType::Named(Pos("z"))), None);
    assert_eq!(m.get_var(VarType::Unnamed(12)), Some(12));

    assert_eq!(m.lookup(1), Some(Pos("a")));
    assert_eq!(m.lookup(-1), Some(Neg("a")));
    assert_eq!(m.lookup(-2), Some(Neg("b")));
    assert_eq!(m.lookup(3), None);
    assert_eq!(m.lookup(5), None);
    assert_eq!(m.lookup(0), None);
    assert_eq!(m.lookup(i32::MIN), None);
}

#[test]
fn varmap_adds_sequences_and_copies() {
    let mut m: VarMap<&str> = VarMap::new();
    let ids = m.add_vars(&vec![
        VarType::Named(Pos("x")),
        VarType::Named(Neg("y")),
        VarType::Named(Neg("x")),
        VarType::Unnamed(5),
    ]);
    assert_eq!(ids, vec![1, -2, -1, 5]);
    let copy = m.snapshot();
    m.new_var();
    assert_eq!(copy.num_vars(), 2);
    assert_eq!(copy.lookup(2), Some(Pos("y")));
    assert_eq!(copy.get_var(VarType::Named(Pos("x"))), Some(1));
    assert_eq!(m.num_vars(), 3);
    assert_eq!(VarMap::copy_lit(&VarType::Named(Neg("q"))), VarType::Named(Neg("q")));
}

#[test]
fn two_sessions_number_alike() {
    let run = || {
        let mut e = mock_encoder();
        e.add_constraint(AtMostK { k: 2, lits: named(&["a", "b", "c", "d"]) });
        let r = e.add_constraint_equals_repr(ExactlyK { k: 1, lits: named(&["c", "e"]) });
        (e.backend.get_clauses(), e.varmap.num_vars(), r)
    };
    let first = run();
    let second = run();
    assert_eq!(first, second);
    assert!(first.1 > 5);
}

#[test]
fn gates_by_direction() {
    let gate = |dir: Direction, which: u8| {
        let mut b = MockSolver::new();
        let c = Circuit::new(dir);
        match which {
            0 => c.equal(&mut b, 1, -2),
            1 => c.set_zero(&mut b, 3),
            2 => c.and_gate(&mut b, &vec![1, -2, 3], 4),
            _ => c.or_gate(&mut b, &vec![1, -2, 3], 4),
        }
        b.get_clauses()
    };
    assert_eq!(gate(Direction::InToOut, 0), vec![vec![-1, -2]]);
    assert_eq!(gate(Direction::OutToIn, 0), vec![vec![1, 2]]);
    assert_eq!(gate(Direction::Both, 0), vec![vec![-1, -2], vec![1, 2]]);

    assert_eq!(gate(Direction::InToOut, 1), vec![vec![-3]]);
    assert_eq!(gate(Direction::OutToIn, 1), vec![vec![-3]]);
    assert_eq!(gate(Direction::Both, 1), vec![vec![-3]]);

    assert_eq!(gate(Direction::InToOut, 2), vec![vec![-1, 2, -3, 4]]);
    assert_eq!(
        gate(Direction::OutToIn, 2),
        vec![vec![-4, 1], vec![-4, -2], vec![-4, 3]]
    );
    assert_eq!(
        gate(Direction::Both, 2),
        vec![vec![-1, 2, -3, 4], vec![-4, 1], vec![-4, -2], vec![-4, 3]]
    );

    assert_eq!(
        gate(Direction::InToOut, 3),
        vec![vec![-1, 4], vec![2, 4], vec![-3, 4]]
    );
    assert_eq!(gate(Direction::OutToIn, 3), vec![vec![-4, 1, -2, 3]]);
    assert_eq!(
        gate(Direction::Both, 3),
        vec![vec![-1, 4], vec![2, 4], vec![-3, 4], vec![-4, 1, -2, 3]]
    );
    assert!(Direction::Both.has_forward() && Direction::Both.has_backward());
    assert!(Direction::InToOut.has_forward() && !Direction::InToOut.has_backward());
    assert!(!Direction::OutToIn.has_forward() && Direction::OutToIn.has_backward());
}

#[test]
fn small_clause_builders() {
    assert_eq!(clause1(4), vec![4]);
    assert_eq!(clause2(4, -5), vec![4, -5]);
    assert_eq!(clause3(4, -5, 6), vec![4, -5, 6]);
    assert_eq!(copy_row(&vec![1, 2, 3]), vec![1, 2, 3]);
    assert_eq!(clause_with(&vec![1, -2], 9), vec![1, -2, 9]);
    assert_eq!(assumptions_with(&vec![1, -2], -9), vec![1, -2, -9]);
    assert_eq!(column_clause(&vec![vec![1, 2], vec![3, 4]], 1, false, 9), vec![2, 4, 9]);
    assert_eq!(column_clause(&vec![vec![1, 2], vec![3, 4]], 0, true, 9), vec![-1, -3, 9]);
}

#[test]
fn helper_clauses() {
    let mut b = MockSolver::new();
    add_negated_units(&mut b, &vec![1, -2]);
    add_guards(&mut b, &vec![3, -4], 7);
    add_tail_zeros(&mut b, &vec![10, 11, 12, 13], 2);
    assert_eq!(
        b.get_clauses(),
        vec![vec![-1], vec![2], vec![-3, 7], vec![4, 7], vec![-13], vec![-12]]
    );
    b.clear_clauses();
    assert_eq!(tie_repr(5, None, &mut b), 5);
    assert_eq!(b.get_clauses(), Vec::<Vec<i32>>::new());
    assert_eq!(tie_repr(5, Some(-8), &mut b), -8);
    assert_eq!(b.get_clauses(), vec![vec![-5, -8], vec![5, 8]]);

    let mut m: VarMap<u32> = VarMap::new();
    assert_eq!(pick_repr(Some(-3), &mut m), -3);
    assert_eq!(m.num_vars(), 0);
    assert_eq!(pick_repr(None, &mut m), 1);
    assert_eq!(m.num_vars(), 1);
    assert_eq!(new_vars(&mut m, 3), vec![2, 3, 4]);
    assert_eq!(group_lens(&vec![named(&["a", "b"]), named(&["c"]), named(&["d", "e", "f"])]), (3, 1));
}

#[test]
fn counter_rows() {
    let mut b = MockSolver::new();
    encode_counter_first_row(Direction::Both, 1, &vec![2, 3, 4], 3, &mut b);
    assert_eq!(
        b.get_clauses(),
        vec![vec![-1, 2], vec![1, -2], vec![-3], vec![-4]]
    );

    let mut b = MockSolver::new();
    let mut m: VarMap<u32> = VarMap::new();
    new_vars(&mut m, 5);
    encode_counter_row(Direction::InToOut, 1, &vec![2, 3], &vec![4, 5], 2, &mut b, &mut m);
    assert_eq!(m.num_vars(), 6);
    assert_eq!(
        b.get_clauses(),
        vec![
            // output 0: the input or the row before
            vec![-1, 4],
            vec![-2, 4],
            // the AND variable 6, in both directions
            vec![-1, -2, 6],
            vec![-6, 1],
            vec![-6, 2],
            // output 1
            vec![-6, 5],
            vec![-3, 5],
        ]
    );
}

#[test]
fn counter_of_two_inputs_and_two_outputs() {
    let mut b = MockSolver::new();
    let mut m: VarMap<&str> = VarMap::new();
    let out = encode_cardinality_constraint(
        &named(&["a", "b"]),
        2,
        Direction::OutToIn,
        None,
        &mut b,
        &mut m,
    );
    // a = 1, b = 2, first row 3 4, second row 5 6, AND variable 7
    assert_eq!(out, vec![5, 6]);
    assert_eq!(m.num_vars(), 7);
    assert_eq!(
        b.get_clauses(),
        vec![
            vec![1, -3],
            vec![-4],
            vec![-5, 2, 3],
            vec![-2, -3, 7],
            vec![-7, 2],
            vec![-7, 3],
            vec![-6, 7, 4],
        ]
    );
}

#[test]
fn counter_with_a_given_last_row() {
    let mut b = MockSolver::new();
    let mut m: VarMap<&str> = VarMap::new();
    let row = new_vars(&mut m, 3);
    let out = encode_cardinality_constraint(
        &named(&["a", "b"]),
        2,
        Direction::InToOut,
        Some(&row),
        &mut b,
        &mut m,
    );
    // row = 1 2 3, a = 4, b = 5, first row 6 7, AND variable 8
    assert_eq!(out, vec![1, 2, 3]);
    assert_eq!(m.num_vars(), 8);
    assert_eq!(
        b.get_clauses(),
        vec![
            vec![-4, 6],
            vec![-7],
            vec![-5, 1],
            vec![-6, 1],
            vec![-5, -6, 8],
            vec![-8, 5],
            vec![-8, 6],
            vec![-8, 2],
            vec![-7, 2],
        ]
    );

    // a single input takes the given row as its only row
    let mut b = MockSolver::new();
    let mut m: VarMap<&str> = VarMap::new();
    let row = new_vars(&mut m, 1);
    let out = encode_cardinality_constraint(
        &named(&["a"]),
        1,
        Direction::Both,
        Some(&row),
        &mut b,
        &mut m,
    );
    assert_eq!(out, vec![1]);
    assert_eq!(m.num_vars(), 2);
    assert_eq!(b.get_clauses(), vec![vec![-2, 1], vec![2, -1]]);
}

#[test]
fn at_most_zero_of_three() {
    let mut e = mock_encoder();
    e.add_constraint(AtMostK { k: 0, lits: named(&["a", "b", "c"]) });
    assert_eq!(e.backend.get_clauses(), vec![vec![-1], vec![-2], vec![-3]]);
    assert_eq!(e.varmap.num_vars(), 3);

    let mut e = CadicalEncoder::new();
    e.add_constraint(AtMostK { k: 0, lits: named(&["a", "b", "c"]) });
    assert_eq!(
        sorted_models(&mut e),
        vec![vec![("a", false), ("b", false), ("c", false)]]
    );
}

#[test]
fn at_most_one_of_three() {
    let mut e = CadicalEncoder::new();
    e.add_constraint(AtMostK { k: 1, lits: named(&["a", "b", "c"]) });
    assert_eq!(
        sorted_models(&mut e),
        vec![
            vec![("a", false), ("b", false), ("c", false)],
            vec![("a", false), ("b", false), ("c", true)],
            vec![("a", false), ("b", true), ("c", false)],
            vec![("a", true), ("b", false), ("c", false)],
        ]
    );
}

#[test]
fn exactly_one_of_three() {
    let mut e = CadicalEncoder::new();
    e.add_constraint(ExactlyK { k: 1, lits: named(&["A", "B", "C"]) });
    let models = sorted_models(&mut e);
    assert_eq!(models.len(), 3);
    for m in models {
        assert_eq!(m.iter().filter(|(_, b)| *b).count(), 1);
    }
}

#[test]
fn same_cardinality_of_two_pairs() {
    let mut e = CadicalEncoder::new();
    let mut c = SameCardinality::new();
    c.add_lits(named(&["a", "b"])).add_lits(named(&["c", "d"]));
    e.add_constraint(c);
    let models = sorted_models(&mut e);
    assert_eq!(models.len(), 6);
    for m in models {
        let left = m.iter().filter(|(v, b)| *b && (*v == "a" || *v == "b")).count();
        let right = m.iter().filter(|(v, b)| *b && (*v == "c" || *v == "d")).count();
        assert_eq!(left, right);
    }
}

#[test]
fn same_cardinality_with_a_single_literal_group() {
    let mut e = CadicalEncoder::new();
    let mut c = SameCardinality::new();
    c.add_lits(named(&["a"])).add_lits(named(&["b", "c"]));
    e.add_constraint(c);
    // a false and neither of b, c; or a true and exactly one of them
    assert_eq!(
        sorted_models(&mut e),
        vec![
            vec![("a", false), ("b", false), ("c", false)],
            vec![("a", true), ("b", false), ("c", true)],
            vec![("a", true), ("b", true), ("c", false)],
        ]
    );
}

#[test]
fn empty_same_cardinality() {
    let mut e = mock_encoder();
    e.add_constraint(SameCardinality::new());
    assert_eq!(e.backend.get_clauses(), Vec::<Vec<i32>>::new());
    assert_eq!(e.varmap.num_vars(), 0);

    let r = encode_same_cardinality_repr(
        SameCardinality::<&str>::new(),
        None,
        &mut e.backend,
        &mut e.varmap,
        true,
    );
    assert_eq!(r, 1);
    assert_eq!(e.backend.get_clauses(), vec![vec![1]]);
}

#[test]
fn same_cardinality_repr_of_two_single_groups() {
    let mut e = mock_encoder();
    let mut c = SameCardinality::new();
    c.add_lits(named(&["a"])).add_lits(named(&["b"]));
    let r = c.encode_constraint_equals_repr(None, &mut e.backend, &mut e.varmap);
    // r = 1; row 2 for a = 3; row 4 for b = 5; agreement variable 6
    assert_eq!(r, 1);
    assert_eq!(
        e.backend.get_clauses(),
        vec![
            vec![-3, 2],
            vec![3, -2],
            vec![-5, 4],
            vec![5, -4],
            vec![2, 4, 6],
            vec![-2, -4, 6],
            vec![-2, 4, -6],
            vec![-4, 2, -6],
            vec![-1, 6],
            vec![-6, 1],
        ]
    );
}

#[test]
fn reified_at_least_composes() {
    let mut e = CadicalEncoder::new();
    let r = e.add_constraint_equals_repr(AtleastK { k: 2, lits: named(&["a", "b", "c"]) });
    e.add_constraint(r);
    assert_eq!(
        sorted_models(&mut e),
        vec![
            vec![("a", false), ("b", true), ("c", true)],
            vec![("a", true), ("b", false), ("c", true)],
            vec![("a", true), ("b", true), ("c", false)],
            vec![("a", true), ("b", true), ("c", true)],
        ]
    );
}

#[test]
fn at_least_zero_with_shadows() {
    let mut e: CadicalEncoder<u32> = CadicalEncoder::new();
    for v in 0..5u32 {
        e.add_constraint(Equal(vec![VarType::Named(Pos(v)), VarType::Named(Pos(v + 5))]));
    }
    e.add_constraint(AtleastK { k: 0, lits: (0..5u32).map(|v| VarType::Named(Pos(v))).collect() });
    let count = retry_until_unsat(&mut e, |_m: &Model<u32>| {});
    assert_eq!(count, 32);
}

#[test]
fn reifications_of_bounds_with_a_given_representative() {
    // repr = 1, a = 2, b = 3; counter rows 4 5 / 6 7 with AND variable 8
    let mut e = mock_encoder();
    let repr = e.varmap.new_var();
    let r = AtMostK { k: 1, lits: named(&["a", "b"]) }.encode_constraint_implies_repr(
        Some(repr),
        &mut e.backend,
        &mut e.varmap,
    );
    assert_eq!(r, repr);
    let clauses = e.backend.get_clauses();
    assert_eq!(&clauses[clauses.len() - 2..], &[vec![7, 1], vec![-7, -1]]);

    let mut e = mock_encoder();
    let repr = e.varmap.new_var();
    let r = AtleastK { k: 2, lits: named(&["a", "b"]) }.encode_constraint_equals_repr(
        Some(repr),
        &mut e.backend,
        &mut e.varmap,
    );
    assert_eq!(r, repr);
    let clauses = e.backend.get_clauses();
    assert_eq!(&clauses[clauses.len() - 2..], &[vec![-7, 1], vec![7, -1]]);

    let mut e = mock_encoder();
    let r = ExactlyK { k: 1, lits: named(&["a", "b"]) }.encode_constraint_equals_repr(
        None,
        &mut e.backend,
        &mut e.varmap,
    );
    assert_eq!(r, 1);
    let clauses = e.backend.get_clauses();
    assert_eq!(
        &clauses[clauses.len() - 3..],
        &[vec![-6, 7, 1], vec![6, -1], vec![-7, -1]]
    );
}

#[test]
fn reifications_of_zero_bounds() {
    let mut e = mock_encoder();
    let r = AtMostK { k: 0, lits: named(&["a", "b"]) }.encode_constraint_equals_repr(
        None,
        &mut e.backend,
        &mut e.varmap,
    );
    assert_eq!(r, 1);
    assert_eq!(
        e.backend.get_clauses(),
        vec![vec![2, 3, 1], vec![-2, -1], vec![-3, -1]]
    );

    let mut e = mock_encoder();
    let r = ExactlyK { k: 0, lits: named(&["a", "b"]) }.encode_constraint_implies_repr(
        None,
        &mut e.backend,
        &mut e.varmap,
    );
    assert_eq!(r, 1);
    assert_eq!(e.backend.get_clauses(), vec![vec![2, 3, 1]]);

    let mut e = mock_encoder();
    let r = AtleastK { k: 0, lits: named(&["a", "b"]) }.encode_constraint_implies_repr(
        None,
        &mut e.backend,
        &mut e.varmap,
    );
    assert_eq!(r, 1);
    assert_eq!(e.backend.get_clauses(), vec![vec![1]]);
    assert_eq!(e.varmap.num_vars(), 1);
}

#[test]
fn literals_and_clauses_as_constraints() {
    let mut e = mock_encoder();
    e.add_constraint(Pos("a"));
    e.add_constraint(VarType::Named(Neg("b")));
    e.add_constraint(VarType::<&str>::Unnamed(-7));
    e.add_constraint(Clause(vec![
        VarType::Named(Neg("a")),
        VarType::Named(Pos("c")),
        VarType::Unnamed(9),
    ]));
    e.add_constraint(Equal(named(&["a", "b", "c"])));
    assert_eq!(
        e.backend.get_clauses(),
        vec![
            vec![1],
            vec![-2],
            vec![-7],
            vec![-1, 3, 9],
            vec![-1, 2],
            vec![1, -2],
            vec![-2, 3],
            vec![2, -3],
        ]
    );

    let mut e = mock_encoder();
    assert_eq!(
        Neg("a").encode_constraint_implies_repr(None, &mut e.backend, &mut e.varmap),
        -1
    );
    assert_eq!(e.backend.get_clauses(), Vec::<Vec<i32>>::new());
    assert_eq!(
        Neg("a").encode_constraint_implies_repr(Some(5), &mut e.backend, &mut e.varmap),
        5
    );
    assert_eq!(
        Pos("b").encode_constraint_equals_repr(Some(6), &mut e.backend, &mut e.varmap),
        6
    );
    assert_eq!(
        e.backend.get_clauses(),
        vec![vec![1, 5], vec![-2, 6], vec![2, -6]]
    );

    let mut e = mock_encoder();
    let r = Clause(named(&["a", "b"])).encode_constraint_equals_repr(
        None,
        &mut e.backend,
        &mut e.varmap,
    );
    assert_eq!(r, 1);
    assert_eq!(
        e.backend.get_clauses(),
        vec![vec![-2, 1], vec![-3, 1], vec![-1, 2, 3]]
    );
    assert_eq!(e.add_constraint_implies_repr(Pos("a")), VarType::Unnamed(2));
}

#[test]
fn model_lookups() {
    let mut m: VarMap<&str> = VarMap::new();
    m.add_var(VarType::Named(Pos("a")));
    m.new_var();
    m.add_var(VarType::Named(Pos("b")));
    let model = Model::from_values(&m, vec![true, false, false]);
    assert_eq!(
        model.all_vars(),
        vec![
            VarType::Named(Pos("a")),
            VarType::Unnamed(-2),
            VarType::Named(Neg("b"))
        ]
    );
    assert_eq!(model.vars(), vec![Pos("a"), Neg("b")]);
    assert_eq!(model.var("a"), Some(true));
    assert_eq!(model.var("b"), Some(false));
    assert_eq!(model.var("c"), None);
    assert_eq!(model.lit(Neg("a")), Some(false));
    assert_eq!(model.lit(Neg("b")), Some(true));
    assert_eq!(model.lit(Pos("c")), None);
    assert!(model.lit_internal(VarType::Unnamed(-2)));
    assert!(!model.lit_internal(VarType::Unnamed(2)));
    assert!(!model.lit_internal(VarType::Unnamed(1)));
    assert!(!model.lit_internal(VarType::Unnamed(4)));
    assert!(!model.lit_internal(VarType::Unnamed(0)));
    assert!(model.lit_internal(VarType::Named(Pos("a"))));
    assert!(!model.lit_internal(VarType::Named(Pos("b"))));
    assert!(!model.lit_internal(VarType::Named(Pos("c"))));
    assert_eq!(model.value_of(VarType::Named(Neg("b"))), Some(true));
    assert_eq!(model.value_of(VarType::Named(Pos("c"))), None);
    assert_eq!(model.value_of(VarType::Unnamed(2)), Some(false));
    assert_eq!(model.value_of(VarType::Unnamed(-2)), Some(true));
    assert_eq!(model.value_of(VarType::Unnamed(1)), None);
    assert_eq!(model.value_of(VarType::Unnamed(9)), None);
    assert!(model.index(VarType::Named(Pos("a"))));
    assert!(!model.index(VarType::Unnamed(2)));
    assert_eq!(model.named_literals(false), vec![1, -3]);
    assert_eq!(model.named_literals(true), vec![-1, 3]);
}

#[test]
fn verdicts() {
    assert_eq!(judge(false, true, true, Sat, Unsat), Ok(true));
    assert_eq!(judge(true, true, true, Unknown, Unsat), Ok(true));
    assert_eq!(
        judge(false, true, false, Sat, Unsat),
        Err(ReprFault::FalseThoughSatisfied)
    );
    assert_eq!(judge(false, true, true, Sat, Sat), Err(ReprFault::NotForced));
    assert_eq!(judge(false, true, true, Sat, Unknown), Err(ReprFault::NoAnswer));
    assert_eq!(judge(false, false, false, Sat, Sat), Ok(false));
    assert_eq!(judge(false, false, true, Unsat, Sat), Err(ReprFault::CannotBeTrue));
    assert_eq!(judge(false, false, true, Sat, Unsat), Err(ReprFault::CannotBeFalse));
    assert_eq!(judge(false, false, true, Unknown, Sat), Err(ReprFault::NoAnswer));
    assert_eq!(judge(false, false, true, Sat, Unknown), Err(ReprFault::NoAnswer));
    assert_eq!(judge(true, false, false, Unsat, Sat), Ok(false));
    assert_eq!(
        judge(true, false, false, Sat, Sat),
        Err(ReprFault::TrueThoughViolated)
    );
    assert_eq!(judge(true, false, false, Unsat, Unsat), Err(ReprFault::CannotBeFalse));
    assert_eq!(ConstraintTestResult { correct: 3, incorrect: 4 }.total(), 7);
}

#[test]
fn a_wrong_representative_is_found_out() {
    // The negated representative of "at least 2 of 3" is no representative.
    let mut e = CadicalEncoder::new();
    let repr = AtleastK { k: 2, lits: named(&["a", "b", "c"]) }.encode_constraint_equals_repr(
        None,
        &mut e.backend,
        &mut e.varmap,
    );
    let holds = |m: &Model<&'static str>| m.vars().iter().filter(|l| l.is_pos()).count() >= 2;
    let res = constraint_equals_repr_tester(&mut e, -repr, holds);
    assert!(res.is_err());

    // A two-sided representative is not free where the constraint fails.
    let mut e = CadicalEncoder::new();
    let repr = AtleastK { k: 2, lits: named(&["a", "b", "c"]) }.encode_constraint_equals_repr(
        None,
        &mut e.backend,
        &mut e.varmap,
    );
    let res = check_repr(&mut e, repr, holds, false);
    assert_eq!(res, Err(ReprFault::CannotBeTrue));
}

#[test]
fn mock_solver_never_answers() {
    let mut s = MockSolver::new();
    s.add_clause(&vec![1]);
    assert_eq!(s.solve(), SolveResult::Unknown);
    assert_eq!(s.assumption_solve(&vec![1]), SolveResult::Unknown);
    let mut e = mock_encoder();
    e.add_constraint(Pos("a"));
    assert!(e.solve().is_none());
    assert_eq!(retry_until_unsat(&mut e, |_m: &Model<&'static str>| {}), 0);
}

#[test]
fn cadical_answers() {
    assert_eq!(solve_result(Some(true)), SolveResult::Sat);
    assert_eq!(solve_result(Some(false)), SolveResult::Unsat);
    assert_eq!(solve_result(None), SolveResult::Unknown);
    assert!(value_or_true(Some(true)));
    assert!(!value_or_true(Some(false)));
    assert!(value_or_true(None));

    let mut s = CadicalSolver::new();
    s.add_clause(&vec![1, 2]);
    s.add_clause(&vec![-1]);
    assert_eq!(s.solve(), SolveResult::Sat);
    assert!(!s.value(1));
    assert!(s.value(2));
    assert_eq!(read_values(&mut s, 2), vec![false, true]);
    assert_eq!(s.assumption_solve(&vec![-2]), SolveResult::Unsat);
    assert_eq!(s.assumption_solve(&vec![2]), SolveResult::Sat);
    s.add_clause(&vec![-2]);
    assert_eq!(s.solve(), SolveResult::Unsat);
    let d = CadicalSolver::default();
    let mut e: CadicalEncoder<u32> = Encoder::with_backend(d);
    e.add_constraint(Lit::Neg(3u32));
    let model = e.solve().unwrap();
    assert_eq!(model.var(3), Some(false));
}

#[test]
fn debug_sessions_encode_alike() {
    let mut plain: Encoder<&str, MockSolver> = Encoder::with_backend(MockSolver::new());
    let mut debug: CadicalEncoder<&str> = CadicalEncoder::with_debug();
    assert!(debug.debug);
    assert!(!plain.debug);
    plain.add_constraint(AtleastK { k: 1, lits: named(&["a", "b"]) });
    debug.add_constraint(AtleastK { k: 1, lits: named(&["a", "b"]) });
    let r = debug.add_constraint_implies_repr(Pos("a"));
    assert_eq!(r, VarType::Unnamed(1));
    assert_eq!(plain.varmap.num_vars(), debug.varmap.num_vars());
}
