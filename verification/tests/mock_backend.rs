use satoxid::backend::Backend;
use satoxid::mock::MockSolver;

#[test]
fn mock_records_clauses_in_order() {
    let mut s = MockSolver::new();
    s.add_clause(&vec![1, -2]);
    s.add_clause(&vec![3]);
    assert_eq!(s.get_clauses(), vec![vec![1, -2], vec![3]]);
    s.clear_clauses();
    assert_eq!(s.get_clauses(), Vec::<Vec<i32>>::new());
}
