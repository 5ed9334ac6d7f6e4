use rumba_core::expr::{Expr, VarId};
use rumba_core::expr_tables::compare_on;

fn x() -> Expr {
    Expr::Var(VarId(0))
}

fn y() -> Expr {
    Expr::Var(VarId(1))
}

#[test]
fn equal_expressions_are_never_told_apart() {
    let left = x().bitxor(y()).add(Expr::Scale(2, Box::new(x().bitand(y()))));
    let right = x().add(y());
    assert_eq!(left.sem_equal(&right, 64, 200), Ok(()));
    assert_eq!(left.sem_equal(&right, 8, 200), Ok(()));
}

#[test]
fn different_expressions_give_a_counterexample() {
    let shifted = x().add(Expr::Const(1));
    let Err((vars, got, want)) = x().sem_equal(&shifted, 8, 10) else {
        panic!("x and x + 1 differ everywhere");
    };
    assert_eq!(vars.len(), 1);
    assert!(vars[0] <= 0xff);
    assert_eq!(got, vars[0]);
    assert_eq!(want, (vars[0] + 1) & 0xff);
}

#[test]
fn comparing_nothing_succeeds() {
    assert_eq!(x().sem_equal(&y(), 64, 0), Ok(()));
}

#[test]
fn inputs_cover_the_larger_variable_of_either() {
    let Err((vars, _, _)) = Expr::Var(VarId(3)).sem_equal(&Expr::Const(5).add(Expr::Var(VarId(3))), 64, 5)
    else {
        panic!("v3 and v3 + 5 differ everywhere");
    };
    assert_eq!(vars.len(), 4);
}

#[test]
fn truth_tables_list_values_on_bit_inputs() {
    assert_eq!(x().bitand(y()).truth_table(2, 64), vec![0, 0, 0, 1]);
    assert_eq!(x().truth_table(2, 8), vec![0, 1, 0, 1]);
    assert_eq!(y().not().truth_table(2, 8), vec![0xff, 0xff, 0xfe, 0xfe]);
    assert_eq!(Expr::Const(7).truth_table(0, 2), vec![3]);
}

#[test]
fn compare_on_gives_the_first_assignment_that_differs() {
    let a = Expr::Var(VarId(0));
    let b = Expr::And(vec![Expr::Var(VarId(0)), Expr::Const(1)]);
    let samples = vec![vec![1u64], vec![3u64], vec![5u64], vec![6u64]];
    assert_eq!(compare_on(&a, &b, 0xff, &samples), Err((vec![3u64], 3, 1)));
    let same = vec![vec![0u64], vec![1u64]];
    assert_eq!(compare_on(&a, &b, 0xff, &same), Ok(()));
    assert_eq!(compare_on(&a, &b, 0xff, &vec![]), Ok(()));
    // Through a one-bit mask the two agree everywhere.
    assert_eq!(compare_on(&a, &b, 1, &samples), Ok(()));
}
