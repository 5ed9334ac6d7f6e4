use rumba_core::expr::{Expr, VarId};
use rumba_core::factorized_section::{Base, FactorizedSectionRefusal};
use rumba_core::stationary::{boolean_coordinates, local_stationary, split_scale, stationary_graph};

const VARIABLES: [VarId; 2] = [VarId(0), VarId(1)];

fn x() -> Expr {
    Expr::Var(VarId(0))
}

fn y() -> Expr {
    Expr::Var(VarId(1))
}

#[test]
fn stationary_sources_are_bitwise_over_variables_and_extreme_constants() {
    assert!(local_stationary(&x().bitand(y().not())));
    assert!(local_stationary(&Expr::Xor(vec![x(), Expr::Const(u64::MAX), Expr::Const(0)])));
    assert!(!local_stationary(&Expr::Const(7)));
    assert!(!local_stationary(&x().add(y())));
    assert!(!local_stationary(&Expr::Or(vec![x(), Expr::Scale(2, Box::new(y()))])));
}

#[test]
fn scalings_fold_into_one_coefficient() {
    let nested = Expr::Scale(3, Box::new(Expr::Scale(5, Box::new(x()))));
    assert_eq!(split_scale(&nested), (15, x()));
    assert_eq!(split_scale(&x()), (1, x()));
    let wrapping = Expr::Scale(1 << 63, Box::new(Expr::Scale(2, Box::new(y()))));
    assert_eq!(split_scale(&wrapping), (0, y()));
}

#[test]
fn coordinates_are_the_values_on_boolean_assignments() {
    assert_eq!(boolean_coordinates(&x().add(y()), VARIABLES, 64), Ok([0, 1, 1, 2]));
    assert_eq!(boolean_coordinates(&x().add(y()), VARIABLES, 1), Ok([0, 1, 1, 0]));
    assert_eq!(boolean_coordinates(&x().not(), VARIABLES, 64), Ok([u64::MAX, u64::MAX - 1, u64::MAX, u64::MAX - 1]));
    // the second variable is set after the first
    assert_eq!(boolean_coordinates(&x(), [VarId(0), VarId(0)], 64), Ok([0, 0, 1, 1]));
    assert_eq!(
        boolean_coordinates(&x(), [VarId(0), VarId(4096)], 64),
        Err(FactorizedSectionRefusal::SourceBudgetExceeded)
    );
}

#[test]
fn stationary_graphs_have_one_base() {
    let graph = stationary_graph(&x().bitor(y()), VARIABLES).expect("graph");
    assert_eq!(graph.root, 0);
    assert_eq!(graph.r0, 0);
    assert_eq!(graph.bases, vec![Base { epsilon_nonzero: [1, 1, 1], tau: [0; 4] }]);
    let complement = stationary_graph(&x().bitor(y()).not(), VARIABLES).expect("graph");
    assert_eq!(complement.r0, -1);
    assert_eq!(complement.bases, vec![Base { epsilon_nonzero: [-1, -1, -1], tau: [0; 4] }]);
}
