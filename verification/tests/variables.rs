use rumba_core::expr::{Expr, VarId};

#[test]
fn variables_are_listed_once_in_ascending_order() {
    let e = Expr::Add(vec![
        Expr::Var(VarId(3)),
        Expr::Not(Box::new(Expr::And(vec![Expr::Var(VarId(1)), Expr::Var(VarId(3))]))),
        Expr::Scale(5, Box::new(Expr::Var(VarId(0)))),
        Expr::Const(7),
    ]);
    assert_eq!(e.get_vars(), vec![VarId(0), VarId(1), VarId(3)]);
    assert_eq!(Expr::Const(1).get_vars(), Vec::<VarId>::new());
}
