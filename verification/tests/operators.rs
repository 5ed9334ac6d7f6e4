use rumba_core::expr::{Expr, VarId};

#[test]
fn operators_build_the_nodes() {
    let x = Expr::Var(VarId(0));
    let y = Expr::Var(VarId(1));
    let mba = (x.clone() ^ y.clone()) + 2u64 * (x.clone() & y.clone());
    assert_eq!(
        mba,
        Expr::Add(vec![
            Expr::Xor(vec![x.clone(), y.clone()]),
            Expr::Scale(2, Box::new(Expr::And(vec![x.clone(), y.clone()]))),
        ])
    );
    // (x ^ y) + 2*(x & y) is an MBA encoding of x + y.
    assert!(mba.sem_equal(&(x.clone() + y.clone()), 64, 1000).is_ok());
    assert_eq!(!x.clone(), Expr::Not(Box::new(x.clone())));
    assert_eq!(-x.clone(), Expr::Scale(u64::MAX, Box::new(x.clone())));
    assert_eq!(
        x.clone() - y.clone(),
        Expr::Add(vec![x.clone(), Expr::Scale(u64::MAX, Box::new(y.clone()))])
    );
    assert_eq!(x.clone() | y.clone(), Expr::Or(vec![x.clone(), y.clone()]));
    assert_eq!(Expr::from(7u64), Expr::Const(7));
    assert_eq!(Expr::Const(2) * y.clone(), Expr::Scale(2, Box::new(y.clone())));
    assert_eq!(1u64 * y.clone(), y.clone());
    assert_eq!(0u64 * y.clone(), Expr::Const(0));
}
