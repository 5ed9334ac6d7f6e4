use rumba_core::expr::{Expr, VarId};

fn x() -> Expr {
    Expr::Var(VarId(0))
}

fn y() -> Expr {
    Expr::Var(VarId(1))
}

#[test]
fn canonical_product_extracts_constants_and_scales() {
    assert_eq!(Expr::Const(2).mul(x()), Expr::scale(2, x()));
    assert_eq!(x().mul(Expr::Const(2)), Expr::scale(2, x()));
    assert_eq!(
        Expr::scale(2, x()).mul(Expr::scale(3, y())),
        Expr::scale(6, Expr::Mul(vec![x(), y()]))
    );
    assert_eq!(Expr::Const(0).mul(x()).mul(y()), Expr::zero());
}

#[test]
fn nested_products_are_flattened_in_order() {
    let inner = Expr::Mul(vec![y(), Expr::Var(VarId(2))]);
    assert_eq!(
        x().mul(inner),
        Expr::Mul(vec![x(), y(), Expr::Var(VarId(2))])
    );
}

#[test]
fn coefficients_wrap_and_fold_to_constants() {
    assert_eq!(Expr::Const(1u64 << 32).mul(Expr::Const(1u64 << 32)), Expr::zero());
    assert_eq!(Expr::Const(3).mul(Expr::Const(5)), Expr::Const(15));
    assert_eq!(Expr::product(vec![]), Expr::Const(1));
    assert_eq!(Expr::scale(u64::MAX, x()).mul(Expr::scale(u64::MAX, x())), Expr::Mul(vec![x(), x()]));
}

#[test]
fn built_products_are_canonical_and_keep_their_value() {
    let p = Expr::scale(2, x()).mul(Expr::Add(vec![y(), Expr::Const(1)])).mul(Expr::Const(3));
    assert!(p.products_are_canonical());
    assert!(!Expr::Mul(vec![Expr::Const(7), x()]).products_are_canonical());
    assert!(!Expr::Add(vec![Expr::Mul(vec![x(), Expr::scale(2, y())])]).products_are_canonical());
    let plain = Expr::Mul(vec![
        Expr::scale(2, x()),
        Expr::Add(vec![y(), Expr::Const(1)]),
        Expr::Const(3),
    ]);
    for (a, b) in [(0u64, 0u64), (1, 2), (7, 0xffff_ffff_ffff_ffff), (0x1234, 0x8000_0000_0000_0000)] {
        assert_eq!(p.eval(&[a, b], 64), plain.eval(&[a, b], 64));
    }
}
