use rumba_core::expr::{Expr, VarId};
use rumba_core::prettify::prettify;

fn v(i: usize) -> Expr {
    Expr::Var(VarId(i))
}

/// The solver wraps bare terms in single-operand `And`s; the patterns have
/// to see through that, so build the inputs the way it emits them.
fn term(e: Expr) -> Expr {
    Expr::And(vec![e])
}

#[test]
fn folds_the_three_exact_forms() {
    let or = Expr::Add(vec![term(v(0)), term(v(1)), Expr::scale(u64::MAX, v(0).bitand(v(1)))]);
    assert_eq!(prettify(or, 32), v(0).bitor(v(1)));

    let xor = Expr::Add(vec![term(v(0)), term(v(1)), Expr::scale(u64::MAX - 1, v(0).bitand(v(1)))]);
    assert_eq!(prettify(xor, 32), v(0).bitxor(v(1)));

    let not = Expr::Add(vec![Expr::Const(u64::MAX), Expr::scale(u64::MAX, v(0))]);
    assert_eq!(prettify(not, 32), v(0).not());
}

#[test]
fn folds_on_narrow_widths() {
    let or = Expr::Add(vec![term(v(0)), term(v(1)), Expr::scale(0xff, v(0).bitand(v(1)))]);
    assert_eq!(prettify(or, 8), v(0).bitor(v(1)));

    let xor = Expr::Add(vec![term(v(0)), term(v(1)), Expr::scale(0xfe, v(0).bitand(v(1)))]);
    assert_eq!(prettify(xor, 8), v(0).bitxor(v(1)));

    let unchanged = Expr::Add(vec![term(v(0)), term(v(1)), Expr::scale(0xff, v(0).bitand(v(1)))]);
    assert_eq!(prettify(unchanged.clone(), 32), unchanged);
}

#[test]
fn leaves_a_sum_that_only_contains_the_pattern() {
    let e = Expr::Add(vec![
        term(v(0)),
        term(v(1)),
        Expr::scale(u64::MAX, v(0).bitand(v(1))),
        term(v(2)),
    ]);
    assert_eq!(prettify(e.clone(), 32), e);
}

#[test]
fn folds_a_nested_node() {
    let or = Expr::Add(vec![term(v(0)), term(v(1)), Expr::scale(u64::MAX, v(0).bitand(v(1)))]);
    let e = Expr::Mul(vec![or, v(2)]);

    assert_eq!(prettify(e, 32), Expr::Mul(vec![v(0).bitor(v(1)), v(2)]));
}

#[test]
fn leaves_other_coefficients_alone() {
    let e = Expr::Add(vec![term(v(0)), term(v(1)), Expr::scale(u64::MAX - 2, v(0).bitand(v(1)))]);
    assert_eq!(prettify(e.clone(), 32), e);
}

#[test]
fn prettified_values_match_on_the_working_width() {
    let cases = [
        Expr::Add(vec![term(v(0)), term(v(1)), Expr::scale(u64::MAX, v(0).bitand(v(1)))]),
        Expr::Add(vec![v(1), Expr::scale(0xfe, v(1).bitand(v(0))), v(0)]),
        Expr::Add(vec![Expr::scale(0xff, v(1)), Expr::Const(0xffff)]),
        Expr::Mul(vec![Expr::Const(3), Expr::Add(vec![Expr::Const(u64::MAX), Expr::scale(u64::MAX, v(0))])]),
    ];
    for n in [8u8, 16, 64] {
        let mask = if n == 64 { u64::MAX } else { (1u64 << n) - 1 };
        for case in &cases {
            let pretty = prettify(case.clone(), n);
            for inputs in [[0u64, 0], [1, 2], [0xdead_beef, 0x1234_5678_9abc], [u64::MAX, 7]] {
                assert_eq!(pretty.eval(&inputs, n) & mask, case.eval(&inputs, n) & mask);
            }
        }
    }
    assert_eq!(prettify(Expr::Add(vec![Expr::scale(0xff, v(1)), Expr::Const(0xffff)]), 8), v(1).not());
}
