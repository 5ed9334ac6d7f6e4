use rumba_core::expr::{Expr, VarId};
use rumba_core::parser::parse_expr;

fn v(i: usize) -> Expr {
    Expr::Var(VarId(i))
}

fn c(value: u64) -> Expr {
    Expr::Const(value)
}

#[test]
fn oversized_literal_errors_instead_of_panicking() {
    let err = parse_expr("18446744073709551616").unwrap_err();
    assert!(err.contains("out of range"), "unexpected error: {err}");
}

#[test]
fn operators_bind_by_level() {
    assert_eq!(
        parse_expr("(v0^v1)+2*(v0&v1)").unwrap(),
        Expr::Add(vec![
            Expr::Xor(vec![v(0), v(1)]),
            Expr::Scale(2, Box::new(Expr::And(vec![v(0), v(1)]))),
        ])
    );
    assert_eq!(
        parse_expr("v0 | v1 ^ v2 & v3 + v4 * v5").unwrap(),
        Expr::Or(vec![
            v(0),
            Expr::Xor(vec![
                v(1),
                Expr::And(vec![v(2), Expr::Add(vec![v(3), Expr::Mul(vec![v(4), v(5)])])]),
            ]),
        ])
    );
    assert_eq!(parse_expr("v0 & v1 & v2").unwrap(), Expr::And(vec![v(0), v(1), v(2)]));
}

#[test]
fn subtraction_and_prefix_operators() {
    assert_eq!(
        parse_expr("v0 - v1 + 3").unwrap(),
        Expr::Add(vec![v(0), Expr::Scale(u64::MAX, Box::new(v(1))), c(3)])
    );
    assert_eq!(parse_expr("-v0").unwrap(), Expr::Scale(u64::MAX, Box::new(v(0))));
    assert_eq!(parse_expr("~v0").unwrap(), Expr::Not(Box::new(v(0))));
    assert_eq!(
        parse_expr("!~(v0 & v1)").unwrap(),
        Expr::Not(Box::new(Expr::Not(Box::new(Expr::And(vec![v(0), v(1)])))))
    );
}

#[test]
fn literals_and_blanks() {
    assert_eq!(parse_expr("0xff").unwrap(), c(255));
    assert_eq!(parse_expr("0xFFFFFFFFFFFFFFFF").unwrap(), c(u64::MAX));
    assert_eq!(parse_expr("  v12\t*\n7 ").unwrap(), Expr::Scale(7, Box::new(v(12))));
    assert_eq!(parse_expr("v1 * 0 * v2").unwrap(), c(0));
    assert_eq!(parse_expr("18446744073709551615").unwrap(), c(u64::MAX));
    assert!(parse_expr("0x").is_err());
    assert!(parse_expr("0x10000000000000000").is_err());
}

#[test]
fn malformed_text_is_refused() {
    for text in ["", "v0 +", "(v0", "v0)", "v0 v1", "x", "v", "3 $ 4", "* v0"] {
        assert!(parse_expr(text).is_err(), "{text} was accepted");
    }
}
