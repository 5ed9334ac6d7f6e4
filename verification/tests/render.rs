use rumba_core::expr::{Expr, VarId};

fn v(i: usize) -> Expr {
    Expr::Var(VarId(i))
}

fn c(value: u64) -> Expr {
    Expr::Const(value)
}

#[test]
fn renders_operators_with_needed_parentheses() {
    assert_eq!(Expr::Add(vec![v(0), v(1)]).repr(8, false, false), "v0 + v1");
    assert_eq!(
        Expr::And(vec![Expr::Add(vec![v(0), v(1)]), v(2)]).repr(8, false, false),
        "v0 + v1 & v2"
    );
    assert_eq!(
        Expr::Add(vec![Expr::And(vec![v(0), v(1)]), v(2)]).repr(8, false, false),
        "(v0 & v1) + v2"
    );
    assert_eq!(
        Expr::Xor(vec![Expr::Or(vec![v(0), v(1)]), v(2)]).repr(8, false, false),
        "(v0 | v1) ^ v2"
    );
    assert_eq!(
        Expr::Or(vec![Expr::Xor(vec![v(0), v(1)]), v(2)]).repr(8, false, false),
        "v0 ^ v1 | v2"
    );
    assert_eq!(
        Expr::Mul(vec![v(0), Expr::Add(vec![v(1), v(2)])]).repr(8, false, false),
        "v0 * (v1 + v2)"
    );
    assert_eq!(
        Expr::Scale(3, Box::new(Expr::Add(vec![v(0), v(1)]))).repr(8, false, false),
        "3 * (v0 + v1)"
    );
    assert_eq!(
        Expr::Not(Box::new(Expr::Add(vec![v(0), v(1)]))).repr(8, false, false),
        "~ (v0 + v1)"
    );
    assert_eq!(Expr::Not(Box::new(v(3))).repr(8, false, false), "~ v3");
}

#[test]
fn single_operand_collections_render_as_their_operand() {
    assert_eq!(
        Expr::And(vec![Expr::Add(vec![v(0)])]).repr(8, false, false),
        "v0"
    );
    assert_eq!(
        Expr::Mul(vec![v(0), Expr::Add(vec![v(1)])]).repr(8, false, false),
        "v0 * v1"
    );
}

#[test]
fn sums_subtract_negative_terms() {
    assert_eq!(Expr::Add(vec![v(0), c(0xff)]).repr(8, false, false), "v0 - 1");
    assert_eq!(
        Expr::Add(vec![v(0), Expr::Scale(0xfe, Box::new(v(1)))]).repr(8, false, false),
        "v0 - 2 * v1"
    );
    assert_eq!(
        Expr::Add(vec![v(0), Expr::Scale(u64::MAX, Box::new(v(1)))]).repr(8, false, false),
        "v0 - v1"
    );
    assert_eq!(
        Expr::Add(vec![Expr::Scale(u64::MAX, Box::new(v(0))), v(1)]).repr(8, false, false),
        "-v0 + v1"
    );
    assert_eq!(
        Expr::Add(vec![v(0), Expr::Scale(u64::MAX, Box::new(Expr::Or(vec![v(1), v(2)])))])
            .repr(8, false, false),
        "v0 - (v1 | v2)"
    );
}

#[test]
fn constants_show_their_best_sign() {
    assert_eq!(c(255).repr(16, true, false), "0xff");
    assert_eq!(c(255).repr(8, false, false), "(-1)");
    assert_eq!(Expr::And(vec![v(0), c(0xf0)]).repr(8, true, false), "v0 & (-0x10)");
}

#[test]
fn renders_latex() {
    assert_eq!(
        Expr::And(vec![v(0), v(1)]).repr(8, false, true),
        "v_{0} \\land v_{1}"
    );
    assert_eq!(
        Expr::Scale(3, Box::new(v(1))).repr(8, true, true),
        "\\mathrm{0x3} \\cdot v_{1}"
    );
    assert_eq!(Expr::Not(Box::new(v(0))).repr(8, false, true), "\\neg v_{0}");
}

#[test]
fn the_most_negative_constant_renders_at_full_width() {
    assert_eq!(c(1u64 << 63).repr(64, false, false), "(-9223372036854775808)");
    assert_eq!(
        Expr::Add(vec![v(0), c(1u64 << 63)]).repr(64, false, false),
        "v0 - (-9223372036854775808)"
    );
}
