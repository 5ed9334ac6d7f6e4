use rumba_core::expr::{Expr, VarId};
use rumba_core::fsc_frontend::{simplify, Recipe};
use rumba_core::one_base_compile::compile_declared_one_base;

const WIDTH: u8 = 64;

fn x() -> Expr {
    Expr::Var(VarId(0))
}

fn y() -> Expr {
    Expr::Var(VarId(1))
}

#[test]
fn all_static_recipes_replay_and_match_their_descriptors() {
    let variables = [VarId(0), VarId(1)];
    for expected in 0..16u8 {
        let candidate = Recipe::from_signature(expected).instantiate(variables);
        let mut replay = 0u8;
        for assignment in 0..4 {
            let inputs = [
                u64::from(assignment & 1 != 0),
                u64::from(assignment & 2 != 0),
            ];
            replay |= ((candidate.eval(&inputs, 1) & 1) as u8) << assignment;
        }
        assert_eq!(replay, expected);
        let zero = i128::from(expected & 1);
        let expected_key = (
            -zero,
            std::array::from_fn(|index| i128::from((expected >> (index + 1)) & 1) - zero),
        );
        assert_eq!(
            compile_declared_one_base(&candidate, variables),
            Some(expected_key)
        );
    }
}

#[test]
fn simplify_renders_bit_tables_and_fails_closed() {
    let source = x().add(y()).sub(x().bitand(y()));
    assert_eq!(simplify(&source, WIDTH), Some(x().bitor(y())));
    for inputs in [[0u64, 0], [1, 2], [0xdead_beef, 0x1234_5678_9abc], [u64::MAX, 7]] {
        let rendered = simplify(&source, WIDTH).expect("rendered");
        assert_eq!(rendered.eval(&inputs, WIDTH), source.eval(&inputs, WIDTH));
    }
    let z = Expr::Var(VarId(2));
    for unsupported in [
        Expr::Mul(vec![x(), y()]),
        Expr::Add(vec![x(), y(), z]),
        Expr::And(vec![x().add(Expr::Const(1)), y()]),
        x().add(y()),
    ] {
        assert!(simplify(&unsupported, WIDTH).is_none());
    }
    assert!(simplify(&source, 8).is_none());
}
