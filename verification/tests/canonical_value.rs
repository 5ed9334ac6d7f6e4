use rumba_core::canonical::{canonical_add, canonical_composition, canonical_xor};
use rumba_core::expr::{Expr, VarId};

fn v(i: usize) -> Expr {
    Expr::Var(VarId(i))
}

const INPUTS: [[u64; 3]; 5] = [
    [0, 0, 0],
    [1, 2, 3],
    [u64::MAX, 5, 0x8000_0000_0000_0000],
    [0x1234_5678_9abc_def0, 7, 11],
    [3, u64::MAX, 1],
];

#[test]
fn a_canonical_sum_keeps_the_value() {
    let terms = vec![
        v(0),
        Expr::Scale(3, Box::new(v(1))),
        Expr::Const(5),
        Expr::Scale(u64::MAX, Box::new(v(0))),
        Expr::Add(vec![v(2), Expr::Const(u64::MAX)]),
        Expr::Scale(2, Box::new(Expr::Scale(4, Box::new(v(1))))),
    ];
    let canonical = canonical_add(&terms);
    let original = Expr::Add(terms);
    for inputs in INPUTS {
        assert_eq!(canonical.eval(&inputs, 64), original.eval(&inputs, 64));
    }
}

#[test]
fn a_canonical_exclusive_or_keeps_the_value() {
    let terms = vec![
        v(0),
        v(1),
        Expr::Const(0xff),
        v(0),
        Expr::Xor(vec![v(2), Expr::Const(0x0f), v(1)]),
        Expr::And(vec![v(0), v(2)]),
    ];
    let canonical = canonical_xor(&terms);
    let original = Expr::Xor(terms);
    for inputs in INPUTS {
        assert_eq!(canonical.eval(&inputs, 64), original.eval(&inputs, 64));
    }
}

#[test]
fn a_canonical_composition_keeps_the_value() {
    let source = Expr::Add(vec![v(1), v(0), v(1), Expr::Const(0)]);
    let canonical = canonical_composition(&source).expect("the sum regroups");
    for inputs in INPUTS {
        assert_eq!(canonical.eval(&inputs, 64), source.eval(&inputs, 64));
    }
}
