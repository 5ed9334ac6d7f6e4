use rumba_core::expr::{Expr, VarId};
use rumba_core::factorized_section::{
    bitwise_graph, negate_graph, product_graph, scale_graph, BaseGraph, BitwiseOperation,
    FactorizedSectionRefusal,
};
use rumba_core::graph_compile::compile_graph;

const VARS: [VarId; 2] = [VarId(0), VarId(1)];

fn x() -> Expr {
    Expr::Var(VarId(0))
}

fn y() -> Expr {
    Expr::Var(VarId(1))
}

/// The word a graph describes: its constant plus the contribution of each
/// of the 64 digits at its place, modulo 2^64.
fn value(g: &BaseGraph, a: u64, b: u64) -> u64 {
    let mut total = g.r0 as u64;
    let mut q = g.root;
    for i in 0..64 {
        let s = (((a >> i) & 1) + 2 * ((b >> i) & 1)) as usize;
        let base = &g.bases[q];
        let e = if s == 0 { 0 } else { base.epsilon_nonzero[s - 1] };
        total = total.wrapping_add((e as u64).wrapping_shl(i));
        q = base.tau[s];
    }
    total
}

const SAMPLES: [(u64, u64); 6] = [
    (0, 0),
    (1, 2),
    (7, 9),
    (u64::MAX, 3),
    (0x8000_0000_0000_0000, 0x7fff_ffff_ffff_ffff),
    (0x1234_5678_9abc_def0, 0x0fed_cba9_8765_4321),
];

#[test]
fn a_sum_graph_describes_the_wrapping_sum() {
    let g1 = compile_graph(&Expr::And(vec![x(), y()]), VARS).unwrap();
    let g2 = compile_graph(&Expr::Not(Box::new(x())), VARS).unwrap();
    let g3 = compile_graph(&Expr::Scale(3, Box::new(y())), VARS).unwrap();
    let sum = product_graph(&[g1.clone(), g2.clone(), g3.clone()]).unwrap();
    for (a, b) in SAMPLES {
        let expected = value(&g1, a, b)
            .wrapping_add(value(&g2, a, b))
            .wrapping_add(value(&g3, a, b));
        assert_eq!(value(&sum, a, b), expected);
    }
}

#[test]
fn a_bitwise_graph_describes_the_bitwise_operation() {
    let g1 = compile_graph(&Expr::Add(vec![x(), y()]), VARS).unwrap();
    let g2 = compile_graph(&Expr::Scale(5, Box::new(x())), VARS).unwrap();
    for (op, f) in [
        (BitwiseOperation::And, (|p: u64, q: u64| p & q) as fn(u64, u64) -> u64),
        (BitwiseOperation::Or, |p: u64, q: u64| p | q),
        (BitwiseOperation::Xor, |p: u64, q: u64| p ^ q),
    ] {
        let g = bitwise_graph(op, &[g1.clone(), g2.clone()]).unwrap();
        for (a, b) in SAMPLES {
            assert_eq!(value(&g, a, b), f(value(&g1, a, b), value(&g2, a, b)));
        }
    }
}

#[test]
fn bitwise_graphs_of_no_children_are_the_neutral_words() {
    let and = bitwise_graph(BitwiseOperation::And, &[]).unwrap();
    let xor = bitwise_graph(BitwiseOperation::Xor, &[]).unwrap();
    for (a, b) in SAMPLES {
        assert_eq!(value(&and, a, b), u64::MAX);
        assert_eq!(value(&xor, a, b), 0);
    }
}

#[test]
fn a_sum_of_no_children_is_an_unsupported_node() {
    assert_eq!(product_graph(&[]), Err(FactorizedSectionRefusal::UnsupportedNode));
}

#[test]
fn an_overflowing_constant_sum_is_refused_as_overflow() {
    let g = BaseGraph {
        bases: vec![rumba_core::factorized_section::Base {
            epsilon_nonzero: [0, 0, 0],
            tau: [0; 4],
        }],
        root: 0,
        r0: i128::MAX,
    };
    let one = BaseGraph { r0: 1, ..g.clone() };
    assert_eq!(
        product_graph(&[g, one]),
        Err(FactorizedSectionRefusal::ArithmeticOverflow)
    );
}

#[test]
fn scaled_and_complemented_graphs_describe_the_scaled_and_complemented_words() {
    let g = compile_graph(&Expr::Add(vec![x(), Expr::And(vec![x(), y()])]), VARS).unwrap();
    let tripled = scale_graph(g.clone(), 3).unwrap();
    let zero = scale_graph(g.clone(), 0).unwrap();
    let complement = negate_graph(g.clone()).unwrap();
    for (a, b) in SAMPLES {
        assert_eq!(value(&tripled, a, b), value(&g, a, b).wrapping_mul(3));
        assert_eq!(value(&zero, a, b), 0);
        assert_eq!(value(&complement, a, b), !value(&g, a, b));
    }
}
