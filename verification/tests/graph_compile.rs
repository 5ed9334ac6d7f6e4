use rumba_core::canonical::{canonical_add, canonical_composition, canonical_xor};
use rumba_core::expr::{Expr, VarId};
use rumba_core::factorized_section::{
    negate_graph, scale_graph, signed_word, Base, BaseGraph, FactorizedSectionRefusal,
    SectionScalars,
};
use rumba_core::graph_compile::compile_graph;
use rumba_core::one_base_compile::{
    compile_declared_one_base, compile_one_base, compile_one_base_analyzed,
    compile_one_base_authoritative, compile_single_base_scalars, direct_match, WIDTH,
};
use rumba_core::order::{expr_equal, expr_order};
use rumba_core::stationary::boolean_coordinates;

const VARIABLES: [VarId; 2] = [VarId(0), VarId(1)];

fn x() -> Expr {
    Expr::Var(VarId(0))
}

fn y() -> Expr {
    Expr::Var(VarId(1))
}

fn scalar(value: i128) -> i128 {
    value
}

fn scalars(r0: i128, epsilon: [i128; 4]) -> SectionScalars {
    SectionScalars {
        r0: scalar(r0),
        epsilon: epsilon.map(scalar),
    }
}

fn xor_delay(variable: Expr, memory: u32) -> Expr {
    Expr::Xor(
        (0..=memory)
            .map(|shift| Expr::Scale(1u64 << shift, Box::new(variable.clone())))
            .collect(),
    )
}

fn cancelling_xor(x_memory: u32, y_memory: u32) -> Expr {
    let left = xor_delay(x(), x_memory);
    let right = xor_delay(y(), y_memory);
    Expr::Xor(vec![left.clone(), left, right.clone(), right])
}

fn cancelling_add(x_memory: u32, y_memory: u32) -> Expr {
    let left = xor_delay(x(), x_memory);
    let right = xor_delay(y(), y_memory);
    Expr::Add(vec![
        left.clone(),
        Expr::Scale(u64::MAX, Box::new(left)),
        right.clone(),
        Expr::Scale(u64::MAX, Box::new(right)),
    ])
}

fn zero_graph() -> BaseGraph {
    BaseGraph {
        bases: vec![Base {
            epsilon_nonzero: [scalar(0); 3],
            tau: [0; 4],
        }],
        root: 0,
        r0: scalar(0),
    }
}

#[test]
fn constants_and_single_variables_have_exact_sections() {
    assert_eq!(
        compile_single_base_scalars(&Expr::Const(7), VARIABLES),
        Ok(scalars(7, [0, 0, 0, 0]))
    );
    assert_eq!(
        compile_single_base_scalars(&x(), VARIABLES),
        Ok(scalars(0, [0, 1, 0, 1]))
    );
    assert_eq!(
        compile_single_base_scalars(&y(), VARIABLES),
        Ok(scalars(0, [0, 0, 1, 1]))
    );
}

#[test]
fn each_scalar_mismatch_is_rejected() {
    let source = x().bitxor(y()).add(Expr::scale(2, x().bitand(y())));
    let expected = scalars(0, [0, 1, 1, 2]);
    assert_eq!(direct_match(&source, &expected, VARIABLES, WIDTH), Ok(()));

    let mut changed = expected.clone();
    changed.r0 = scalar(1);
    assert_eq!(
        direct_match(&source, &changed, VARIABLES, WIDTH),
        Err(FactorizedSectionRefusal::CandidateMismatch)
    );
    for index in 0..4 {
        let mut changed = expected.clone();
        changed.epsilon[index] = changed.epsilon[index]
            .checked_add(scalar(1))
            .expect("mutation");
        assert_eq!(
            direct_match(&source, &changed, VARIABLES, WIDTH),
            Err(FactorizedSectionRefusal::CandidateMismatch)
        );
    }
}

#[test]
fn all_supported_compositions_match_exact_scalars() {
    let cases = [
        (x().add(y()), scalars(0, [0, 1, 1, 2])),
        (Expr::scale(3, x().add(y())), scalars(0, [0, 3, 3, 6])),
        (x().not(), scalars(-1, [0, -1, 0, -1])),
        (x().bitand(y()), scalars(0, [0, 0, 0, 1])),
        (x().bitor(y()), scalars(0, [0, 1, 1, 1])),
        (x().bitxor(y()), scalars(0, [0, 1, 1, 0])),
    ];
    for (source, expected) in cases {
        let compiled = compile_single_base_scalars(&source, VARIABLES).expect("single base");
        assert_eq!(compiled, expected);
        let coordinates = boolean_coordinates(&source, VARIABLES, WIDTH).expect("coordinates");
        for (symbol, coordinate) in coordinates.into_iter().enumerate() {
            assert_eq!(
                compiled.r0.checked_add(compiled.epsilon[symbol]),
                Some(scalar(signed_word(coordinate)))
            );
        }
    }
}

#[test]
fn affine_transforms_preserve_a_multi_base_graph() {
    let source = x().bitand(x().add(y()));
    let graph = compile_graph(&source, VARIABLES).expect("graph");
    assert!(graph.bases.len() > 1);

    let negated = compile_graph(&source.clone().not(), VARIABLES).expect("negated graph");
    let expected_negated = negate_graph(graph.clone()).expect("negation");
    assert_eq!(negated, expected_negated);

    let scaled = scale_graph(graph.clone(), 3).expect("scaled graph");
    assert_eq!(scaled.r0, graph.r0.checked_mul(3).expect("scale"));
    for (before, after) in graph.bases.iter().zip(&scaled.bases) {
        assert_eq!(before.tau, after.tau);
        for (old, new) in before.epsilon_nonzero.iter().zip(after.epsilon_nonzero) {
            assert_eq!(new, old.checked_mul(3).expect("scale"));
        }
    }
}

#[test]
fn multi_base_and_unsupported_sources_are_refused() {
    let multi_base = x().add(y().bitxor(Expr::Const(1)));
    assert!(matches!(
        compile_single_base_scalars(&multi_base, VARIABLES),
        Err(FactorizedSectionRefusal::MultipleSemanticBases)
    ));
    assert_eq!(
        compile_single_base_scalars(&x().mul(y()), VARIABLES),
        Err(FactorizedSectionRefusal::UnsupportedMultiplication)
    );
}

#[test]
fn delayed_xor_keeps_the_64_base_boundary() {
    assert_eq!(
        compile_graph(&xor_delay(x(), 6), VARIABLES)
            .expect("64-state graph")
            .bases
            .len(),
        64
    );
    assert_eq!(
        compile_graph(&xor_delay(x(), 7), VARIABLES),
        Err(FactorizedSectionRefusal::SourceBudgetExceeded)
    );
}

#[test]
fn structural_cancellations_are_removed_before_compiling() {
    assert_eq!(
        compile_single_base_scalars(&cancelling_add(5, 4), VARIABLES),
        Ok(scalars(0, [0, 0, 0, 0]))
    );
    assert_eq!(compile_graph(&cancelling_xor(5, 4), VARIABLES), Ok(zero_graph()));
    let d7 = Expr::Xor(vec![xor_delay(x(), 7), xor_delay(x(), 7), Expr::zero()]);
    assert_eq!(compile_graph(&d7, VARIABLES), Ok(zero_graph()));
}

#[test]
fn invalid_variables_and_widths_are_refused() {
    let source = x().add(y());
    assert_eq!(
        compile_single_base_scalars(&source, [VarId(1), VarId(0)]),
        Err(FactorizedSectionRefusal::InvalidVariables)
    );
    let candidate = scalars(0, [0, 1, 1, 2]);
    assert_eq!(
        direct_match(&source, &candidate, VARIABLES, WIDTH - 1),
        Err(FactorizedSectionRefusal::InvalidWidth)
    );
    assert_eq!(
        direct_match(&source, &candidate, [VarId(1), VarId(0)], WIDTH),
        Err(FactorizedSectionRefusal::InvalidVariables)
    );
    assert_eq!(compile_graph(&Expr::Var(VarId(0)).mul(y()), VARIABLES), Err(FactorizedSectionRefusal::UnsupportedMultiplication));
}

#[test]
fn canonical_sums_group_coefficients_and_constants() {
    let sum = canonical_add(&vec![
        y(),
        Expr::Const(3),
        x(),
        Expr::Scale(2, Box::new(y())),
        Expr::Add(vec![Expr::Const(4), Expr::Scale(u64::MAX, Box::new(x()))]),
    ]);
    assert_eq!(
        sum,
        Expr::Add(vec![Expr::Scale(3, Box::new(y())), Expr::Const(7)])
    );
    assert_eq!(canonical_add(&vec![x(), Expr::Scale(u64::MAX, Box::new(x()))]), Expr::zero());
    assert_eq!(canonical_add(&vec![x(), Expr::Const(0)]), x());
    assert_eq!(
        canonical_add(&vec![y(), x()]),
        Expr::Add(vec![x(), y()])
    );
}

#[test]
fn canonical_xors_keep_odd_parities() {
    let xor = canonical_xor(&vec![
        y(),
        Expr::Const(5),
        x(),
        Expr::Xor(vec![y(), Expr::Const(3), y()]),
    ]);
    assert_eq!(xor, Expr::Xor(vec![x(), y(), Expr::Const(6)]));
    assert_eq!(canonical_xor(&vec![x(), x()]), Expr::zero());
    assert_eq!(canonical_xor(&vec![Expr::Const(9)]), Expr::Const(9));
}

#[test]
fn canonical_compositions_are_reported_only_when_they_change() {
    let sorted = Expr::Add(vec![x(), y()]);
    assert_eq!(canonical_composition(&sorted), None);
    assert_eq!(canonical_composition(&Expr::Add(vec![y(), x()])), Some(sorted));
    assert_eq!(canonical_composition(&x().bitand(y())), None);
    let bare_sum = Expr::Add(vec![Expr::Scale(1, Box::new(x().add(y()))), Expr::Var(VarId(2))]);
    let once = canonical_composition(&bare_sum).expect("regrouped");
    let twice = canonical_composition(&once).expect("flattened");
    assert!(twice.size() < once.size());
    assert_eq!(canonical_composition(&twice), None);
}

#[test]
fn expressions_are_ordered_by_variant_then_fields() {
    assert_eq!(expr_order(&x(), &y()), -1);
    assert_eq!(expr_order(&y(), &x()), 1);
    assert_eq!(expr_order(&Expr::Const(100), &x()), 1);
    assert_eq!(expr_order(&Expr::Add(vec![x()]), &Expr::Add(vec![x(), x()])), -1);
    assert_eq!(expr_order(&Expr::Scale(2, Box::new(y())), &Expr::Scale(3, Box::new(x()))), -1);
    assert!(expr_equal(&x().add(y()), &x().add(y())));
    assert!(!expr_equal(&x().add(y()), &y().add(x())));
    let mut all = vec![x().mul(y()), x().add(y()), Expr::Const(1), x().not(), y()];
    let derived: Vec<Expr> = {
        let mut copy = all.clone();
        copy.sort();
        copy
    };
    all.sort_by(|a, b| expr_order(a, b).cmp(&0));
    assert_eq!(all, derived);
}

#[test]
fn one_base_compiler_takes_the_direct_path_first() {
    let source = x().add(y()).sub(x().bitand(y()));
    let descriptor = compile_one_base(&source, WIDTH).expect("descriptor");
    assert!(descriptor.direct);
    assert_eq!(descriptor.variables, VARIABLES);
    assert_eq!((descriptor.r0, descriptor.epsilon_nonzero), (0, [1, 1, 1]));
    assert_eq!(compile_one_base(&source, 32), None);
    assert_eq!(compile_one_base(&x().mul(y()), WIDTH), None);
    assert_eq!(compile_one_base(&x(), WIDTH), None);
    let authoritative = compile_one_base_authoritative(&source, WIDTH).expect("graph descriptor");
    assert!(!authoritative.direct);
    assert_eq!((authoritative.r0, authoritative.epsilon_nonzero), (0, [1, 1, 1]));
    assert_eq!(
        compile_declared_one_base(&source, VARIABLES),
        Some((0, [1, 1, 1]))
    );
    assert_eq!(compile_declared_one_base(&source, [VarId(1), VarId(0)]), None);
    let fallback = compile_one_base_analyzed(&x().bitxor(Expr::Const(6)).bitand(y()), VARIABLES);
    assert!(matches!(fallback, Ok(_)));
}
