use rumba_core::candidate::{install, nominate_candidate};
use rumba_core::expr::{Expr, VarId};
use rumba_core::factorized_section::SectionScalars;
use rumba_core::one_base_compile::{direct_match, WIDTH};
use rumba_core::source_analysis::{analyze_source, MAX_SOURCE_DEPTH};

const VARIABLES: [VarId; 2] = [VarId(0), VarId(1)];

fn x() -> Expr {
    Expr::Var(VarId(0))
}

fn y() -> Expr {
    Expr::Var(VarId(1))
}

fn scalar(value: i128) -> i128 {
    value
}

fn scalars(r0: i128, epsilon: [i128; 4]) -> SectionScalars {
    SectionScalars {
        r0: scalar(r0),
        epsilon: epsilon.map(scalar),
    }
}

fn xor_delay(variable: Expr, memory: u32) -> Expr {
    Expr::Xor(
        (0..=memory)
            .map(|shift| Expr::Scale(1u64 << shift, Box::new(variable.clone())))
            .collect(),
    )
}

fn cancelling_add(x_memory: u32, y_memory: u32) -> Expr {
    let left = xor_delay(x(), x_memory);
    let right = xor_delay(y(), y_memory);
    Expr::Add(vec![
        left.clone(),
        Expr::Scale(u64::MAX, Box::new(left)),
        right.clone(),
        Expr::Scale(u64::MAX, Box::new(right)),
    ])
}

fn nonstructural_cancelling_add(x_memory: u32, y_memory: u32) -> Expr {
    let left = xor_delay(x(), x_memory);
    let right = xor_delay(y(), y_memory);
    Expr::Add(vec![
        left.clone(),
        Expr::Scale(u64::MAX, Box::new(Expr::Add(vec![left, Expr::zero()]))),
        right.clone(),
        Expr::Scale(u64::MAX, Box::new(Expr::Add(vec![right, Expr::zero()]))),
    ])
}

fn cancelling_xor(x_memory: u32, y_memory: u32) -> Expr {
    let left = xor_delay(x(), x_memory);
    let right = xor_delay(y(), y_memory);
    Expr::Xor(vec![left.clone(), left, right.clone(), right])
}

#[test]
fn invalid_inputs_and_refusals_are_rejected() {
    let source = x().add(y());
    assert_eq!(
        rumba_core::one_base_compile::compile_single_base_scalars(&source, [VarId(1), VarId(0)]),
        Err(rumba_core::factorized_section::FactorizedSectionRefusal::InvalidVariables)
    );
    assert_eq!(install(source.clone(), WIDTH - 1), source);
    assert_eq!(
        rumba_core::one_base_compile::compile_single_base_scalars(&Expr::Mul(vec![x(), y()]), VARIABLES),
        Err(rumba_core::factorized_section::FactorizedSectionRefusal::UnsupportedMultiplication)
    );
    let huge_variable = Expr::Add(vec![Expr::Var(VarId(usize::MAX)), x()]);
    assert_eq!(install(huge_variable.clone(), WIDTH), huge_variable);
}

#[test]
fn known_mobius_identity_matches_nominated_scalars() {
    let source = x().bitxor(y()).add(Expr::scale(2, x().bitand(y())));
    let nominated = nominate_candidate(
        &source,
        VARIABLES,
        WIDTH,
        analyze_source(&source).expect("analysis"),
    )
    .expect("nomination");
    assert_eq!(nominated.expression, x().add(y()));
    assert_eq!(nominated.scalars, scalars(0, [0, 1, 1, 2]));
    assert_eq!(
        direct_match(&source, &nominated.scalars, VARIABLES, WIDTH),
        Ok(())
    );
}

#[test]
fn installed_candidate_is_prettified() {
    let source = Expr::Add(vec![
        x().bitxor(y()),
        Expr::zero(),
        Expr::zero(),
        Expr::zero(),
        Expr::zero(),
        Expr::zero(),
    ]);
    assert_eq!(install(source, WIDTH), x().bitxor(y()));
}

#[test]
fn rejects_unbounded_variable_ids_and_deep_sources() {
    let huge_variable = Expr::Add(vec![Expr::Var(VarId(usize::MAX)), x()]);
    assert_eq!(install(huge_variable.clone(), WIDTH), huge_variable);

    let mut deep = x().add(y());
    for _ in 0..MAX_SOURCE_DEPTH {
        deep = Expr::Not(Box::new(deep));
    }
    assert_eq!(install(deep.clone(), WIDTH), deep);
    assert_eq!(install(x().add(y()), WIDTH - 1), x().add(y()));
}

#[test]
fn canonical_compositions_remove_structural_cancellations_before_recursion() {
    let source = cancelling_add(5, 4);
    assert_eq!(
        rumba_core::one_base_compile::compile_single_base_scalars(&source, VARIABLES),
        Ok(scalars(0, [0, 0, 0, 0]))
    );
    assert_eq!(install(source, WIDTH), Expr::zero());

    let zero_graph = rumba_core::factorized_section::BaseGraph {
        bases: vec![rumba_core::factorized_section::Base {
            epsilon_nonzero: [scalar(0); 3],
            tau: [0; 4],
        }],
        root: 0,
        r0: scalar(0),
    };
    let source = cancelling_xor(5, 4);
    assert_eq!(
        rumba_core::graph_compile::compile_graph(&source, VARIABLES),
        Ok(zero_graph.clone())
    );

    let d7 = Expr::Xor(vec![xor_delay(x(), 7), xor_delay(x(), 7), Expr::zero()]);
    assert_eq!(rumba_core::graph_compile::compile_graph(&d7, VARIABLES), Ok(zero_graph));
}

#[test]
fn linear_add_fallback_certifies_nonstructural_cancellations() {
    let source = nonstructural_cancelling_add(5, 4);
    assert_eq!(
        rumba_core::one_base_compile::compile_single_base_scalars(&source, VARIABLES),
        Err(rumba_core::factorized_section::FactorizedSectionRefusal::SourceBudgetExceeded)
    );
    assert_eq!(install(source, WIDTH), Expr::zero());

    let source = nonstructural_cancelling_add(6, 6);
    assert_eq!(
        rumba_core::one_base_compile::compile_single_base_scalars(&source, VARIABLES),
        Err(rumba_core::factorized_section::FactorizedSectionRefusal::SourceBudgetExceeded)
    );
    assert_eq!(install(source, WIDTH), Expr::zero());
}

#[test]
fn one_bit_candidates_are_exclusive_ors() {
    let source = x().bitor(y());
    let analysis = analyze_source(&source).expect("analysis");
    let nominated = nominate_candidate(&source, VARIABLES, 1, analysis);
    assert!(nominated.is_none());
    let bigger = Expr::Add(vec![x().bitor(y()), Expr::zero(), Expr::zero(), Expr::zero(), Expr::zero(), Expr::zero(), Expr::zero()]);
    let nominated = nominate_candidate(&bigger, VARIABLES, 1, analyze_source(&bigger).expect("analysis")).expect("nomination");
    assert_eq!(nominated.expression, Expr::Xor(vec![x().bitand(y()), y(), x()]));
    let not_both = Expr::Add(vec![x().bitand(y()).not(), Expr::zero(), Expr::zero(), Expr::zero(), Expr::zero()]);
    let nominated = nominate_candidate(&not_both, VARIABLES, 1, analyze_source(&not_both).expect("analysis")).expect("nomination");
    assert_eq!(nominated.expression, Expr::Xor(vec![x().bitand(y()), Expr::Const(1)]));
}

#[test]
fn installed_expression_keeps_the_boolean_values() {
    // (x ^ y) + 2 * (x & y) written with redundant zero terms: installing
    // replaces it, and the replacement agrees on the four boolean inputs.
    let source = Expr::Add(vec![
        x().bitxor(y()),
        Expr::Scale(2, Box::new(x().bitand(y()))),
        Expr::zero(),
        Expr::zero(),
        Expr::zero(),
        Expr::zero(),
    ]);
    let installed = install(source.clone(), WIDTH);
    assert_ne!(installed, source);
    for (a, b) in [(0u64, 0u64), (1, 0), (0, 1), (1, 1)] {
        let inputs = [a, b];
        assert_eq!(installed.eval(&inputs, WIDTH), source.eval(&inputs, WIDTH));
    }
    assert_eq!(installed.eval(&[1, 1], WIDTH), 2);
}

#[test]
fn installed_expression_keeps_every_value() {
    // (x | y) + (x & y) is x + y: the installed candidate agrees with the
    // source on every pair of values, not only on the boolean ones.
    let source = Expr::Add(vec![
        x().bitor(y()),
        x().bitand(y()),
        Expr::zero(),
        Expr::zero(),
        Expr::zero(),
        Expr::zero(),
    ]);
    let installed = install(source.clone(), WIDTH);
    assert_ne!(installed, source);
    for inputs in [[0u64, 0], [3, 5], [0xdead_beef, 0x1234_5678_9abc], [u64::MAX, 7], [1 << 63, 1 << 63]] {
        assert_eq!(installed.eval(&inputs, WIDTH), source.eval(&inputs, WIDTH));
    }
}
