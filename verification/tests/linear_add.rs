use rumba_core::factorized_section::{Base, BaseGraph, FactorizedSectionRefusal, SectionScalars};
use rumba_core::linear_add::linear_add_match;

fn one_base(r0: i128, epsilon: [i128; 3]) -> BaseGraph {
    BaseGraph { bases: vec![Base { epsilon_nonzero: epsilon, tau: [0; 4] }], root: 0, r0 }
}

fn x() -> BaseGraph {
    one_base(0, [1, 0, 1])
}

fn y() -> BaseGraph {
    one_base(0, [0, 1, 1])
}

fn scalars(r0: i128, epsilon: [i128; 4]) -> SectionScalars {
    SectionScalars { r0, epsilon }
}

#[test]
fn linear_add_certifies_a_matching_sum() {
    assert_eq!(linear_add_match(&[x(), y()], &scalars(0, [0, 1, 1, 2])), Ok(()));
    // x - x + y
    let minus_x = one_base(0, [-1, 0, -1]);
    assert_eq!(linear_add_match(&[x(), minus_x, y()], &scalars(0, [0, 0, 1, 1])), Ok(()));
}

#[test]
fn linear_add_refuses_mismatches() {
    assert_eq!(
        linear_add_match(&[x(), y()], &scalars(0, [0, 1, 1, 3])),
        Err(FactorizedSectionRefusal::CandidateMismatch)
    );
    assert_eq!(
        linear_add_match(&[x(), y()], &scalars(1, [0, 1, 1, 2])),
        Err(FactorizedSectionRefusal::CandidateMismatch)
    );
}

#[test]
fn linear_add_refuses_empty_and_oversized_inputs() {
    assert_eq!(linear_add_match(&[], &scalars(0, [0; 4])), Err(FactorizedSectionRefusal::UnsupportedNode));
    let wide = BaseGraph {
        bases: (0..512).map(|_| Base { epsilon_nonzero: [0; 3], tau: [0; 4] }).collect(),
        root: 0,
        r0: 0,
    };
    assert_eq!(
        linear_add_match(&[wide], &scalars(0, [0; 4])),
        Err(FactorizedSectionRefusal::SourceBudgetExceeded)
    );
    assert_eq!(
        linear_add_match(&[one_base(i128::MAX, [0; 3]), one_base(1, [0; 3])], &scalars(0, [0; 4])),
        Err(FactorizedSectionRefusal::ArithmeticOverflow)
    );
}

#[test]
fn linear_add_follows_transitions_between_bases() {
    // a two-base graph that adds 1 on the first digit with symbol 1 and
    // nothing after: equal to itself, not to a constant
    let two = BaseGraph {
        bases: vec![
            Base { epsilon_nonzero: [1, 0, 0], tau: [1; 4] },
            Base { epsilon_nonzero: [0, 0, 0], tau: [1; 4] },
        ],
        root: 0,
        r0: 0,
    };
    let negated = BaseGraph {
        bases: vec![
            Base { epsilon_nonzero: [-1, 0, 0], tau: [1; 4] },
            Base { epsilon_nonzero: [0, 0, 0], tau: [1; 4] },
        ],
        root: 0,
        r0: 0,
    };
    assert_eq!(linear_add_match(&[two.clone(), negated], &scalars(0, [0; 4])), Ok(()));
    assert_eq!(
        linear_add_match(&[two], &scalars(0, [0; 4])),
        Err(FactorizedSectionRefusal::CandidateMismatch)
    );
}
