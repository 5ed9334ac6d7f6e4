use rumba_core::factorized_section::{
    advance_digit, bitwise_graph, graph_one_base_key, minimize_bases, normalize_scalars,
    one_base_add, one_base_from_table, one_base_key, one_base_not, one_base_scale, product_graph,
    scale_graph, state_response, Base, BaseGraph, BitwiseOperation, DigitCursor,
    FactorizedSectionRefusal, OneBasePartial, SectionScalars,
};

fn scalar(value: i128) -> i128 {
    value
}

fn base(epsilon: [i128; 4], tau: [usize; 4]) -> Base {
    Base {
        epsilon_nonzero: [epsilon[1], epsilon[2], epsilon[3]],
        tau,
    }
}

#[test]
fn adversarial_integer_limits_are_checked_and_two_adic() {
    let graph = BaseGraph {
        bases: vec![Base {
            epsilon_nonzero: [i128::MAX, i128::MIN, -3],
            tau: [0; 4],
        }],
        root: 0,
        r0: 0,
    };
    let (_, positive) = advance_digit(&graph, DigitCursor { base: 0, carry: 0 }, 1)
        .expect("positive max transition");
    assert_eq!(positive.carry, i128::MAX / 2);
    let (_, negative) = advance_digit(&graph, DigitCursor { base: 0, carry: 0 }, 3)
        .expect("negative odd transition");
    assert_eq!(negative.carry, -2);
    assert_eq!(
        advance_digit(
            &graph,
            DigitCursor {
                base: 0,
                carry: i128::MAX,
            },
            1,
        ),
        Err(FactorizedSectionRefusal::ArithmeticOverflow)
    );
    assert_eq!(
        state_response(BitwiseOperation::And, &[DigitCursor { base: 0, carry: -1 }],),
        -1
    );
    assert_eq!(
        scale_graph(
            BaseGraph {
                bases: vec![Base {
                    epsilon_nonzero: [0; 3],
                    tau: [0; 4],
                }],
                root: 0,
                r0: i128::MAX,
            },
            2,
        ),
        Err(FactorizedSectionRefusal::ArithmeticOverflow)
    );
    assert_eq!(
        product_graph(&[
            BaseGraph {
                bases: vec![Base {
                    epsilon_nonzero: [0; 3],
                    tau: [0; 4],
                }],
                root: 0,
                r0: i128::MAX,
            },
            BaseGraph {
                bases: vec![Base {
                    epsilon_nonzero: [0; 3],
                    tau: [0; 4],
                }],
                root: 0,
                r0: 1,
            },
        ]),
        Err(FactorizedSectionRefusal::ArithmeticOverflow)
    );
    println!("ADVERSARIAL_INTEGER_TESTS checked_extremes=PASS negative_odd=PASS signed_bitwise=PASS");
}

#[test]
fn euclidean_remainder_produces_a_bit() {
    assert_eq!(5i128.rem_euclid(2), 1);
}

#[test]
fn minimize_bases_collapses_equivalent_states() {
    let epsilon = [[scalar(1), scalar(1), scalar(2)]; 2];
    let tau = [[0; 4], [1; 4]];
    assert_eq!(
        minimize_bases(&epsilon, &tau, 0),
        Ok((vec![base([0, 1, 1, 2], [0; 4])], 0,))
    );
}

#[test]
fn minimize_bases_is_independent_of_state_permutation() {
    let first_epsilon = vec![
        [scalar(0), scalar(0), scalar(0)],
        [scalar(1), scalar(0), scalar(1)],
    ];
    let first_tau = vec![[1; 4], [1; 4]];
    let permuted_epsilon = vec![
        [scalar(1), scalar(0), scalar(1)],
        [scalar(0), scalar(0), scalar(0)],
    ];
    let permuted_tau = vec![[0; 4], [0; 4]];
    assert_eq!(
        minimize_bases(&first_epsilon, &first_tau, 0),
        minimize_bases(&permuted_epsilon, &permuted_tau, 1)
    );
}

#[test]
fn minimize_bases_refuses_malformed_inputs() {
    let empty: [[i128; 3]; 0] = [];
    let no_tau: [[usize; 4]; 0] = [];
    assert_eq!(
        minimize_bases(&empty, &no_tau, 0),
        Err(FactorizedSectionRefusal::UnsupportedNode)
    );
    assert_eq!(
        minimize_bases(&[[0, 0, 0]], &[[0; 4], [0; 4]], 0),
        Err(FactorizedSectionRefusal::UnsupportedNode)
    );
    assert_eq!(
        minimize_bases(&[[0, 0, 0]], &[[0; 4]], 1),
        Err(FactorizedSectionRefusal::UnsupportedNode)
    );
}

#[test]
fn minimize_bases_refuses_unreachable_classes() {
    let epsilon = [[0, 0, 0], [1, 1, 1]];
    let tau = [[0; 4], [1; 4]];
    assert_eq!(
        minimize_bases(&epsilon, &tau, 0),
        Err(FactorizedSectionRefusal::UnsupportedNode)
    );
}

#[test]
fn minimize_bases_refuses_more_than_sixty_four_classes() {
    let epsilon: Vec<[i128; 3]> = (0..65).map(|i| [i as i128, 0, 0]).collect();
    let tau: Vec<[usize; 4]> = (0..65).map(|i| [(i + 1) % 65; 4]).collect();
    assert_eq!(
        minimize_bases(&epsilon, &tau, 0),
        Err(FactorizedSectionRefusal::SourceBudgetExceeded)
    );
    let epsilon: Vec<[i128; 3]> = (0..64).map(|i| [i as i128, 0, 0]).collect();
    let tau: Vec<[usize; 4]> = (0..64).map(|i| [(i + 1) % 64; 4]).collect();
    let (bases, root) = minimize_bases(&epsilon, &tau, 0).expect("sixty-four classes");
    assert_eq!(root, 0);
    assert_eq!(bases.len(), 64);
}

#[test]
fn minimize_bases_numbers_classes_in_search_order() {
    // State 2 is met first from state 0 (on symbol 0), then state 1.
    let epsilon = [[0, 0, 0], [1, 0, 0], [2, 0, 0]];
    let tau = [[2, 1, 0, 0], [1; 4], [2; 4]];
    assert_eq!(
        minimize_bases(&epsilon, &tau, 0),
        Ok((
            vec![
                base([0, 0, 0, 0], [1, 2, 0, 0]),
                base([0, 2, 0, 0], [1; 4]),
                base([0, 1, 0, 0], [2; 4]),
            ],
            0
        ))
    );
}

#[test]
fn product_graph_adds_the_contributions_of_its_children() {
    let left = BaseGraph {
        bases: vec![base([0, 1, 2, 3], [0; 4])],
        root: 0,
        r0: 5,
    };
    let right = BaseGraph {
        bases: vec![base([0, 10, 20, 30], [0; 4])],
        root: 0,
        r0: -2,
    };
    assert_eq!(
        product_graph(&[left, right]),
        Ok(BaseGraph {
            bases: vec![base([0, 11, 22, 33], [0; 4])],
            root: 0,
            r0: 3,
        })
    );
    assert_eq!(
        product_graph(&[]),
        Err(FactorizedSectionRefusal::UnsupportedNode)
    );
}

#[test]
fn product_graph_refuses_overflowing_contributions() {
    let big = BaseGraph {
        bases: vec![base([0, i128::MAX, 0, 0], [0; 4])],
        root: 0,
        r0: 0,
    };
    assert_eq!(
        product_graph(&[big.clone(), big]),
        Err(FactorizedSectionRefusal::ArithmeticOverflow)
    );
}

fn variable_graph(epsilon: [i128; 3]) -> BaseGraph {
    BaseGraph {
        bases: vec![Base {
            epsilon_nonzero: epsilon,
            tau: [0; 4],
        }],
        root: 0,
        r0: 0,
    }
}

#[test]
fn bitwise_graph_combines_two_variables() {
    let x = variable_graph([1, 0, 1]);
    let y = variable_graph([0, 1, 1]);
    let expected = |epsilon: [i128; 3]| {
        Ok(BaseGraph {
            bases: vec![Base {
                epsilon_nonzero: epsilon,
                tau: [0; 4],
            }],
            root: 0,
            r0: 0,
        })
    };
    assert_eq!(
        bitwise_graph(BitwiseOperation::And, &[x.clone(), y.clone()]),
        expected([0, 0, 1])
    );
    assert_eq!(
        bitwise_graph(BitwiseOperation::Or, &[x.clone(), y.clone()]),
        expected([1, 1, 1])
    );
    assert_eq!(
        bitwise_graph(BitwiseOperation::Xor, &[x, y]),
        expected([1, 1, 0])
    );
}

#[test]
fn bitwise_graph_of_a_complemented_constant_keeps_its_response() {
    // The constant -1 (all bits set) alone under AND stays -1.
    let minus_one = BaseGraph {
        bases: vec![Base {
            epsilon_nonzero: [0, 0, 0],
            tau: [0; 4],
        }],
        root: 0,
        r0: -1,
    };
    assert_eq!(
        bitwise_graph(BitwiseOperation::And, &[minus_one]),
        Ok(BaseGraph {
            bases: vec![Base {
                epsilon_nonzero: [0, 0, 0],
                tau: [0; 4],
            }],
            root: 0,
            r0: -1,
        })
    );
}

#[test]
fn one_base_descriptions_combine_exactly() {
    assert_eq!(one_base_from_table([1, 0, 1, 1]), (-1, [-1, 0, 0]));
    assert_eq!(one_base_add((1, [2, 3, 4]), (10, [20, 30, 40])), Ok((11, [22, 33, 44])));
    assert_eq!(
        one_base_add((i128::MAX, [0, 0, 0]), (1, [0, 0, 0])),
        Err(FactorizedSectionRefusal::ArithmeticOverflow)
    );
    assert_eq!(one_base_scale((1, [2, -3, 4]), -2), Ok((-2, [-4, 6, -8])));
    assert_eq!(
        one_base_scale((0, [i128::MAX, 0, 0]), 2),
        Err(FactorizedSectionRefusal::ArithmeticOverflow)
    );
    assert_eq!(one_base_not((0, [1, 0, -1])), Ok((-1, [-1, 0, 1])));
    assert_eq!(
        one_base_not((0, [i128::MIN, 0, 0])),
        Err(FactorizedSectionRefusal::ArithmeticOverflow)
    );
    assert_eq!(one_base_key(OneBasePartial::Unknown), None);
    assert_eq!(
        one_base_key(OneBasePartial::Exact {
            r0: 3,
            epsilon: [1, 2, 3]
        }),
        Some((3, [1, 2, 3]))
    );
    assert_eq!(
        one_base_key(OneBasePartial::Stationary([0, 1, 0, 1])),
        Some((0, [1, 0, 1]))
    );
}

#[test]
fn single_base_graphs_give_their_scalars() {
    let graph = BaseGraph {
        bases: vec![base([0, 4, 5, 6], [0; 4])],
        root: 0,
        r0: 7,
    };
    assert_eq!(graph_one_base_key(&graph), Some((7, [4, 5, 6])));
    assert_eq!(
        normalize_scalars(graph),
        Ok(SectionScalars {
            r0: 7,
            epsilon: [0, 4, 5, 6]
        })
    );
    let two = BaseGraph {
        bases: vec![base([0, 1, 0, 0], [1; 4]), base([0, 0, 1, 0], [0; 4])],
        root: 0,
        r0: 0,
    };
    assert_eq!(graph_one_base_key(&two), None);
    assert_eq!(
        normalize_scalars(two),
        Err(FactorizedSectionRefusal::MultipleSemanticBases)
    );
}

#[test]
fn renumbered_graphs_are_refused_alike() {
    // Unreachable class, and the same graph with its two states swapped.
    assert_eq!(
        minimize_bases(&[[0, 0, 0], [1, 1, 1]], &[[0; 4], [1; 4]], 0),
        minimize_bases(&[[1, 1, 1], [0, 0, 0]], &[[0; 4], [1; 4]], 1)
    );
    // Sixty-five classes on a cycle, numbered backwards.
    let epsilon: Vec<[i128; 3]> = (0..65).map(|i| [i as i128, 0, 0]).collect();
    let tau: Vec<[usize; 4]> = (0..65).map(|i| [(i + 1) % 65; 4]).collect();
    let p = |i: usize| 64 - i;
    let mut epsilon2 = vec![[0i128; 3]; 65];
    let mut tau2 = vec![[0usize; 4]; 65];
    for i in 0..65 {
        epsilon2[p(i)] = epsilon[i];
        tau2[p(i)] = [p(tau[i][0]); 4];
    }
    assert_eq!(
        minimize_bases(&epsilon, &tau, 0),
        Err(FactorizedSectionRefusal::SourceBudgetExceeded)
    );
    assert_eq!(
        minimize_bases(&epsilon2, &tau2, p(0)),
        Err(FactorizedSectionRefusal::SourceBudgetExceeded)
    );
}
