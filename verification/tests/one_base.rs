use rumba_core::expr::{Expr, VarId};
use rumba_core::factorized_section::{FactorizedSectionRefusal, OneBasePartial};
use rumba_core::fsc_frontend::{render, signature, OneBaseDescriptor, Recipe};
use rumba_core::one_base::compile_one_base_direct;
use rumba_core::source_analysis::{analyze_source, analyzed_variables, variables_valid, SourceAnalysis};

const VARIABLES: [VarId; 2] = [VarId(0), VarId(1)];

fn x() -> Expr {
    Expr::Var(VarId(0))
}

fn y() -> Expr {
    Expr::Var(VarId(1))
}

fn descriptor(r0: i128, epsilon_nonzero: [i128; 3]) -> OneBaseDescriptor {
    OneBaseDescriptor { variables: VARIABLES, r0, epsilon_nonzero, direct: true }
}

#[test]
fn analysis_cost_matches_expression_size() {
    let expressions = [
        Expr::Const(0),
        x(),
        x().add(y()),
        Expr::And(Vec::new()),
        Expr::Add(vec![x(), Expr::Not(Box::new(y()))]),
        Expr::Scale(3, Box::new(x().bitxor(y()))),
        Expr::Mul(vec![x(), y()]),
    ];
    for expression in expressions {
        let analysis = analyze_source(&expression).expect("analysis");
        assert_eq!(analysis.node_count, expression.size());
    }
}

#[test]
fn analysis_records_variables_and_multiplication() {
    let analysis = analyze_source(&Expr::Mul(vec![y(), x(), y()])).expect("analysis");
    assert_eq!(analysis.variables, [Some(VarId(1)), Some(VarId(0))]);
    assert_eq!(analysis.variable_count, 2);
    assert!(analysis.contains_multiplication);
    assert_eq!(analyzed_variables(&analysis), Some([VarId(0), VarId(1)]));

    let single = analyze_source(&x().add(x())).expect("analysis");
    assert_eq!(single.variable_count, 1);
    assert!(!single.contains_multiplication);
    assert_eq!(analyzed_variables(&single), None);
}

#[test]
fn analysis_refuses_a_third_variable_and_deep_sources() {
    let three = Expr::Add(vec![x(), y(), Expr::Var(VarId(2))]);
    assert_eq!(analyze_source(&three), Err(FactorizedSectionRefusal::InvalidVariables));

    let mut deep = x().add(y());
    for _ in 0..256 {
        deep = Expr::Not(Box::new(deep));
    }
    assert_eq!(analyze_source(&deep), Err(FactorizedSectionRefusal::SourceBudgetExceeded));

    let mut shallow = x().add(y());
    for _ in 0..254 {
        shallow = Expr::Not(Box::new(shallow));
    }
    assert_eq!(analyze_source(&shallow).map(|a| a.node_count), Ok(257));

    let wide = Expr::Add((0..4096).map(|_| x()).collect());
    assert_eq!(analyze_source(&wide), Err(FactorizedSectionRefusal::SourceBudgetExceeded));
    let fits = Expr::Add((0..4095).map(|_| x()).collect());
    assert_eq!(analyze_source(&fits).map(|a| a.node_count), Ok(4096));
}

#[test]
fn declared_variables_must_increase() {
    assert!(variables_valid([VarId(0), VarId(1)]));
    assert!(!variables_valid([VarId(1), VarId(0)]));
    assert!(!variables_valid([VarId(3), VarId(3)]));
    let default = SourceAnalysis::default();
    assert_eq!(default.variable_count, 0);
    assert_eq!(analyzed_variables(&default), None);
}

#[test]
fn direct_compiler_reads_constants_and_variables() {
    assert_eq!(compile_one_base_direct(&Expr::Const(0), VARIABLES), Ok(OneBasePartial::Stationary([0; 4])));
    assert_eq!(
        compile_one_base_direct(&Expr::Const(u64::MAX), VARIABLES),
        Ok(OneBasePartial::Stationary([1; 4]))
    );
    assert_eq!(
        compile_one_base_direct(&Expr::Const(7), VARIABLES),
        Ok(OneBasePartial::Exact { r0: 7, epsilon: [0; 3] })
    );
    assert_eq!(
        compile_one_base_direct(&Expr::Const(u64::MAX - 1), VARIABLES),
        Ok(OneBasePartial::Exact { r0: -2, epsilon: [0; 3] })
    );
    assert_eq!(compile_one_base_direct(&x(), VARIABLES), Ok(OneBasePartial::Stationary([0, 1, 0, 1])));
    assert_eq!(compile_one_base_direct(&y(), VARIABLES), Ok(OneBasePartial::Stationary([0, 0, 1, 1])));
    assert_eq!(
        compile_one_base_direct(&Expr::Var(VarId(5)), VARIABLES),
        Err(FactorizedSectionRefusal::InvalidVariables)
    );
    assert_eq!(
        compile_one_base_direct(&Expr::Mul(vec![x(), y()]), VARIABLES),
        Err(FactorizedSectionRefusal::UnsupportedMultiplication)
    );
}

#[test]
fn direct_compiler_combines_tables_and_descriptions() {
    assert_eq!(
        compile_one_base_direct(&x().bitand(y().not()), VARIABLES),
        Ok(OneBasePartial::Stationary([0, 1, 0, 0]))
    );
    assert_eq!(
        compile_one_base_direct(&x().bitxor(y()), VARIABLES),
        Ok(OneBasePartial::Stationary([0, 1, 1, 0]))
    );
    // x + y: the sum of the two variable descriptions
    assert_eq!(
        compile_one_base_direct(&x().add(y()), VARIABLES),
        Ok(OneBasePartial::Exact { r0: 0, epsilon: [1, 1, 2] })
    );
    // 3 * (x | y)
    assert_eq!(
        compile_one_base_direct(&Expr::Scale(3, Box::new(x().bitor(y()))), VARIABLES),
        Ok(OneBasePartial::Exact { r0: 0, epsilon: [3, 3, 3] })
    );
    // ~(x + y) = -1 - x - y
    assert_eq!(
        compile_one_base_direct(&x().add(y()).not(), VARIABLES),
        Ok(OneBasePartial::Exact { r0: -1, epsilon: [-1, -1, -2] })
    );
    // a bitwise operation of a sum is not known to be one base
    assert_eq!(
        compile_one_base_direct(&x().add(Expr::Const(1)).bitand(y()), VARIABLES),
        Ok(OneBasePartial::Unknown)
    );
    // the first refusal wins, and an unknown operand stops the combination
    assert_eq!(
        compile_one_base_direct(&Expr::And(vec![x().add(y()), Expr::Var(VarId(9))]), VARIABLES),
        Ok(OneBasePartial::Unknown)
    );
    assert_eq!(
        compile_one_base_direct(&Expr::Add(vec![Expr::Var(VarId(9)), x()]), VARIABLES),
        Err(FactorizedSectionRefusal::InvalidVariables)
    );
    // overflowing coordinates are refused
    let big = Expr::Scale(1 << 62, Box::new(Expr::Scale(1 << 62, Box::new(x()))));
    assert_eq!(
        compile_one_base_direct(&big, VARIABLES),
        Ok(OneBasePartial::Exact { r0: 0, epsilon: [1 << 124, 0, 1 << 124] })
    );
    assert_eq!(
        compile_one_base_direct(&Expr::Scale(1 << 62, Box::new(big)), VARIABLES),
        Err(FactorizedSectionRefusal::ArithmeticOverflow)
    );
}

#[test]
fn direct_descriptions_evaluate_to_the_source() {
    let sources = [
        x().add(y()),
        Expr::Scale(3, Box::new(x().bitor(y()))),
        x().add(y()).not(),
        x().bitxor(y()).add(Expr::Scale(2, Box::new(x().bitand(y())))),
        Expr::Add(vec![x(), Expr::Const(5), y().not()]),
    ];
    let samples: [(u64, u64); 4] = [(0, 0), (1, 2), (0xdead_beef, 0x1234_5678_9abc), (u64::MAX, 3)];
    for source in sources {
        let Ok(OneBasePartial::Exact { r0, epsilon }) = compile_one_base_direct(&source, VARIABLES) else {
            panic!("exact description expected");
        };
        for (a, b) in samples {
            let mut value = r0 as u64;
            for i in 0..64 {
                let symbol = ((a >> i) & 1) + 2 * ((b >> i) & 1);
                if symbol != 0 {
                    let contribution = epsilon[(symbol - 1) as usize] as u64;
                    value = value.wrapping_add(contribution.wrapping_mul(1u64 << i));
                }
            }
            assert_eq!(value, source.eval(&[a, b], 64));
        }
    }
}

#[test]
fn all_recipes_replay_their_signatures() {
    for expected in 0..16u8 {
        let candidate = Recipe::from_signature(expected).instantiate(VARIABLES);
        let mut replay = 0u8;
        for assignment in 0..4 {
            let inputs = [u64::from(assignment & 1 != 0), u64::from(assignment & 2 != 0)];
            replay |= ((candidate.eval(&inputs, 1) & 1) as u8) << assignment;
        }
        assert_eq!(replay, expected);
        let table: [u8; 4] = std::array::from_fn(|k| (expected >> k) & 1);
        assert_eq!(compile_one_base_direct(&candidate, VARIABLES), Ok(OneBasePartial::Stationary(table)));
    }
}

#[test]
fn signatures_name_bit_tables() {
    assert_eq!(signature(descriptor(0, [1, 0, 1])), Some(10));
    assert_eq!(signature(descriptor(-1, [-1, 0, -1])), Some(5));
    assert_eq!(signature(descriptor(0, [1, 1, 2])), None);
    assert_eq!(signature(descriptor(1, [0, 0, 0])), None);
    assert_eq!(signature(descriptor(i128::MIN, [0, 0, 0])), None);
    assert_eq!(signature(descriptor(-1, [i128::MAX, 0, 0])), None);
    assert_eq!(render(descriptor(0, [0, 0, 1])), Some(x().bitand(y())));
    assert_eq!(render(descriptor(-1, [0, 0, 0])), Some(Expr::Const(u64::MAX)));
    assert_eq!(render(descriptor(0, [1, 1, 2])), None);
}
