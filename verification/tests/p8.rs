use rumba_core::expr::VarId;
use rumba_core::p8::{
    term_equal, term_less, valuation, valuations_equal, SubmaskDomain, ValuationExpr, WordTerm,
};

fn root(i: usize) -> WordTerm {
    WordTerm::Root(VarId(i))
}

#[test]
fn or_puts_the_smaller_operand_first() {
    let t = WordTerm::or(WordTerm::Constant(5), root(0));
    assert_eq!(
        t,
        WordTerm::Or(Box::new(root(0)), Box::new(WordTerm::Constant(5)))
    );
    let t = WordTerm::or(root(0), root(1));
    assert_eq!(t, WordTerm::Or(Box::new(root(0)), Box::new(root(1))));
}

#[test]
fn term_order_matches_the_declared_order() {
    let terms = vec![
        root(0),
        root(3),
        WordTerm::Constant(0),
        WordTerm::Constant(7),
        WordTerm::pow2_scale(1, root(0)),
        WordTerm::pow2_scale(1, root(2)),
        WordTerm::pow2_scale(2, root(0)),
        WordTerm::Or(Box::new(root(0)), Box::new(root(1))),
        WordTerm::Or(Box::new(root(0)), Box::new(root(2))),
        WordTerm::neg(root(0)),
        WordTerm::neg(WordTerm::Constant(1)),
    ];
    for a in &terms {
        for b in &terms {
            assert_eq!(term_less(a, b), a < b);
            assert_eq!(term_equal(a, b), a == b);
        }
    }
}

#[test]
fn valuation_follows_the_term() {
    assert_eq!(
        valuation(&WordTerm::Constant(8), 64),
        Some(ValuationExpr::Constant(3))
    );
    assert_eq!(
        valuation(&WordTerm::Constant(0), 64),
        Some(ValuationExpr::Constant(64))
    );
    assert_eq!(
        valuation(&WordTerm::Constant(0x100), 8),
        Some(ValuationExpr::Constant(8))
    );
    assert_eq!(valuation(&WordTerm::neg(root(0)), 64), None);
    let v = valuation(&WordTerm::pow2_scale(2, root(0)), 8).expect("a valuation");
    assert_eq!(v.evaluate(&[3], 8), 5);
    assert_eq!(v.evaluate(&[7], 8), 8);
    assert_eq!(v.max_root(), Some(0));
    let m = valuation(&WordTerm::or(root(1), WordTerm::Constant(4)), 8).expect("a valuation");
    assert_eq!(m.evaluate(&[0, 5], 8), 2);
    assert_eq!(m.max_root(), Some(1));
}

#[test]
fn valuations_equal_checks_every_assignment() {
    let a = WordTerm::Or(Box::new(root(0)), Box::new(root(1)));
    let b = WordTerm::Or(Box::new(root(1)), Box::new(root(0)));
    assert!(valuations_equal(&a, &b, 4));
    assert!(!valuations_equal(&WordTerm::pow2_scale(1, root(0)), &root(0), 4));
    assert!(valuations_equal(&WordTerm::Constant(0), &WordTerm::Constant(16), 4));
    assert!(!valuations_equal(&WordTerm::neg(root(0)), &WordTerm::neg(root(0)), 4));
}

#[test]
fn submask_domain_learns_or_operands() {
    let whole = WordTerm::or(root(0), root(1));
    let mut domain = SubmaskDomain::new(8, vec![whole.copy()]);
    assert_eq!(domain.terms.len(), 3);
    assert!(domain.facts.is_empty());
    domain.saturate();
    assert_eq!(domain.simplify_and(&root(0), &whole), Some(root(0)));
    assert_eq!(domain.simplify_and(&whole, &root(1)), Some(root(1)));
    assert_eq!(domain.simplify_and(&root(0), &root(1)), None);
}

#[test]
fn submask_domain_negates_facts_with_equal_valuations() {
    // 0 | x has the valuation of x, so -(0 | x) is a submask of -0.
    let whole = WordTerm::or(WordTerm::Constant(0), root(0));
    let mut domain = SubmaskDomain::new(8, vec![whole.copy()]);
    domain.saturate();
    assert_eq!(
        domain.simplify_and(&WordTerm::neg(whole.copy()), &WordTerm::neg(root(0))),
        Some(WordTerm::neg(whole.copy()))
    );
}
