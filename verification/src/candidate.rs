//! Nominating and installing a candidate: the two-variable linear
//! combination of conjunctions that agrees with a source on the four
//! boolean assignments, kept only when it is smaller than the source and
//! its scalars match the source's.
use vstd::prelude::*;
use crate::expr::{Expr, Term, VarId, size, sizes, models, lemma_models_index, lemma_models_push, lemma_fold_push, Op, eval};
use crate::factorized_section::{FactorizedSectionRefusal, SectionScalars, signed_word, signed_word_spec};
use crate::source_analysis::{
    SourceAnalysis, MAX_SOURCE_NODES, analyze_source, analyzed_variables, visit_spec, empty_analysis,
    recorded_list, lemma_visit_facts, analysis_wf,
};
use crate::stationary::{boolean_coordinates, coordinates_spec, max_variable, boolean_inputs};
use crate::order::{term_order, expr_order};
use crate::varint::{make_mask, mask_of};
use crate::graph_compile::vars_fit;
use crate::one_base_compile::{WIDTH, matched, direct_match, analysis_variables, lemma_vars_in_below, linear_accepted};
use crate::prettify::{prettify, prettify_spec};

verus! {

/// The coefficients of the conjunctions `1`, `x`, `y` and `x & y` from the
/// values on the four boolean assignments, on the width of `mask`.
pub open spec fn mobius(c: [u64; 4], mask: u64) -> [u64; 4] {
    let c1 = c[1].wrapping_sub(c[0]) & mask;
    let c3 = c[3].wrapping_sub(c[2]) & mask;
    let c2 = c[2].wrapping_sub(c[0]) & mask;
    [c[0], c1, c2, c3.wrapping_sub(c1) & mask]
}

/// The conjunction of the variables of `subset`.
pub open spec fn conjunction_spec(subset: int, variables: [VarId; 2]) -> Term {
    if subset == 1 {
        Term::Var(variables[0].0)
    } else if subset == 2 {
        Term::Var(variables[1].0)
    } else {
        Term::And(seq![Term::Var(variables[0].0), Term::Var(variables[1].0)])
    }
}

/// `ts` followed by `coefficient` times `conjunction`, when not zero.
pub open spec fn push_term(ts: Seq<Term>, coefficient: u64, conjunction: Term) -> Seq<Term> {
    if coefficient == 0 {
        ts
    } else if coefficient == 1 {
        ts.push(conjunction)
    } else {
        ts.push(Term::Scale(coefficient, Box::new(conjunction)))
    }
}

/// The terms of the candidate with coefficients `c`.
pub open spec fn candidate_terms(c: [u64; 4], variables: [VarId; 2]) -> Seq<Term> {
    let start = if c[0] != 0 {
        seq![Term::Const(c[0])]
    } else {
        Seq::empty()
    };
    push_term(
        push_term(push_term(start, c[1], conjunction_spec(1, variables)), c[2], conjunction_spec(2, variables)),
        c[3],
        conjunction_spec(3, variables),
    )
}

/// `l` with `x` placed before its first term above `x`.
pub open spec fn insert_sorted(l: Seq<Term>, x: Term) -> Seq<Term>
    decreases l.len(),
{
    if l.len() == 0 {
        seq![x]
    } else if term_order(x, l[0]) < 0 {
        seq![x] + l
    } else {
        seq![l[0]] + insert_sorted(l.drop_first(), x)
    }
}

/// The terms of `s` in ascending order.
pub open spec fn sort_terms(s: Seq<Term>) -> Seq<Term>
    decreases s.len(),
{
    if s.len() == 0 {
        s
    } else {
        insert_sorted(sort_terms(s.drop_last()), s.last())
    }
}

/// The normal form of the candidate's terms: zero for none, the term for
/// one; on one bit the exclusive or of the other terms in reverse order
/// followed by the constant; else the sum of the terms in ascending order.
pub open spec fn candidate_expression(ts: Seq<Term>, mask: u64) -> Term {
    if ts.len() == 0 {
        Term::Const(0)
    } else if ts.len() == 1 {
        ts[0]
    } else if mask == 1 {
        if ts[0] is Const {
            Term::Xor(ts.drop_first().reverse().push(ts[0]))
        } else {
            Term::Xor(ts.reverse())
        }
    } else {
        Term::Add(sort_terms(ts))
    }
}

/// The scalars of the candidate with coefficients `c`.
pub open spec fn candidate_scalars(c: [u64; 4]) -> SectionScalars {
    let e1 = signed_word_spec(c[1]);
    let e2 = signed_word_spec(c[2]);
    let e3 = signed_word_spec(c[3]);
    SectionScalars {
        r0: signed_word_spec(c[0]) as i128,
        epsilon: [0i128, e1 as i128, e2 as i128, (e1 + e2 + e3) as i128],
    }
}

/// The candidate nominated for `t` over `variables` on `width` bits: none
/// for a width outside `1..=64`, an analysis over budget or with a product,
/// refused coordinates, or a candidate not smaller than the source.
pub open spec fn nominate_spec(t: Term, variables: [VarId; 2], width: u8, a: SourceAnalysis) -> Option<
    (Term, SectionScalars),
> {
    if width == 0 || width > WIDTH || a.node_count > MAX_SOURCE_NODES || a.contains_multiplication {
        None
    } else {
        match coordinates_spec(t, variables, width) {
            Err(_) => None,
            Ok(coordinates) => {
                let c = mobius(coordinates, mask_of(width as nat));
                let e = candidate_expression(candidate_terms(c, variables), mask_of(width as nat));
                if size(e) < a.node_count {
                    Some((e, candidate_scalars(c)))
                } else {
                    None
                }
            },
        }
    }
}

/// A nominated candidate: its expression and its scalars.
pub struct NominatedCandidate {
    pub expression: Expr,
    pub scalars: SectionScalars,
}

/// The conjunction of the variables of `subset`.
fn conjunction(subset: usize, variables: [VarId; 2]) -> (r: Expr)
    requires
        1 <= subset <= 3,
    ensures
        r@ == conjunction_spec(subset as int, variables),
{
    if subset == 1 {
        Expr::Var(variables[0])
    } else if subset == 2 {
        Expr::Var(variables[1])
    } else {
        let v = vec![Expr::Var(variables[0]), Expr::Var(variables[1])];
        proof {
            lemma_models_index(v@);
            assert(models(v@) =~= seq![Term::Var(variables[0].0), Term::Var(variables[1].0)]);
        }
        Expr::And(v)
    }
}

/// Appends `coefficient` times `conjunction` when it is not zero.
fn push_candidate_term(terms: &mut Vec<Expr>, coefficient: u64, conjunction: Expr)
    ensures
        models(final(terms)@) == push_term(models(old(terms)@), coefficient, conjunction@),
{
    if coefficient == 0 {
        return;
    }
    let ghost before = terms@;
    let term = if coefficient == 1 {
        conjunction
    } else {
        Expr::Scale(coefficient, Box::new(conjunction))
    };
    terms.push(term);
    proof {
        lemma_models_push(before, term);
    }
}

/// Places `x` before the first term of `out` above it.
fn insert_in_order(out: &mut Vec<Expr>, x: Expr)
    ensures
        models(final(out)@) == insert_sorted(models(old(out)@), x@),
{
    let ghost start = models(out@);
    proof {
        lemma_models_index(out@);
        assert(start.skip(0) =~= start);
        assert(start.take(0) + start =~= start);
    }
    let mut i: usize = 0;
    while i < out.len()
        invariant
            i <= out.len(),
            models(out@) == start,
            start.len() == out.len(),
            forall|k: int| 0 <= k < out.len() ==> #[trigger] start[k] == out@[k]@,
            insert_sorted(start, x@) == start.take(i as int) + insert_sorted(start.skip(i as int), x@),
        ensures
            i < out.len() ==> term_order(x@, start[i as int]) < 0,
            i <= out.len(),
            models(out@) == start,
            insert_sorted(start, x@) == start.take(i as int) + insert_sorted(start.skip(i as int), x@),
        decreases out.len() - i,
    {
        if expr_order(&x, &out[i]) < 0 {
            proof {
                assert(start[i as int] == out@[i as int]@);
            }
            break;
        }
        proof {
            let rest = start.skip(i as int);
            assert(rest[0] == start[i as int]);
            assert(start[i as int] == out@[i as int]@);
            assert(rest.drop_first() =~= start.skip(i + 1));
            assert(start.take(i as int) + (seq![rest[0]] + insert_sorted(rest.drop_first(), x@)) =~= start.take(
                i + 1,
            ) + insert_sorted(start.skip(i + 1), x@));
        }
        i += 1;
    }
    let ghost xv = x@;
    let ghost before = out@;
    out.insert(i, x);
    proof {
        let rest = start.skip(i as int);
        lemma_models_index(out@);
        lemma_models_index(before);
        if i < before.len() {
            assert(rest[0] == start[i as int]);
        } else {
            assert(rest.len() == 0);
        }
        assert(models(out@) =~= start.take(i as int) + (seq![xv] + rest)) by {
            assert forall|k: int| 0 <= k < out@.len() implies #[trigger] models(out@)[k] == (start.take(i as int) + (
            seq![xv] + rest))[k] by {
                assert(models(out@)[k] == out@[k]@);
                if k < i {
                    assert(out@[k] == before[k]);
                } else if k > i {
                    assert(out@[k] == before[k - 1]);
                }
            }
        }
    }
}

/// The terms in ascending order.
fn sort_in_order(terms: Vec<Expr>) -> (r: Vec<Expr>)
    ensures
        models(r@) == sort_terms(models(terms@)),
{
    let ghost m = models(terms@);
    proof {
        lemma_models_index(terms@);
        assert(m.take(0) =~= Seq::<Term>::empty());
    }
    let mut out: Vec<Expr> = Vec::new();
    let mut i: usize = 0;
    while i < terms.len()
        invariant
            i <= terms.len(),
            m == models(terms@),
            m.len() == terms.len(),
            forall|k: int| 0 <= k < terms.len() ==> #[trigger] m[k] == terms@[k]@,
            models(out@) == sort_terms(m.take(i as int)),
        decreases terms.len() - i,
    {
        let x = crate::expr::clone_expr(&terms[i]);
        insert_in_order(&mut out, x);
        proof {
            let t = m.take(i + 1);
            assert(t.drop_last() =~= m.take(i as int));
            assert(t.last() == m[i as int]);
        }
        i += 1;
    }
    proof {
        assert(m.take(i as int) =~= m);
    }
    out
}


/// Every term of `s` has at most four nodes.
pub open spec fn all_small(s: Seq<Term>) -> bool {
    forall|i: int| 0 <= i < s.len() ==> size(#[trigger] s[i]) <= 4
}

proof fn lemma_insert_small(l: Seq<Term>, x: Term)
    requires
        all_small(l),
        size(x) <= 4,
    ensures
        all_small(insert_sorted(l, x)),
        insert_sorted(l, x).len() == l.len() + 1,
    decreases l.len(),
{
    if l.len() > 0 {
        let rest = l.drop_first();
        assert(all_small(rest)) by {
            assert forall|i: int| 0 <= i < rest.len() implies size(#[trigger] rest[i]) <= 4 by {
                assert(rest[i] == l[i + 1]);
            }
        }
        lemma_insert_small(rest, x);
        let r = insert_sorted(l, x);
        assert forall|i: int| 0 <= i < r.len() implies size(#[trigger] r[i]) <= 4 by {
            if term_order(x, l[0]) < 0 {
                if i > 0 {
                    assert(r[i] == l[i - 1]);
                }
            } else if i > 0 {
                assert(r[i] == insert_sorted(rest, x)[i - 1]);
            }
        }
    }
}

proof fn lemma_sort_small(s: Seq<Term>)
    requires
        all_small(s),
    ensures
        all_small(sort_terms(s)),
        sort_terms(s).len() == s.len(),
    decreases s.len(),
{
    if s.len() > 0 {
        let p = s.drop_last();
        assert(all_small(p)) by {
            assert forall|i: int| 0 <= i < p.len() implies size(#[trigger] p[i]) <= 4 by {
                assert(p[i] == s[i]);
            }
        }
        lemma_sort_small(p);
        assert(size(s[s.len() - 1]) <= 4);
        lemma_insert_small(sort_terms(p), s.last());
    }
}

proof fn lemma_sizes_small(s: Seq<Term>)
    requires
        all_small(s),
    ensures
        sizes(s) <= 4 * s.len(),
    decreases s.len(),
{
    if s.len() > 0 {
        let p = s.drop_last();
        assert(all_small(p)) by {
            assert forall|i: int| 0 <= i < p.len() implies size(#[trigger] p[i]) <= 4 by {
                assert(p[i] == s[i]);
            }
        }
        lemma_sizes_small(p);
        assert(size(s[s.len() - 1]) <= 4);
    }
}

proof fn lemma_push_small(ts: Seq<Term>, coefficient: u64, conj: Term)
    requires
        all_small(ts),
        size(conj) <= 3,
    ensures
        all_small(push_term(ts, coefficient, conj)),
        push_term(ts, coefficient, conj).len() <= ts.len() + 1,
{
    let r = push_term(ts, coefficient, conj);
    assert forall|i: int| 0 <= i < r.len() implies size(#[trigger] r[i]) <= 4 by {
        if i < ts.len() {
            assert(r[i] == ts[i]);
        }
    }
}

/// A candidate has at most seventeen nodes.
proof fn lemma_candidate_small(c: [u64; 4], variables: [VarId; 2], mask: u64)
    ensures
        size(candidate_expression(candidate_terms(c, variables), mask)) <= 17,
{
    let start = if c[0] != 0 {
        seq![Term::Const(c[0])]
    } else {
        Seq::empty()
    };
    let pair = seq![Term::Var(variables[0].0), Term::Var(variables[1].0)];
    let p1 = pair.drop_last();
    assert(p1 =~= seq![Term::Var(variables[0].0)]);
    assert(p1.drop_last() =~= Seq::<Term>::empty());
    assert(pair.last() == Term::Var(variables[1].0));
    assert(p1.last() == Term::Var(variables[0].0));
    assert(sizes(p1.drop_last()) == 0);
    assert(size(p1.last()) == 1);
    assert(sizes(p1) == 1);
    assert(size(pair.last()) == 1);
    assert(sizes(pair) == 2);
    assert(conjunction_spec(3, variables) == Term::And(pair));
    assert(size(conjunction_spec(3, variables)) == 3);
    assert(all_small(start));
    lemma_push_small(start, c[1], conjunction_spec(1, variables));
    let t1 = push_term(start, c[1], conjunction_spec(1, variables));
    lemma_push_small(t1, c[2], conjunction_spec(2, variables));
    let t2 = push_term(t1, c[2], conjunction_spec(2, variables));
    lemma_push_small(t2, c[3], conjunction_spec(3, variables));
    let ts = candidate_terms(c, variables);
    assert(ts.len() <= 4);
    if ts.len() == 1 {
        assert(size(ts[0]) <= 4);
    } else if ts.len() >= 2 {
        if mask == 1 {
            let rest = if ts[0] is Const {
                ts.drop_first().reverse().push(ts[0])
            } else {
                ts.reverse()
            };
            assert(all_small(rest)) by {
                assert forall|i: int| 0 <= i < rest.len() implies size(#[trigger] rest[i]) <= 4 by {
                    if ts[0] is Const {
                        if i < ts.len() - 1 {
                            assert(rest[i] == ts[ts.len() - 1 - i]);
                        } else {
                            assert(rest[i] == ts[0]);
                        }
                    } else {
                        assert(rest[i] == ts[ts.len() - 1 - i]);
                    }
                }
            }
            lemma_sizes_small(rest);
        } else {
            lemma_sort_small(ts);
            lemma_sizes_small(sort_terms(ts));
        }
    }
}

/// The terms in reverse order.
fn reversed(terms: &Vec<Expr>, from: usize) -> (r: Vec<Expr>)
    requires
        from <= terms.len(),
    ensures
        models(r@) == models(terms@).skip(from as int).reverse(),
{
    let ghost m = models(terms@);
    proof {
        lemma_models_index(terms@);
    }
    let mut out: Vec<Expr> = Vec::new();
    let mut i: usize = terms.len();
    proof {
        assert(models(out@) =~= m.subrange(terms.len() as int, terms.len() as int).reverse());
    }
    while i > from
        invariant
            from <= i <= terms.len(),
            m == models(terms@),
            m.len() == terms.len(),
            forall|k: int| 0 <= k < terms.len() ==> #[trigger] m[k] == terms@[k]@,
            models(out@) == m.subrange(i as int, terms.len() as int).reverse(),
        decreases i,
    {
        i -= 1;
        let x = crate::expr::clone_expr(&terms[i]);
        let ghost before = out@;
        out.push(x);
        proof {
            lemma_models_push(before, x);
            assert(m.subrange(i as int, terms.len() as int).reverse() =~= m.subrange(i + 1, terms.len() as int).reverse().push(
                m[i as int],
            ));
        }
    }
    proof {
        assert(m.subrange(from as int, terms.len() as int) =~= m.skip(from as int));
    }
    out
}

/// The normal form of the candidate's terms on the width of `mask`.
fn candidate_from_terms(terms: Vec<Expr>, mask: u64) -> (r: Expr)
    ensures
        r@ == candidate_expression(models(terms@), mask),
{
    let ghost m = models(terms@);
    proof {
        lemma_models_index(terms@);
    }
    if terms.len() == 0 {
        return Expr::Const(0);
    }
    if terms.len() == 1 {
        let mut terms = terms;
        let ghost before = terms@;
        let only = terms.pop().unwrap();
        proof {
            assert(before[0] == only);
        }
        return only;
    }
    if mask == 1 {
        let first_constant = match &terms[0] {
            Expr::Const(_) => true,
            _ => false,
        };
        proof {
            assert(m[0] == terms@[0]@);
        }
        if first_constant {
            let mut rest = reversed(&terms, 1);
            let ghost before = rest@;
            let first = crate::expr::clone_expr(&terms[0]);
            rest.push(first);
            proof {
                lemma_models_push(before, first);
                assert(m.skip(1) =~= m.drop_first());
            }
            Expr::Xor(rest)
        } else {
            let rest = reversed(&terms, 0);
            proof {
                assert(m.skip(0) =~= m);
            }
            Expr::Xor(rest)
        }
    } else {
        Expr::Add(sort_in_order(terms))
    }
}

/// Nominates the candidate for `source` over `variables` on `width` bits.
pub fn nominate_candidate(source: &Expr, variables: [VarId; 2], width: u8, analysis: SourceAnalysis) -> (r: Option<
    NominatedCandidate,
>)
    requires
        vars_fit(source@, variables),
        variables[0].0 < variables[1].0,
    ensures
        match nominate_spec(source@, variables, width, analysis) {
            None => r is None,
            Some((e, s)) => r matches Some(n) && n.expression@ == e && n.scalars == s,
        },
{
    if width == 0 || width > WIDTH || analysis.node_count > MAX_SOURCE_NODES || analysis.contains_multiplication {
        return None;
    }
    let mask = make_mask(width);
    let coordinates = match boolean_coordinates(source, variables, width) {
        Ok(c) => c,
        Err(_) => {
            return None;
        },
    };
    let c0 = coordinates[0];
    let c1 = coordinates[1].wrapping_sub(coordinates[0]) & mask;
    let c3a = coordinates[3].wrapping_sub(coordinates[2]) & mask;
    let c2 = coordinates[2].wrapping_sub(coordinates[0]) & mask;
    let c3 = c3a.wrapping_sub(c1) & mask;
    let coefficients = [c0, c1, c2, c3];
    proof {
        assert(coefficients == mobius(coordinates, mask));
    }
    let e0 = signed_word(c0);
    let e1 = signed_word(c1);
    let e2 = signed_word(c2);
    let e3 = signed_word(c3);
    let epsilon3 = e1 + e2 + e3;
    let scalars = SectionScalars { r0: e0, epsilon: [0, e1, e2, epsilon3] };
    let mut terms: Vec<Expr> = Vec::new();
    if c0 != 0 {
        terms.push(Expr::Const(c0));
        proof {
            lemma_models_index(terms@);
            assert(models(terms@) =~= seq![Term::Const(c0)]);
        }
    } else {
        proof {
            assert(models(terms@) =~= Seq::<Term>::empty());
        }
    }
    push_candidate_term(&mut terms, c1, conjunction(1, variables));
    push_candidate_term(&mut terms, c2, conjunction(2, variables));
    push_candidate_term(&mut terms, c3, conjunction(3, variables));
    let expression = candidate_from_terms(terms, mask);
    proof {
        lemma_candidate_small(coefficients, variables, mask);
    }
    if expression.size() < analysis.node_count {
        Some(NominatedCandidate { expression, scalars })
    } else {
        None
    }
}

/// What installing a candidate gives for `t` on `width` bits: the source
/// itself for another width, a refused analysis, other than two variables
/// or no nominated candidate; else the prettified candidate when its scalars
/// match the source's, the source when they do not.
pub open spec fn install_outcome(t: Term, width: u8, r: Term) -> bool {
    if width != WIDTH {
        r == t
    } else {
        match visit_spec(t, 0, empty_analysis()) {
            Err(_) => r == t,
            Ok(a) => match analysis_variables(a) {
                None => r == t,
                Some(variables) => match nominate_spec(t, variables, width, a) {
                    None => r == t,
                    Some((e, s)) => exists|m: Result<(), FactorizedSectionRefusal>|
                        #[trigger] matched(t, s, variables, width, m) && if m is Ok {
                            r == prettify_spec(e, mask_of(width as nat))
                        } else {
                            r == t
                        },
                },
            },
        }
    }
}

/// Replaces `source` by the prettified candidate when its scalars match, on
/// `width` bits; the source is kept otherwise. On 64 bits the result takes
/// the source's value on the four boolean assignments of its two variables,
/// and under every assignment unless the linear certificate accepted the
/// candidate.
pub fn install(source: Expr, width: u8) -> (r: Expr)
    ensures
        install_outcome(source@, width, r@),
        installed_value(source@, width, r@),
        width == WIDTH ==> match visit_spec(source@, 0, empty_analysis()) {
            Ok(an) => match analysis_variables(an) {
                Some(variables) => forall|a: int|
                    0 <= a < 4 ==> eval(r@, #[trigger] boolean_inputs(variables, a, max_variable(variables) + 1))
                        == eval(source@, boolean_inputs(variables, a, max_variable(variables) + 1)),
                None => true,
            },
            Err(_) => true,
        },
{
    let ghost original = source@;
    let r = install_checked(source, width);
    proof {
        if width == WIDTH {
            if let Ok(an) = visit_spec(original, 0, empty_analysis()) {
                if let Some(variables) = analysis_variables(an) {
                    let len = max_variable(variables) + 1;
                    assert forall|a: int| 0 <= a < 4 implies eval(r@, #[trigger] boolean_inputs(variables, a, len))
                        == eval(original, boolean_inputs(variables, a, len)) by {
                        crate::install_value::lemma_install_keeps_boolean_values(original, r@, a);
                    }
                }
            }
        }
    }
    r
}

/// The installation itself, with its outcome.
fn install_checked(source: Expr, width: u8) -> (r: Expr)
    ensures
        install_outcome(source@, width, r@),
        installed_value(source@, width, r@),
{
    if width != WIDTH {
        return source;
    }
    let analysis = match analyze_source(&source) {
        Ok(a) => a,
        Err(_) => {
            return source;
        },
    };
    let variables = match analyzed_variables(&analysis) {
        Some(v) => v,
        None => {
            return source;
        },
    };
    proof {
        lemma_visit_facts(source@, 0, empty_analysis());
        let l = recorded_list(analysis);
        assert forall|i: int| 0 <= i < l.len() implies #[trigger] l[i] < max_variable(variables) + 1 by {
            assert(l[i] == analysis.variables[i]->Some_0.0);
        }
        lemma_vars_in_below(source@, l, max_variable(variables) + 1);
        assert(analysis.variables[0] != analysis.variables[1]);
    }
    let nominated = match nominate_candidate(&source, variables, width, analysis) {
        Some(n) => n,
        None => {
            return source;
        },
    };
    let direct_result = direct_match(&source, &nominated.scalars, variables, width);
    proof {
        assert(matched(source@, nominated.scalars, variables, width, direct_result));
    }
    if direct_result.is_ok() {
        let ghost k = coordinates_spec(source@, variables, width)->Ok_0;
        let ghost c = mobius(k, u64::MAX);
        let r = prettify(nominated.expression, width);
        proof {
            assert(analysis_variables(analysis) == Some(variables));
            if !linear_accepted(source@, variables, nominated.scalars) {
                let l = recorded_list(analysis);
                assert(l.len() == 2);
                assert forall|i: int| 0 <= i < l.len() implies #[trigger] l[i] == variables[0].0 || l[i]
                    == variables[1].0 by {
                    assert(l[i] == analysis.variables[i]->Some_0.0);
                }
                assert forall|vars: Seq<u64>| #[trigger] eval(r@, vars) == eval(source@, vars) by {
                    crate::install_value::lemma_installed_value_everywhere(c, variables, source@, l, vars);
                }
            }
        }
        r
    } else {
        source
    }
}

/// On 64 bits, when the analysis finds exactly two variables, the result
/// has the source's value under every assignment, unless the nominated
/// scalars were accepted by the linear certificate of a sum; in every other
/// case the result is the source.
pub open spec fn installed_value(t: Term, width: u8, r: Term) -> bool {
    width == WIDTH ==> match visit_spec(t, 0, empty_analysis()) {
        Ok(an) => match analysis_variables(an) {
            Some(variables) => (forall|vars: Seq<u64>| #[trigger] eval(r, vars) == eval(t, vars)) || (
            nominate_spec(t, variables, width, an) matches Some((e, s)) && linear_accepted(t, variables, s)),
            None => r == t,
        },
        Err(_) => r == t,
    }
}

} // verus!
