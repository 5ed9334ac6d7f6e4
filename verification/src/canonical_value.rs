//! Canonical compositions keep the value: regrouping a sum into one
//! coefficient per base and a constant, or an exclusive or into the bases of
//! odd parity and a constant, changes nothing it evaluates to.
use vstd::prelude::*;
use vstd::arithmetic::mul::lemma_mul_is_distributive_add_other_way;
use crate::canonical::{
    Coefficients, Parities, add_collect, add_collect_all, add_entry, add_terms, assemble, canonical_add_spec,
    canonical_composition_spec, canonical_xor_spec, odd_terms, toggle_entry, xor_collect, xor_collect_all,
};
use crate::expr::{Op, Term, eval, eval_fold, size, sizes};
use crate::order::lemma_order_basics;
use crate::semantics::{lemma_apply_unit, lemma_word, lemma_word_add, lemma_word_mul};
use crate::stationary::split_scale_spec;
use crate::varint::word;

verus! {

/// Each base's value times its coefficient, added up modulo `2^64`.
pub open spec fn coefficients_value(l: Coefficients, vars: Seq<u64>) -> u64
    decreases l.len(),
{
    if l.len() == 0 {
        0
    } else {
        word(coefficients_value(l.drop_last(), vars) + l.last().1 * eval(l.last().0, vars))
    }
}

/// The value a sum gathered so far stands for: its constant plus its
/// coefficient list.
pub open spec fn sum_state_value(st: (u64, Coefficients), vars: Seq<u64>) -> u64 {
    word(st.0 + coefficients_value(st.1, vars))
}

/// A wrapping sum is the sum modulo `2^64`.
proof fn lemma_wrapping_add(a: u64, b: u64)
    ensures
        a.wrapping_add(b) == word(a + b),
{
    lemma_word(a + b);
    if a + b > u64::MAX {
        lemma_word(a + b - 0x1_0000_0000_0000_0000);
        assert((a + b) % 0x1_0000_0000_0000_0000 == (a + b - 0x1_0000_0000_0000_0000) % 0x1_0000_0000_0000_0000);
    }
}

/// A wrapping product is the product modulo `2^64`.
proof fn lemma_wrapping_mul(a: u64, b: u64)
    ensures
        a.wrapping_mul(b) == word(a * b),
{
}

/// A word is its own residue.
proof fn lemma_word_of_word(a: u64)
    ensures
        word(a as int) == a,
{
    lemma_word(a as int);
}

/// The outer scalings of a term, folded into one coefficient, keep its
/// value.
proof fn lemma_split_value(t: Term, vars: Seq<u64>)
    ensures
        eval(t, vars) == word(split_scale_spec(t).0 * eval(split_scale_spec(t).1, vars)),
    decreases t,
{
    match t {
        Term::Scale(c, x) => {
            lemma_split_value(*x, vars);
            let (n, b) = split_scale_spec(*x);
            let e = eval(b, vars);
            lemma_wrapping_mul(c, n);
            lemma_word_mul(c * n, e as int);
            lemma_word_mul(c as int, n * e);
            assert(c * (n * e) == (c * n) * e) by (nonlinear_arith);
        },
        _ => {
            lemma_word_of_word(eval(t, vars));
        },
    }
}

/// A base placed in front adds its share.
proof fn lemma_coefficients_front(x: (Term, u64), l: Coefficients, vars: Seq<u64>)
    ensures
        coefficients_value(seq![x] + l, vars) == word(x.1 * eval(x.0, vars) + coefficients_value(l, vars)),
    decreases l.len(),
{
    let v = x.1 * eval(x.0, vars);
    if l.len() == 0 {
        assert(seq![x] + l =~= seq![x]);
        assert(seq![x].drop_last() =~= Seq::<(Term, u64)>::empty());
        assert(seq![x].last() == x);
        assert(coefficients_value(Seq::<(Term, u64)>::empty(), vars) == 0);
    } else {
        let s = seq![x] + l;
        assert(s.drop_last() =~= seq![x] + l.drop_last());
        assert(s.last() == l.last());
        lemma_coefficients_front(x, l.drop_last(), vars);
        let rest = coefficients_value(l.drop_last(), vars);
        let last = l.last().1 * eval(l.last().0, vars);
        lemma_word_add(v + rest, last);
        lemma_word_add(v, rest + last);
    }
}

/// Adding `d` to the coefficient of `k` adds `d` times its value.
proof fn lemma_add_entry_value(l: Coefficients, k: Term, d: u64, vars: Seq<u64>)
    ensures
        coefficients_value(add_entry(l, k, d), vars) == word(coefficients_value(l, vars) + d * eval(k, vars)),
    decreases l.len(),
{
    let e = eval(k, vars);
    if l.len() == 0 {
        lemma_coefficients_front((k, d), l, vars);
        assert(seq![(k, d)] + l =~= seq![(k, d)]);
    } else {
        let rest = l.drop_first();
        assert(l =~= seq![l[0]] + rest);
        lemma_coefficients_front(l[0], rest, vars);
        let c0 = l[0].1;
        let e0 = eval(l[0].0, vars);
        let r = coefficients_value(rest, vars);
        lemma_order_basics(k, l[0].0);
        if crate::order::term_order(k, l[0].0) < 0 {
            lemma_coefficients_front((k, d), l, vars);
            lemma_word_add(c0 * e0 + r, d * e);
            lemma_word_add(d * e, c0 * e0 + r);
        } else if crate::order::term_order(k, l[0].0) == 0 {
            let c = c0.wrapping_add(d);
            lemma_wrapping_add(c0, d);
            lemma_coefficients_front((k, c), rest, vars);
            lemma_word_mul(c0 + d, e as int);
            lemma_word_add((c0 + d) * e, r as int);
            lemma_word_add(c * e, r as int);
            lemma_word_add(c0 * e0 + r, d * e);
            lemma_mul_is_distributive_add_other_way(e as int, c0 as int, d as int);
        } else {
            lemma_add_entry_value(rest, k, d, vars);
            lemma_coefficients_front(l[0], add_entry(rest, k, d), vars);
            lemma_word_add(c0 * e0, r + d * e);
            lemma_word_add(c0 * e0 + r, d * e);
        }
    }
}

/// Gathering a term into a sum adds its value.
proof fn lemma_add_collect_value(t: Term, st: (u64, Coefficients), vars: Seq<u64>)
    ensures
        sum_state_value(add_collect(t, st), vars) == word(sum_state_value(st, vars) + eval(t, vars)),
    decreases size(t), 1int,
{
    match t {
        Term::Add(ts) => {
            lemma_add_collect_all_value(ts, st, vars);
        },
        _ => {
            let (c, base) = split_scale_spec(t);
            lemma_split_value(t, vars);
            let cv = coefficients_value(st.1, vars);
            let e = eval(base, vars);
            match base {
                Term::Const(v) => {
                    lemma_wrapping_mul(c, v);
                    lemma_wrapping_add(st.0, c.wrapping_mul(v));
                    lemma_word_add(st.0 + c * v, cv as int);
                    lemma_word_add(st.0 as int, c * v);
                    lemma_word_add(st.0 + cv, c * v);
                    lemma_word_add(st.0 + cv, c * e);
                },
                _ => {
                    lemma_add_entry_value(st.1, base, c, vars);
                    lemma_word_add(st.0 as int, cv + c * e);
                    lemma_word_add(st.0 + cv, c * e);
                },
            }
            lemma_word_add(st.0 + cv, eval(t, vars) as int);
            lemma_word_add(st.0 + cv, c * e);
        },
    }
}

/// Gathering terms into a sum adds their sum.
proof fn lemma_add_collect_all_value(ts: Seq<Term>, st: (u64, Coefficients), vars: Seq<u64>)
    ensures
        sum_state_value(add_collect_all(ts, st), vars) == word(sum_state_value(st, vars) + eval_fold(Op::Add, ts, vars)),
    decreases sizes(ts), 2int,
{
    if ts.len() == 0 {
        lemma_word_of_word(sum_state_value(st, vars));
    } else {
        assert(size(ts.last()) >= 1) by {
            lemma_size_positive(ts.last());
        }
        lemma_add_collect_all_value(ts.drop_last(), st, vars);
        lemma_add_collect_value(ts.last(), add_collect_all(ts.drop_last(), st), vars);
        let a = sum_state_value(st, vars);
        let f = eval_fold(Op::Add, ts.drop_last(), vars);
        let e = eval(ts.last(), vars);
        lemma_word_add(a + f, e as int);
        lemma_word_add(a as int, f + e);
    }
}

/// Every term has a node.
proof fn lemma_size_positive(t: Term)
    ensures
        size(t) >= 1,
{
}

/// The terms of a coefficient list add up to its value.
proof fn lemma_add_terms_value(l: Coefficients, vars: Seq<u64>)
    ensures
        eval_fold(Op::Add, add_terms(l), vars) == coefficients_value(l, vars),
    decreases l.len(),
{
    if l.len() > 0 {
        lemma_add_terms_value(l.drop_last(), vars);
        let rest = add_terms(l.drop_last());
        let (e, c) = l.last();
        let cv = coefficients_value(l.drop_last(), vars);
        let v = eval(e, vars);
        assert(coefficients_value(l, vars) == word(cv + c * v));
        if c == 0 {
            lemma_word_of_word(cv);
            assert(add_terms(l) == rest);
        } else if c == 1 {
            assert(add_terms(l) == rest.push(e));
            assert(rest.push(e).drop_last() =~= rest);
            assert(rest.push(e).last() == e);
        } else {
            let sc = Term::Scale(c, Box::new(e));
            assert(add_terms(l) == rest.push(sc));
            assert(rest.push(sc).drop_last() =~= rest);
            assert(rest.push(sc).last() == sc);
            assert(eval(sc, vars) == word(c * v));
            lemma_word_add(cv as int, c * v);
        }
    }
}

/// A single operand folds to its own value.
proof fn lemma_fold_one(op: Op, x: Term, vars: Seq<u64>)
    requires
        op == Op::Add || op == Op::Xor,
    ensures
        eval_fold(op, seq![x], vars) == eval(x, vars),
{
    let one = seq![x];
    assert(one.drop_last() =~= Seq::<Term>::empty());
    assert(one.last() == x);
    let v = eval(x, vars);
    assert(eval_fold(op, one.drop_last(), vars) == crate::expr::unit(op));
    assert(eval_fold(op, one, vars) == crate::expr::apply(op, crate::expr::unit(op), v));
    lemma_word_of_word(v);
    lemma_apply_unit(op, v);
}

/// The assembled sum is the terms' sum plus the constant.
proof fn lemma_assemble_add(terms: Seq<Term>, k: u64, vars: Seq<u64>)
    ensures
        eval(assemble(terms, k, true), vars) == word(eval_fold(Op::Add, terms, vars) + k),
{
    let f = eval_fold(Op::Add, terms, vars);
    let all = if k != 0 {
        terms.push(Term::Const(k))
    } else {
        terms
    };
    if k != 0 {
        let pushed = terms.push(Term::Const(k));
        assert(pushed.drop_last() =~= terms);
        assert(pushed.last() == Term::Const(k));
        assert(eval_fold(Op::Add, pushed, vars) == crate::expr::apply(
            Op::Add,
            eval_fold(Op::Add, pushed.drop_last(), vars),
            eval(pushed.last(), vars),
        ));
        assert(eval_fold(Op::Add, all, vars) == word(f + k));
    } else {
        lemma_word_of_word(f);
        assert(eval_fold(Op::Add, all, vars) == word(f + k));
    }
    if all.len() == 0 {
        assert(eval(assemble(terms, k, true), vars) == 0);
        assert(eval_fold(Op::Add, all, vars) == 0);
    } else if all.len() == 1 {
        lemma_fold_one(Op::Add, all[0], vars);
        assert(all =~= seq![all[0]]);
    }
}

/// The canonical form of a sum has the sum's value.
pub proof fn lemma_canonical_add_value(ts: Seq<Term>, vars: Seq<u64>)
    ensures
        eval(canonical_add_spec(ts), vars) == eval_fold(Op::Add, ts, vars),
{
    let st0 = (0u64, Seq::<(Term, u64)>::empty());
    lemma_add_collect_all_value(ts, st0, vars);
    let (k, l) = add_collect_all(ts, st0);
    lemma_add_terms_value(l, vars);
    lemma_assemble_add(add_terms(l), k, vars);
    lemma_word_of_word(eval_fold(Op::Add, ts, vars));
    assert(sum_state_value(st0, vars) == 0) by {
        lemma_word(0);
    }
}

/// What one entry of a parity list contributes: its base's value when its
/// parity is odd, else nothing.
pub open spec fn parity_share(x: (Term, bool), vars: Seq<u64>) -> u64 {
    if x.1 {
        eval(x.0, vars)
    } else {
        0
    }
}

/// The exclusive or of the bases of odd parity.
pub open spec fn parities_value(l: Parities, vars: Seq<u64>) -> u64
    decreases l.len(),
{
    if l.len() == 0 {
        0
    } else {
        parities_value(l.drop_last(), vars) ^ parity_share(l.last(), vars)
    }
}

/// The value an exclusive or gathered so far stands for: its constant
/// combined with its parity list.
pub open spec fn xor_state_value(st: (u64, Parities), vars: Seq<u64>) -> u64 {
    st.0 ^ parities_value(st.1, vars)
}

/// Exclusive or is associative and commutative, each word is its own
/// inverse, and 0 is neutral.
proof fn lemma_xor_facts(a: u64, b: u64, c: u64)
    by (bit_vector)
    ensures
        (a ^ b) ^ c == a ^ (b ^ c),
        a ^ b == b ^ a,
        a ^ a == 0,
        a ^ 0 == a,
        0 ^ a == a,
{
}

/// An entry placed in front adds its share.
proof fn lemma_parities_front(x: (Term, bool), l: Parities, vars: Seq<u64>)
    ensures
        parities_value(seq![x] + l, vars) == parity_share(x, vars) ^ parities_value(l, vars),
    decreases l.len(),
{
    let v = parity_share(x, vars);
    if l.len() == 0 {
        assert(seq![x] + l =~= seq![x]);
        assert(seq![x].drop_last() =~= Seq::<(Term, bool)>::empty());
        assert(seq![x].last() == x);
        assert(parities_value(Seq::<(Term, bool)>::empty(), vars) == 0);
        assert(parities_value(seq![x], vars) == parities_value(seq![x].drop_last(), vars) ^ v);
        lemma_xor_facts(v, 0, 0);
    } else {
        let s = seq![x] + l;
        assert(s.drop_last() =~= seq![x] + l.drop_last());
        assert(s.last() == l.last());
        lemma_parities_front(x, l.drop_last(), vars);
        assert(parities_value(s, vars) == parities_value(s.drop_last(), vars) ^ parity_share(s.last(), vars));
        lemma_xor_facts(v, parities_value(l.drop_last(), vars), parity_share(l.last(), vars));
    }
}

/// Flipping the parity of `k` toggles its value in.
proof fn lemma_toggle_entry_value(l: Parities, k: Term, vars: Seq<u64>)
    ensures
        parities_value(toggle_entry(l, k), vars) == parities_value(l, vars) ^ eval(k, vars),
    decreases l.len(),
{
    let e = eval(k, vars);
    if l.len() == 0 {
        lemma_parities_front((k, true), l, vars);
        assert(seq![(k, true)] + l =~= seq![(k, true)]);
        lemma_xor_facts(e, 0, 0);
    } else {
        let rest = l.drop_first();
        assert(l =~= seq![l[0]] + rest);
        lemma_parities_front(l[0], rest, vars);
        let c0 = parity_share(l[0], vars);
        let r = parities_value(rest, vars);
        lemma_order_basics(k, l[0].0);
        if crate::order::term_order(k, l[0].0) < 0 {
            lemma_parities_front((k, true), l, vars);
            lemma_xor_facts(e, c0 ^ r, 0);
        } else if crate::order::term_order(k, l[0].0) == 0 {
            lemma_parities_front((k, !l[0].1), rest, vars);
            lemma_xor_facts(c0, r, e);
            lemma_xor_facts(r, e, e);
            lemma_xor_facts(e, r, 0);
            lemma_xor_facts(r, 0, 0);
            lemma_xor_facts(0, r, 0);
        } else {
            lemma_toggle_entry_value(rest, k, vars);
            lemma_parities_front(l[0], toggle_entry(rest, k), vars);
            lemma_xor_facts(c0, r, e);
        }
    }
}

/// Gathering a term into an exclusive or combines its value in.
proof fn lemma_xor_collect_value(t: Term, st: (u64, Parities), vars: Seq<u64>)
    ensures
        xor_state_value(xor_collect(t, st), vars) == xor_state_value(st, vars) ^ eval(t, vars),
    decreases size(t), 1int,
{
    let p = parities_value(st.1, vars);
    match t {
        Term::Xor(ts) => {
            lemma_xor_collect_all_value(ts, st, vars);
        },
        Term::Const(v) => {
            lemma_xor_facts(st.0, v, p);
            lemma_xor_facts(v, p, 0);
            lemma_xor_facts(st.0, p, v);
        },
        _ => {
            lemma_toggle_entry_value(st.1, t, vars);
            lemma_xor_facts(st.0, p, eval(t, vars));
        },
    }
}

/// Gathering terms into an exclusive or combines their exclusive or in.
proof fn lemma_xor_collect_all_value(ts: Seq<Term>, st: (u64, Parities), vars: Seq<u64>)
    ensures
        xor_state_value(xor_collect_all(ts, st), vars) == xor_state_value(st, vars) ^ eval_fold(Op::Xor, ts, vars),
    decreases sizes(ts), 2int,
{
    let a = xor_state_value(st, vars);
    if ts.len() == 0 {
        lemma_xor_facts(a, 0, 0);
    } else {
        assert(size(ts.last()) >= 1) by {
            lemma_size_positive(ts.last());
        }
        lemma_xor_collect_all_value(ts.drop_last(), st, vars);
        lemma_xor_collect_value(ts.last(), xor_collect_all(ts.drop_last(), st), vars);
        lemma_xor_facts(a, eval_fold(Op::Xor, ts.drop_last(), vars), eval(ts.last(), vars));
    }
}

/// The bases of odd parity combine to the list's value.
proof fn lemma_odd_terms_value(l: Parities, vars: Seq<u64>)
    ensures
        eval_fold(Op::Xor, odd_terms(l), vars) == parities_value(l, vars),
    decreases l.len(),
{
    if l.len() > 0 {
        lemma_odd_terms_value(l.drop_last(), vars);
        let rest = odd_terms(l.drop_last());
        let pv = parities_value(l.drop_last(), vars);
        if l.last().1 {
            assert(odd_terms(l) == rest.push(l.last().0));
            assert(rest.push(l.last().0).drop_last() =~= rest);
            assert(rest.push(l.last().0).last() == l.last().0);
        } else {
            assert(odd_terms(l) == rest);
            lemma_xor_facts(pv, 0, 0);
        }
    }
}

/// The assembled exclusive or is the terms' exclusive or with the constant.
proof fn lemma_assemble_xor(terms: Seq<Term>, k: u64, vars: Seq<u64>)
    ensures
        eval(assemble(terms, k, false), vars) == eval_fold(Op::Xor, terms, vars) ^ k,
{
    let f = eval_fold(Op::Xor, terms, vars);
    let all = if k != 0 {
        terms.push(Term::Const(k))
    } else {
        terms
    };
    lemma_xor_facts(f, 0, 0);
    if k != 0 {
        let pushed = terms.push(Term::Const(k));
        assert(pushed.drop_last() =~= terms);
        assert(pushed.last() == Term::Const(k));
        assert(eval_fold(Op::Xor, pushed, vars) == crate::expr::apply(
            Op::Xor,
            eval_fold(Op::Xor, pushed.drop_last(), vars),
            eval(pushed.last(), vars),
        ));
    }
    assert(eval_fold(Op::Xor, all, vars) == f ^ k);
    if all.len() == 0 {
        assert(eval_fold(Op::Xor, all, vars) == 0);
    } else if all.len() == 1 {
        lemma_fold_one(Op::Xor, all[0], vars);
        assert(all =~= seq![all[0]]);
    }
}

/// The canonical form of an exclusive or has its value.
pub proof fn lemma_canonical_xor_value(ts: Seq<Term>, vars: Seq<u64>)
    ensures
        eval(canonical_xor_spec(ts), vars) == eval_fold(Op::Xor, ts, vars),
{
    let st0 = (0u64, Seq::<(Term, bool)>::empty());
    lemma_xor_collect_all_value(ts, st0, vars);
    let (k, l) = xor_collect_all(ts, st0);
    lemma_odd_terms_value(l, vars);
    lemma_assemble_xor(odd_terms(l), k, vars);
    let f = eval_fold(Op::Xor, ts, vars);
    assert(parities_value(Seq::<(Term, bool)>::empty(), vars) == 0);
    lemma_xor_facts(0, 0, 0);
    lemma_xor_facts(0, f, 0);
    lemma_xor_facts(f, 0, 0);
    lemma_xor_facts(k, parities_value(l, vars), 0);
    assert(canonical_xor_spec(ts) == assemble(odd_terms(l), k, false));
}

/// A canonical composition, where there is one, has the value of the term
/// it replaces, under every assignment.
pub proof fn lemma_canonical_composition_value(t: Term, vars: Seq<u64>)
    ensures
        canonical_composition_spec(t) matches Some(c) ==> eval(c, vars) == eval(t, vars),
{
    match t {
        Term::Add(ts) => lemma_canonical_add_value(ts, vars),
        Term::Xor(ts) => lemma_canonical_xor_value(ts, vars),
        _ => {},
    }
}

} // verus!
