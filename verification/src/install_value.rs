//! What installing a candidate keeps of the source on 64 bits: the
//! installed expression takes the source's value on each of the four
//! boolean assignments of the source's two variables.
use vstd::prelude::*;
use vstd::arithmetic::div_mod::{lemma_small_mod, lemma_mod_add_multiples_vanish, lemma_sub_mod_noop, lemma_mod_twice};
use vstd::arithmetic::power2::{pow2, lemma2_to64, lemma2_to64_rest};
use crate::expr::{Term, VarId, Op, eval, eval_fold, var_value, vars_in, all_vars_in, size, sizes};
use crate::candidate::{
    install_outcome, nominate_spec, mobius, candidate_terms, candidate_expression, push_term, conjunction_spec,
    insert_sorted, sort_terms,
};
use crate::one_base_compile::{WIDTH, analysis_variables, matched};
use crate::source_analysis::{visit_spec, empty_analysis, lemma_visit_facts};
use crate::stationary::{boolean_inputs, coordinates_spec, max_variable};
use crate::prettify::prettify_spec;
use crate::prettify_sound::lemma_prettify_preserves_value;
use crate::semantics::{lemma_word, lemma_word_add, lemma_fold_single, lemma_fold_permutation, lemma_apply_comm};
use crate::varint::{mask_of, word, lemma_mask_is_mod};
use crate::candidate::candidate_scalars;
use crate::factorized_section::signed_word_spec;
use crate::graph_value::{operand_inputs, scalar_epsilon, lemma_bit_of_bit, scalars_describe};
use crate::one_base_sound::{bit, bits_sum, digit_sum, contribution, symbol_at, lemma_bits, lemma_bits_sum, lemma_bit_values};
use crate::semantics::lemma_word_mul;

verus! {

/// Masking with all ones keeps a word.
proof fn lemma_all_ones(x: u64)
    ensures
        x & u64::MAX == x,
{
    lemma_mask_is_mod(x, 64);
    lemma2_to64_rest();
    lemma_small_mod(x as nat, pow2(64));
}

/// A wrapping difference, masked with all ones, is the difference modulo
/// `2^64`.
proof fn lemma_wrapping_difference(x: u64, y: u64)
    ensures
        x.wrapping_sub(y) & u64::MAX == word(x - y),
{
    lemma_all_ones(x.wrapping_sub(y));
    lemma_word(x - y);
    if x - y < 0 {
        lemma_mod_add_multiples_vanish(x - y, 0x1_0000_0000_0000_0000);
        lemma_small_mod((x - y + 0x1_0000_0000_0000_0000) as nat, 0x1_0000_0000_0000_0000);
    }
}

/// Reducing either side of a difference modulo `2^64` does not change the
/// difference modulo `2^64`.
proof fn lemma_word_sub(i: int, j: int)
    ensures
        word(i - word(j)) == word(i - j),
        word(word(i) - j) == word(i - j),
{
    let m: int = 0x1_0000_0000_0000_0000;
    lemma_word(i);
    lemma_word(j);
    lemma_word(i - word(j));
    lemma_word(word(i) - j);
    lemma_word(i - j);
    lemma_sub_mod_noop(i, j, m);
    lemma_sub_mod_noop(i, j % m, m);
    lemma_sub_mod_noop(i % m, j, m);
    lemma_mod_twice(i, m);
    lemma_mod_twice(j, m);
}

/// Inserting into a list adds the term to its multiset.
proof fn lemma_insert_sorted_multiset(l: Seq<Term>, x: Term)
    ensures
        insert_sorted(l, x).to_multiset() == l.to_multiset().insert(x),
    decreases l.len(),
{
    broadcast use vstd::seq_lib::group_to_multiset_ensures;

    if l.len() == 0 {
        assert(seq![x] =~= Seq::<Term>::empty().push(x));
    } else {
        let rest = l.drop_first();
        assert(l =~= seq![l[0]] + rest);
        vstd::seq_lib::lemma_multiset_commutative(seq![l[0]], rest);
        assert(seq![l[0]] =~= Seq::<Term>::empty().push(l[0]));
        assert(seq![x] =~= Seq::<Term>::empty().push(x));
        if crate::order::term_order(x, l[0]) < 0 {
            vstd::seq_lib::lemma_multiset_commutative(seq![x], l);
        } else {
            lemma_insert_sorted_multiset(rest, x);
            vstd::seq_lib::lemma_multiset_commutative(seq![l[0]], insert_sorted(rest, x));
        }
        assert(insert_sorted(l, x).to_multiset() =~= l.to_multiset().insert(x));
    }
}

/// Sorting keeps the multiset of terms.
proof fn lemma_sort_terms_multiset(s: Seq<Term>)
    ensures
        sort_terms(s).to_multiset() == s.to_multiset(),
    decreases s.len(),
{
    broadcast use vstd::seq_lib::group_to_multiset_ensures;

    if s.len() > 0 {
        lemma_sort_terms_multiset(s.drop_last());
        lemma_insert_sorted_multiset(sort_terms(s.drop_last()), s.last());
        assert(s.drop_last().push(s.last()) =~= s);
    }
}

/// On all 64 bits the candidate's normal form has the sum of its terms'
/// values.
proof fn lemma_candidate_expression_value(ts: Seq<Term>, vars: Seq<u64>)
    ensures
        eval(candidate_expression(ts, u64::MAX), vars) == eval_fold(Op::Add, ts, vars),
{
    if ts.len() == 1 {
        assert(ts =~= seq![ts[0]]);
        lemma_fold_single(Op::Add, ts[0], vars);
    } else if ts.len() > 1 {
        lemma_sort_terms_multiset(ts);
        lemma_fold_permutation(Op::Add, sort_terms(ts), ts, vars);
    }
}

/// The value of the conjunction of `subset` on boolean assignment `a`: one
/// when each of its variables is set in `a`, else zero.
spec fn conjunction_bit(subset: int, a: int) -> u64 {
    if subset == 1 {
        if a == 1 || a == 3 {
            1
        } else {
            0
        }
    } else if subset == 2 {
        if a == 2 || a == 3 {
            1
        } else {
            0
        }
    } else if a == 3 {
        1
    } else {
        0
    }
}

/// The conjunctions take their bits on the boolean assignments.
proof fn lemma_conjunction_value(variables: [VarId; 2], subset: int, a: int, len: nat)
    requires
        variables[0].0 != variables[1].0,
        variables[0].0 < len,
        variables[1].0 < len,
        1 <= subset <= 3,
        0 <= a < 4,
    ensures
        eval(conjunction_spec(subset, variables), boolean_inputs(variables, a, len)) == conjunction_bit(subset, a),
{
    let ins = boolean_inputs(variables, a, len);
    if subset == 3 {
        let first = Term::Var(variables[0].0);
        let ts = seq![first, Term::Var(variables[1].0)];
        let x = ins[variables[0].0 as int];
        let y = ins[variables[1].0 as int];
        assert(ts.drop_last() =~= seq![first]);
        assert(ts.last() == Term::Var(variables[1].0));
        lemma_fold_single(Op::And, first, ins);
        assert(eval(first, ins) == x);
        assert(eval(Term::Var(variables[1].0), ins) == y);
        assert(eval_fold(Op::And, ts, ins) == crate::expr::apply(
            Op::And,
            eval_fold(Op::And, ts.drop_last(), ins),
            eval(ts.last(), ins),
        ));
        assert(eval_fold(Op::And, ts, ins) == x & y);
        lemma_apply_comm(Op::And, x, y);
        lemma2_to64();
        lemma_mask_is_mod(y, 0);
        lemma_mask_is_mod(y, 1);
        assert(mask_of(0) == 0);
        assert(mask_of(1) == 1);
    }
}

/// Adding a term with `coefficient` whose value is a bit: nothing for a
/// zero bit, the coefficient for a one bit.
proof fn lemma_push_term_value(ts: Seq<Term>, coefficient: u64, conjunction: Term, vars: Seq<u64>)
    ensures
        eval(conjunction, vars) == 0 ==> eval_fold(Op::Add, push_term(ts, coefficient, conjunction), vars)
            == eval_fold(Op::Add, ts, vars),
        eval(conjunction, vars) == 1 ==> eval_fold(Op::Add, push_term(ts, coefficient, conjunction), vars)
            == word(eval_fold(Op::Add, ts, vars) + coefficient),
{
    let f = eval_fold(Op::Add, ts, vars);
    let e = eval(conjunction, vars);
    lemma_word(f as int);
    if coefficient == 0 {
        assert(f + coefficient == f);
    } else if coefficient == 1 {
        let p = ts.push(conjunction);
        assert(p.drop_last() =~= ts);
        assert(p.last() == conjunction);
        assert(eval_fold(Op::Add, p, vars) == crate::expr::apply(Op::Add, f, e));
    } else {
        let x = Term::Scale(coefficient, Box::new(conjunction));
        let p = ts.push(x);
        assert(p.drop_last() =~= ts);
        assert(p.last() == x);
        assert(eval(x, vars) == word(coefficient * e));
        assert(eval_fold(Op::Add, p, vars) == crate::expr::apply(Op::Add, f, eval(x, vars)));
        if e == 0 {
            assert(coefficient * e == 0);
            lemma_word(0);
        } else if e == 1 {
            assert(coefficient * e == coefficient);
            lemma_word(coefficient as int);
        }
    }
}

/// The coefficients are differences of the coordinates modulo `2^64`.
proof fn lemma_mobius_coefficients(k: [u64; 4])
    ensures
        mobius(k, u64::MAX)[0] == k[0],
        mobius(k, u64::MAX)[1] == word(k[1] - k[0]),
        mobius(k, u64::MAX)[2] == word(k[2] - k[0]),
        mobius(k, u64::MAX)[3] == word(k[3] - k[2] - (k[1] - k[0])),
{
    let c = mobius(k, u64::MAX);
    lemma_wrapping_difference(k[1], k[0]);
    lemma_wrapping_difference(k[2], k[0]);
    lemma_wrapping_difference(k[3], k[2]);
    let c3a = k[3].wrapping_sub(k[2]) & u64::MAX;
    lemma_wrapping_difference(c3a, c[1]);
    lemma_word_sub(c3a as int, k[1] - k[0]);
    lemma_word_sub(k[3] - k[2], k[1] - k[0]);
}

/// Adding a difference modulo `2^64` to its subtrahend gives the minuend.
proof fn lemma_add_difference(k0: u64, k1: u64)
    ensures
        word(k0 + word(k1 - k0)) == k1,
{
    lemma_word_add(k0 as int, k1 - k0);
    assert(k0 + (k1 - k0) == k1);
    lemma_word(k1 as int);
}

/// The last coordinate from the other three and the coefficients.
proof fn lemma_add_last(k0: u64, k1: u64, k2: u64, k3: u64)
    ensures
        word(word(k1 + word(k2 - k0)) + word(k3 - k2 - (k1 - k0))) == k3,
{
    let s = k1 + k2 - k0;
    let d = k3 - k2 - (k1 - k0);
    lemma_word_add(k1 as int, k2 - k0);
    assert(k1 + (k2 - k0) == s);
    lemma_word_add(word(s) as int, d);
    lemma_word_add(s, d);
    assert(s + d == k3);
    lemma_word(k3 as int);
}

/// The coefficients invert the coordinates: adding the coefficients of
/// the conjunctions set by an assignment to the constant gives its
/// coordinate, modulo `2^64`.
proof fn lemma_mobius_sums(k: [u64; 4])
    ensures
        word(k[0] + mobius(k, u64::MAX)[1]) == k[1],
        word(k[0] + mobius(k, u64::MAX)[2]) == k[2],
        word(word(k[1] + mobius(k, u64::MAX)[2]) + mobius(k, u64::MAX)[3]) == k[3],
{
    lemma_mobius_coefficients(k);
    lemma_add_difference(k[0], k[1]);
    lemma_add_difference(k[0], k[2]);
    lemma_add_last(k[0], k[1], k[2], k[3]);
}

/// The candidate's terms add up to the coordinate of each boolean
/// assignment.
proof fn lemma_candidate_terms_value(k: [u64; 4], variables: [VarId; 2], a: int, len: nat)
    requires
        variables[0].0 != variables[1].0,
        variables[0].0 < len,
        variables[1].0 < len,
        0 <= a < 4,
    ensures
        eval_fold(Op::Add, candidate_terms(mobius(k, u64::MAX), variables), boolean_inputs(variables, a, len))
            == k[a],
{
    let c = mobius(k, u64::MAX);
    let ins = boolean_inputs(variables, a, len);
    let start = if c[0] != 0 {
        seq![Term::Const(c[0])]
    } else {
        Seq::<Term>::empty()
    };
    if c[0] != 0 {
        lemma_fold_single(Op::Add, Term::Const(c[0]), ins);
    }
    assert(eval_fold(Op::Add, start, ins) == k[0]);
    let s1 = push_term(start, c[1], conjunction_spec(1, variables));
    let s2 = push_term(s1, c[2], conjunction_spec(2, variables));
    lemma_push_term_value(start, c[1], conjunction_spec(1, variables), ins);
    lemma_push_term_value(s1, c[2], conjunction_spec(2, variables), ins);
    lemma_push_term_value(s2, c[3], conjunction_spec(3, variables), ins);
    lemma_conjunction_value(variables, 1, a, len);
    lemma_conjunction_value(variables, 2, a, len);
    lemma_conjunction_value(variables, 3, a, len);
    lemma_mobius_sums(k);
    lemma_word(k[0] as int);
    lemma_word(k[1] as int);
    lemma_word(k[2] as int);
    assert(candidate_terms(c, variables) == push_term(s2, c[3], conjunction_spec(3, variables)));
    if a == 3 {
        assert(eval_fold(Op::Add, s1, ins) == k[1]);
    }
}

/// Installing on 64 bits keeps the source's value on each boolean
/// assignment of its two variables: when the analysis finds exactly two
/// variables, the installed expression and the source agree on the inputs
/// that set each of them to 0 or 1 and every other input to 0.
pub proof fn lemma_install_keeps_boolean_values(t: Term, r: Term, a: int)
    requires
        install_outcome(t, WIDTH, r),
        0 <= a < 4,
    ensures
        match visit_spec(t, 0, empty_analysis()) {
            Ok(an) => match analysis_variables(an) {
                Some(variables) => eval(r, boolean_inputs(variables, a, max_variable(variables) + 1)) == eval(
                    t,
                    boolean_inputs(variables, a, max_variable(variables) + 1),
                ),
                None => true,
            },
            Err(_) => true,
        },
{
    if let Ok(an) = visit_spec(t, 0, empty_analysis()) {
        if let Some(variables) = analysis_variables(an) {
            let len = max_variable(variables) + 1;
            let ins = boolean_inputs(variables, a, len);
            if let Some((e, s)) = nominate_spec(t, variables, WIDTH, an) {
                let m = choose|m: Result<(), crate::factorized_section::FactorizedSectionRefusal>|
                    #[trigger] matched(t, s, variables, WIDTH, m) && if m is Ok {
                        r == prettify_spec(e, mask_of(WIDTH as nat))
                    } else {
                        r == t
                    };
                if m is Ok {
                    lemma_visit_facts(t, 0, empty_analysis());
                    assert(variables[0].0 != variables[1].0);
                    let k = coordinates_spec(t, variables, WIDTH)->Ok_0;
                    let ts = candidate_terms(mobius(k, u64::MAX), variables);
                    assert(e == candidate_expression(ts, u64::MAX));
                    lemma_prettify_preserves_value(e, WIDTH, ins);
                    lemma_all_ones(eval(r, ins));
                    lemma_all_ones(eval(e, ins));
                    lemma_all_ones(eval(t, ins));
                    lemma_candidate_expression_value(ts, ins);
                    lemma_candidate_terms_value(k, variables, a, len);
                    assert(mask_of(WIDTH as nat) == u64::MAX);
                    if a == 0 {
                        assert(k[a] == eval(t, ins) & u64::MAX);
                    } else if a == 1 {
                        assert(k[a] == eval(t, ins) & u64::MAX);
                    } else if a == 2 {
                        assert(k[a] == eval(t, ins) & u64::MAX);
                    } else {
                        assert(k[a] == eval(t, ins) & u64::MAX);
                    }
                    assert(eval(r, ins) == eval(e, ins));
                }
            }
        }
    }
}

/// Adding a term with `coefficient` adds `coefficient` times its value,
/// modulo `2^64`.
proof fn lemma_push_term_general(ts: Seq<Term>, coefficient: u64, conjunction: Term, vars: Seq<u64>)
    ensures
        eval_fold(Op::Add, push_term(ts, coefficient, conjunction), vars) == word(
            eval_fold(Op::Add, ts, vars) + coefficient * eval(conjunction, vars),
        ),
{
    let f = eval_fold(Op::Add, ts, vars);
    let e = eval(conjunction, vars);
    lemma_word(f as int);
    if coefficient == 0 {
        assert(coefficient * e == 0);
    } else if coefficient == 1 {
        let p = ts.push(conjunction);
        assert(p.drop_last() =~= ts);
        assert(p.last() == conjunction);
        assert(eval_fold(Op::Add, p, vars) == crate::expr::apply(Op::Add, f, e));
        assert(coefficient * e == e);
    } else {
        let x = Term::Scale(coefficient, Box::new(conjunction));
        let p = ts.push(x);
        assert(p.drop_last() =~= ts);
        assert(p.last() == x);
        assert(eval(x, vars) == word(coefficient * e));
        assert(eval_fold(Op::Add, p, vars) == crate::expr::apply(Op::Add, f, eval(x, vars)));
        lemma_word_add(f as int, coefficient * e);
    }
}

/// The candidate's terms add up to the constant plus each coefficient times
/// its conjunction of the two operands, modulo `2^64`.
proof fn lemma_candidate_terms_sum(c: [u64; 4], variables: [VarId; 2], ins: Seq<u64>)
    ensures
        eval_fold(Op::Add, candidate_terms(c, variables), ins) == word(
            c[0] + c[1] * var_value(ins, variables[0].0) + c[2] * var_value(ins, variables[1].0) + c[3] * (var_value(
                ins,
                variables[0].0,
            ) & var_value(ins, variables[1].0)),
        ),
{
    let x = var_value(ins, variables[0].0);
    let y = var_value(ins, variables[1].0);
    let start = if c[0] != 0 {
        seq![Term::Const(c[0])]
    } else {
        Seq::<Term>::empty()
    };
    if c[0] != 0 {
        lemma_fold_single(Op::Add, Term::Const(c[0]), ins);
    }
    assert(eval_fold(Op::Add, start, ins) == c[0]);
    let s1 = push_term(start, c[1], conjunction_spec(1, variables));
    let s2 = push_term(s1, c[2], conjunction_spec(2, variables));
    lemma_push_term_general(start, c[1], conjunction_spec(1, variables), ins);
    lemma_push_term_general(s1, c[2], conjunction_spec(2, variables), ins);
    lemma_push_term_general(s2, c[3], conjunction_spec(3, variables), ins);
    assert(eval(conjunction_spec(1, variables), ins) == x);
    assert(eval(conjunction_spec(2, variables), ins) == y);
    let first = Term::Var(variables[0].0);
    let ts = seq![first, Term::Var(variables[1].0)];
    assert(ts.drop_last() =~= seq![first]);
    assert(ts.last() == Term::Var(variables[1].0));
    lemma_fold_single(Op::And, first, ins);
    assert(eval_fold(Op::And, ts, ins) == crate::expr::apply(
        Op::And,
        eval_fold(Op::And, ts.drop_last(), ins),
        eval(ts.last(), ins),
    ));
    assert(eval(conjunction_spec(3, variables), ins) == x & y);
    assert(candidate_terms(c, variables) == push_term(s2, c[3], conjunction_spec(3, variables)));
    let a = c[0] as int;
    let p1 = c[1] * x;
    let p2 = c[2] * y;
    let p3 = c[3] * (x & y);
    lemma_word(a);
    lemma_word_add(a, p1);
    let f1 = word(a + p1);
    lemma_word_add(a + p1, p2);
    let f2 = word(a + p1 + p2);
    assert(eval_fold(Op::Add, s2, ins) == word(f1 + p2));
    lemma_word_add(a + p1 + p2, p3);
}

/// The digits of the operands, weighed by the candidate's contributions,
/// add up to its coefficients times the operands and their conjunction.
proof fn lemma_candidate_digits(e1: int, e2: int, e3: int, x: u64, y: u64, n: nat)
    requires
        n <= 64,
        -0x8000_0000_0000_0000 <= e1 < 0x8000_0000_0000_0000,
        -0x8000_0000_0000_0000 <= e2 < 0x8000_0000_0000_0000,
        -0x8000_0000_0000_0000 <= e3 < 0x8000_0000_0000_0000,
    ensures
        digit_sum([e1 as i128, e2 as i128, (e1 + e2 + e3) as i128], x, y, n) == e1 * bits_sum(x, n) + e2 * bits_sum(
            y,
            n,
        ) + e3 * bits_sum(x & y, n),
    decreases n,
{
    if n > 0 {
        let m = (n - 1) as nat;
        lemma_candidate_digits(e1, e2, e3, x, y, m);
        let eps = [e1 as i128, e2 as i128, (e1 + e2 + e3) as i128];
        lemma_bits(x, y, m as u64);
        lemma_bits(y, x, m as u64);
        let bx = bit(x, m as u64);
        let by = bit(y, m as u64);
        let bxy = bit(x & y, m as u64);
        lemma_bit_values(bx as u8, by as u8);
        assert(bxy == bx & by);
        let k = contribution(eps, symbol_at(x, y, m as u64));
        assert(k == e1 * bx + e2 * by + e3 * bxy) by {
            if bx == 0 && by == 0 {
            } else if bx == 1 && by == 0 {
            } else if bx == 0 && by == 1 {
            } else {
            }
        }
        let p = pow2(m) as int;
        assert(p * k == e1 * (p * bx) + e2 * (p * by) + e3 * (p * bxy)) by (nonlinear_arith)
            requires
                k == e1 * bx + e2 * by + e3 * bxy,
        ;
        let bsx = bits_sum(x, m);
        let bsy = bits_sum(y, m);
        let bsz = bits_sum(x & y, m);
        assert(e1 * (bsx + p * bx) + e2 * (bsy + p * by) + e3 * (bsz + p * bxy) == e1 * bsx + e2 * bsy + e3 * bsz + (
        e1 * (p * bx) + e2 * (p * by) + e3 * (p * bxy))) by (nonlinear_arith);
    }
}

/// The candidate's scalars describe its expression: the constant plus the
/// contributions of the operands' digits is, as a word, the constant plus
/// each coefficient times its conjunction.
proof fn lemma_candidate_section(c: [u64; 4], x: u64, y: u64)
    ensures
        word(candidate_scalars(c).r0 + digit_sum(scalar_epsilon(candidate_scalars(c)), x, y, 64)) == word(
            c[0] + c[1] * x + c[2] * y + c[3] * (x & y),
        ),
{
    let s = candidate_scalars(c);
    let e1 = signed_word_spec(c[1]);
    let e2 = signed_word_spec(c[2]);
    let e3 = signed_word_spec(c[3]);
    crate::one_base_sound::lemma_signed_word(c[0], 0);
    crate::one_base_sound::lemma_signed_word(c[1], 0);
    crate::one_base_sound::lemma_signed_word(c[2], 0);
    crate::one_base_sound::lemma_signed_word(c[3], 0);
    assert(scalar_epsilon(s) == [e1 as i128, e2 as i128, (e1 + e2 + e3) as i128]);
    lemma_candidate_digits(e1, e2, e3, x, y, 64);
    lemma_bits_sum(x, 64);
    lemma_bits_sum(y, 64);
    lemma_bits_sum(x & y, 64);
    vstd::arithmetic::power2::lemma2_to64_rest();
    lemma_small_mod(x as nat, pow2(64));
    lemma_small_mod(y as nat, pow2(64));
    lemma_small_mod((x & y) as nat, pow2(64));
    let m: int = 0x1_0000_0000_0000_0000;
    let d0: int = if c[0] < 0x8000_0000_0000_0000 { 0 } else { 1 };
    let d1: int = if c[1] < 0x8000_0000_0000_0000 { 0 } else { 1 };
    let d2: int = if c[2] < 0x8000_0000_0000_0000 { 0 } else { 1 };
    let d3: int = if c[3] < 0x8000_0000_0000_0000 { 0 } else { 1 };
    let z = (x & y) as int;
    let total = s.r0 + e1 * x + e2 * y + e3 * z;
    let target = c[0] + c[1] * x + c[2] * y + c[3] * z;
    assert(e1 * x == c[1] * x - m * (d1 * x)) by (nonlinear_arith)
        requires
            e1 == c[1] - d1 * m,
    ;
    assert(e2 * y == c[2] * y - m * (d2 * y)) by (nonlinear_arith)
        requires
            e2 == c[2] - d2 * m,
    ;
    assert(e3 * z == c[3] * z - m * (d3 * z)) by (nonlinear_arith)
        requires
            e3 == c[3] - d3 * m,
    ;
    assert(total == target + m * (-(d0 + d1 * x + d2 * y + d3 * z)));
    crate::one_base_sound::lemma_word_shift(target, -(d0 + d1 * x + d2 * y + d3 * z));
}

/// Assignments that agree on the listed variables give a term that uses
/// only those the same value.
pub proof fn lemma_eval_agree(t: Term, l: Seq<usize>, a: Seq<u64>, b: Seq<u64>)
    requires
        vars_in(t, l),
        forall|v: usize| l.contains(v) ==> #[trigger] var_value(a, v) == var_value(b, v),
    ensures
        eval(t, a) == eval(t, b),
    decreases size(t), 1int,
{
    match t {
        Term::Not(x) => lemma_eval_agree(*x, l, a, b),
        Term::Scale(_, x) => lemma_eval_agree(*x, l, a, b),
        Term::And(ts) => lemma_fold_agree(Op::And, ts, l, a, b),
        Term::Or(ts) => lemma_fold_agree(Op::Or, ts, l, a, b),
        Term::Xor(ts) => lemma_fold_agree(Op::Xor, ts, l, a, b),
        Term::Add(ts) => lemma_fold_agree(Op::Add, ts, l, a, b),
        Term::Mul(ts) => lemma_fold_agree(Op::Mul, ts, l, a, b),
        _ => {},
    }
}

/// Assignments that agree on the listed variables give a fold over terms
/// that use only those the same value.
proof fn lemma_fold_agree(op: Op, ts: Seq<Term>, l: Seq<usize>, a: Seq<u64>, b: Seq<u64>)
    requires
        all_vars_in(ts, l),
        forall|v: usize| l.contains(v) ==> #[trigger] var_value(a, v) == var_value(b, v),
    ensures
        eval_fold(op, ts, a) == eval_fold(op, ts, b),
    decreases sizes(ts), 2int,
{
    if ts.len() > 0 {
        let pre = ts.drop_last();
        assert(all_vars_in(pre, l)) by {
            assert forall|i: int| 0 <= i < pre.len() implies vars_in(#[trigger] pre[i], l) by {
                assert(pre[i] == ts[i]);
            }
        }
        assert(vars_in(ts.last(), l));
        assert(size(ts.last()) >= 1) by {
            match ts.last() {
                _ => {},
            }
        }
        lemma_fold_agree(op, pre, l, a, b);
        lemma_eval_agree(ts.last(), l, a, b);
    }
}

/// A candidate whose scalars describe a source that uses only the two
/// variables has, once prettified on 64 bits, the source's value under
/// every assignment.
pub proof fn lemma_installed_value_everywhere(
    c: [u64; 4],
    variables: [VarId; 2],
    t: Term,
    l: Seq<usize>,
    vars: Seq<u64>,
)
    requires
        variables[0].0 != variables[1].0,
        scalars_describe(candidate_scalars(c), t, variables),
        vars_in(t, l),
        forall|i: int| 0 <= i < l.len() ==> #[trigger] l[i] == variables[0].0 || l[i] == variables[1].0,
    ensures
        eval(
            prettify_spec(candidate_expression(candidate_terms(c, variables), u64::MAX), mask_of(WIDTH as nat)),
            vars,
        ) == eval(t, vars),
{
    let ts = candidate_terms(c, variables);
    let e = candidate_expression(ts, u64::MAX);
    let x = var_value(vars, variables[0].0);
    let y = var_value(vars, variables[1].0);
    let ins = operand_inputs(variables, x, y);
    lemma_prettify_preserves_value(e, WIDTH, vars);
    lemma_all_ones(eval(prettify_spec(e, mask_of(WIDTH as nat)), vars));
    lemma_all_ones(eval(e, vars));
    assert(mask_of(WIDTH as nat) == u64::MAX);
    lemma_candidate_expression_value(ts, vars);
    lemma_candidate_terms_sum(c, variables, vars);
    lemma_candidate_section(c, x, y);
    assert(word(candidate_scalars(c).r0 + digit_sum(scalar_epsilon(candidate_scalars(c)), x, y, 64)) == eval(t, ins));
    assert forall|v: usize| l.contains(v) implies #[trigger] var_value(vars, v) == var_value(ins, v) by {
        let i = choose|i: int| 0 <= i < l.len() && l[i] == v;
        assert(l[i] == variables[0].0 || l[i] == variables[1].0);
    }
    lemma_eval_agree(t, l, vars, ins);
}

} // verus!
