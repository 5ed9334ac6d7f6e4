//! Prettifying is cosmetic: on the working width, the prettified expression
//! has the value of the expression it was made from, under every
//! assignment.
use vstd::prelude::*;
use vstd::arithmetic::power2::{pow2, lemma_pow2_adds, lemma_pow2_pos, lemma2_to64, lemma2_to64_rest};
use vstd::arithmetic::div_mod::{
    lemma_mod_mod, lemma_mod_multiples_vanish, lemma_fundamental_div_mod, lemma_add_mod_noop,
    lemma_mul_mod_noop_general, lemma_mod_bound,
};
use vstd::bits::lemma_u64_pow2_no_overflow;
use crate::expr::{Op, Term, apply, eval, eval_fold, unit, lemma_eval_scale};
use crate::varint::{mask_of, word, lemma_mask_is_mod};
use crate::semantics::{lemma_apply_unit, lemma_fold_single, lemma_word};
use crate::product::{lemma_product_sound, mapped_product_spec, scale_term};
use crate::prettify::{
    peel_spec, minus_two, others, binary_at, binary_from, as_binary_spec, not_at, as_not_spec, map_pretty,
    prettify_spec, prettify_all,
};

verus! {

/// `a` and `b` agree on the low `k` bits.
pub open spec fn agree(a: u64, b: u64, k: nat) -> bool {
    a & mask_of(k) == b & mask_of(k)
}

/// The mask of `k <= 64` bits is `2^k - 1`, and `2^k` divides `2^64`.
proof fn lemma_mask_facts(k: nat)
    requires
        k <= 64,
    ensures
        pow2(k) > 0,
        mask_of(k) as int == pow2(k) - 1,
        pow2(k) * pow2((64 - k) as nat) == 0x1_0000_0000_0000_0000,
        pow2((64 - k) as nat) > 0,
{
    lemma_pow2_pos(k);
    lemma_pow2_pos((64 - k) as nat);
    lemma_pow2_adds(k, (64 - k) as nat);
    lemma2_to64();
    lemma2_to64_rest();
    if k < 64 {
        lemma_u64_pow2_no_overflow(k);
    }
}

/// Agreement on `k` bits is equality modulo `2^k`.
proof fn lemma_agree_mod(a: u64, b: u64, k: nat)
    requires
        k <= 64,
    ensures
        agree(a, b, k) <==> a as int % pow2(k) as int == b as int % pow2(k) as int,
{
    lemma_mask_is_mod(a, k);
    lemma_mask_is_mod(b, k);
}

/// A word is its value modulo `2^k`.
proof fn lemma_word_mod(x: int, k: nat)
    requires
        k <= 64,
    ensures
        word(x) as int % pow2(k) as int == x % pow2(k) as int,
{
    lemma_mask_facts(k);
    lemma_word(x);
    lemma_mod_mod(x, pow2(k) as int, pow2((64 - k) as nat) as int);
}

/// Agreement is an equivalence.
proof fn lemma_agree_trans(a: u64, b: u64, c: u64, k: nat)
    requires
        agree(a, b, k),
        agree(b, c, k),
    ensures
        agree(a, c, k),
{
}

/// Operators respect agreement.
proof fn lemma_apply_agree(op: Op, a: u64, b: u64, a2: u64, b2: u64, k: nat)
    requires
        k <= 64,
        agree(a, a2, k),
        agree(b, b2, k),
    ensures
        agree(apply(op, a, b), apply(op, a2, b2), k),
{
    let m = mask_of(k);
    match op {
        Op::And => {
            assert((a & b) & m == (a2 & b2) & m) by (bit_vector)
                requires
                    a & m == a2 & m,
                    b & m == b2 & m,
            ;
        },
        Op::Or => {
            assert((a | b) & m == (a2 | b2) & m) by (bit_vector)
                requires
                    a & m == a2 & m,
                    b & m == b2 & m,
            ;
        },
        Op::Xor => {
            assert((a ^ b) & m == (a2 ^ b2) & m) by (bit_vector)
                requires
                    a & m == a2 & m,
                    b & m == b2 & m,
            ;
        },
        Op::Add => {
            let p = pow2(k) as int;
            lemma_mask_facts(k);
            lemma_agree_mod(a, a2, k);
            lemma_agree_mod(b, b2, k);
            lemma_word_mod(a + b, k);
            lemma_word_mod(a2 + b2, k);
            lemma_add_mod_noop(a as int, b as int, p);
            lemma_add_mod_noop(a2 as int, b2 as int, p);
            lemma_agree_mod(word(a + b), word(a2 + b2), k);
        },
        Op::Mul => {
            let p = pow2(k) as int;
            lemma_mask_facts(k);
            lemma_agree_mod(a, a2, k);
            lemma_agree_mod(b, b2, k);
            lemma_word_mod(a * b, k);
            lemma_word_mod(a2 * b2, k);
            lemma_mul_mod_noop_general(a as int, b as int, p);
            lemma_mul_mod_noop_general(a2 as int, b2 as int, p);
            lemma_agree_mod(word(a * b), word(a2 * b2), k);
        },
    }
}

/// Complement respects agreement.
proof fn lemma_not_agree(a: u64, a2: u64, k: nat)
    requires
        agree(a, a2, k),
    ensures
        agree(!a, !a2, k),
{
    let m = mask_of(k);
    assert((!a) & m == (!a2) & m) by (bit_vector)
        requires
            a & m == a2 & m,
    ;
}

/// Folds of terms that agree pointwise agree.
proof fn lemma_fold_agree(op: Op, ts: Seq<Term>, us: Seq<Term>, vars: Seq<u64>, k: nat)
    requires
        k <= 64,
        ts.len() == us.len(),
        forall|i: int| 0 <= i < ts.len() ==> agree(eval(#[trigger] ts[i], vars), eval(us[i], vars), k),
    ensures
        agree(eval_fold(op, ts, vars), eval_fold(op, us, vars), k),
    decreases ts.len(),
{
    if ts.len() > 0 {
        let (tp, up) = (ts.drop_last(), us.drop_last());
        assert forall|i: int| 0 <= i < tp.len() implies agree(eval(#[trigger] tp[i], vars), eval(up[i], vars), k) by {
            assert(tp[i] == ts[i] && up[i] == us[i]);
        }
        lemma_fold_agree(op, tp, up, vars, k);
        assert(agree(eval(ts[ts.len() - 1], vars), eval(us[us.len() - 1], vars), k));
        lemma_apply_agree(
            op,
            eval_fold(op, tp, vars),
            eval(ts.last(), vars),
            eval_fold(op, up, vars),
            eval(us.last(), vars),
            k,
        );
    }
}

/// Peeling keeps the value.
proof fn lemma_peel_eval(t: Term, vars: Seq<u64>)
    ensures
        eval(peel_spec(t), vars) == eval(t, vars),
    decreases t,
{
    match t {
        Term::And(ts) => if ts.len() == 1 {
            lemma_peel_eval(ts[0], vars);
            assert(ts =~= seq![ts[0]]);
            lemma_fold_single(Op::And, ts[0], vars);
        },
        Term::Or(ts) => if ts.len() == 1 {
            lemma_peel_eval(ts[0], vars);
            assert(ts =~= seq![ts[0]]);
            lemma_fold_single(Op::Or, ts[0], vars);
        },
        Term::Xor(ts) => if ts.len() == 1 {
            lemma_peel_eval(ts[0], vars);
            assert(ts =~= seq![ts[0]]);
            lemma_fold_single(Op::Xor, ts[0], vars);
        },
        Term::Add(ts) => if ts.len() == 1 {
            lemma_peel_eval(ts[0], vars);
            assert(ts =~= seq![ts[0]]);
            lemma_fold_single(Op::Add, ts[0], vars);
        },
        Term::Mul(ts) => if ts.len() == 1 {
            lemma_peel_eval(ts[0], vars);
            assert(ts =~= seq![ts[0]]);
            lemma_fold_single(Op::Mul, ts[0], vars);
        },
        _ => {},
    }
}

/// A coefficient `c` with `c + d` a multiple of `m` acts as `-d`.
proof fn lemma_negated_coefficient(s: int, c: int, x: int, d: int, m: int)
    requires
        m > 0,
        (c + d) % m == 0,
    ensures
        (s + c * x) % m == (s - d * x) % m,
{
    lemma_fundamental_div_mod(c + d, m);
    let q = (c + d) / m;
    assert(c * x == m * (q * x) - d * x) by (nonlinear_arith)
        requires
            c + d == m * q,
    ;
    lemma_mod_multiples_vanish(q * x, s - d * x, m);
}

/// A folded sum of two or three words is their sum, modulo `2^k`.
proof fn lemma_sum_mod(ts: Seq<Term>, vars: Seq<u64>, k: nat)
    requires
        k <= 64,
        2 <= ts.len() <= 3,
    ensures
        ts.len() == 2 ==> eval_fold(Op::Add, ts, vars) as int % pow2(k) as int == (eval(ts[0], vars) + eval(
            ts[1],
            vars,
        )) % pow2(k) as int,
        ts.len() == 3 ==> eval_fold(Op::Add, ts, vars) as int % pow2(k) as int == (eval(ts[0], vars) + eval(
            ts[1],
            vars,
        ) + eval(ts[2], vars)) % pow2(k) as int,
{
    let p = pow2(k) as int;
    lemma_mask_facts(k);
    let e0 = eval(ts[0], vars);
    let e1 = eval(ts[1], vars);
    let t1 = ts.take(1);
    let t2 = ts.take(2);
    assert(t1.drop_last() =~= Seq::<Term>::empty());
    assert(t2.drop_last() =~= t1);
    lemma_apply_unit(Op::Add, e0);
    assert(t1.len() == 1 && t1.last() == ts[0]);
    assert(t2.len() == 2 && t2.last() == ts[1]);
    assert(eval_fold(Op::Add, t1.drop_last(), vars) == 0);
    assert(eval_fold(Op::Add, t1, vars) == e0);
    let f2 = eval_fold(Op::Add, t2, vars);
    assert(f2 == word(e0 + e1));
    lemma_word_mod(e0 + e1, k);
    if ts.len() == 2 {
        assert(t2 =~= ts);
    } else {
        let e2 = eval(ts[2], vars);
        assert(ts.drop_last() =~= t2);
        lemma_word_mod(f2 + e2, k);
        lemma_add_mod_noop(f2 as int, e2 as int, p);
        lemma_add_mod_noop(e0 + e1, e2 as int, p);
    }
}

/// The bit identities behind the three encodings.
proof fn lemma_bit_identities(a: u64, b: u64)
    ensures
        a + b == (a | b) + (a & b),
        a + b == (a ^ b) + 2 * (a & b),
        !a == 0xffff_ffff_ffff_ffffu64 - a,
{
    assert(a + b == (a | b) + (a & b)) by (bit_vector);
    assert(a + b == (a ^ b) + 2 * (a & b)) by (bit_vector);
    assert(!a == 0xffff_ffff_ffff_ffffu64 - a) by (bit_vector);
}

/// `c` equals the mask on `k` bits exactly when `c + 1` is a multiple of
/// `2^k`; it equals `-2` on `k >= 1` bits exactly when `c + 2` is.
proof fn lemma_coefficient(c: u64, k: nat)
    requires
        k <= 64,
    ensures
        c & mask_of(k) == mask_of(k) ==> (c + 1) % pow2(k) as int == 0,
        k >= 1 && c & mask_of(k) == minus_two(mask_of(k)) ==> (c + 2) % pow2(k) as int == 0,
{
    let p = pow2(k) as int;
    let m = mask_of(k);
    lemma_mask_facts(k);
    lemma_mask_is_mod(c, k);
    lemma_mod_bound(c as int, p);
    lemma_fundamental_div_mod(c as int, p);
    let q = c as int / p;
    if c & m == m {
        assert(c as int % p == p - 1);
        vstd::arithmetic::mul::lemma_mul_is_distributive_add(p, q, 1);
        assert(c + 1 == p * (q + 1));
        lemma_mod_multiples_vanish(q + 1, 0, p);
    }
    if k >= 1 {
        lemma_pow2_adds(1, (k - 1) as nat);
        assert(pow2(1) == 2) by {
            lemma2_to64();
        }
        let h = pow2((k - 1) as nat) as int;
        assert(p == 2 * h);
        assert(m & 1 == 1) by {
            lemma_mod_multiples_vanish(h - 1, 1, 2);
            assert(2 * (h - 1) + 1 == m as int);
            assert(m % 2 == 1);
            assert(m & 1 == m % 2) by (bit_vector);
        }
        assert(minus_two(m) == m - 1) by (bit_vector)
            requires
                m & 1 == 1,
        ;
        if c & m == minus_two(m) {
            assert(c as int % p == p - 2);
            vstd::arithmetic::mul::lemma_mul_is_distributive_add(p, q, 1);
            assert(c + 2 == p * (q + 1));
            lemma_mod_multiples_vanish(q + 1, 0, p);
        }
    }
}


/// Folding two terms applies the operator to their values.
proof fn lemma_fold_two(op: Op, a: Term, b: Term, vars: Seq<u64>)
    ensures
        eval_fold(op, seq![a, b], vars) == apply(op, eval(a, vars), eval(b, vars)),
{
    let s2 = seq![a, b];
    assert(s2.drop_last() =~= seq![a]);
    assert(s2.last() == b);
    lemma_fold_single(op, a, vars);
}

/// A decided conjunction candidate gives a term of the sum's value.
proof fn lemma_binary_at_sound(terms: Seq<Term>, i: int, k: nat, vars: Seq<u64>)
    requires
        k <= 64,
        terms.len() == 3,
        0 <= i < 3,
        binary_at(terms, i, mask_of(k)) matches Some(Some(_)),
    ensures
        agree(eval(binary_at(terms, i, mask_of(k))->Some_0->Some_0, vars), eval(Term::Add(terms), vars), k),
{
    let mask = mask_of(k);
    let p = pow2(k) as int;
    lemma_mask_facts(k);
    let r = binary_at(terms, i, mask)->Some_0->Some_0;
    if let Term::Scale(coeff, inner) = terms[i] {
        if let Term::And(ops) = *inner {
            let a = peel_spec(ops[0]);
            let b = peel_spec(ops[1]);
            let (j, l) = others(i);
            lemma_peel_eval(ops[0], vars);
            lemma_peel_eval(ops[1], vars);
            lemma_peel_eval(terms[j], vars);
            lemma_peel_eval(terms[l], vars);
            let av = eval(a, vars);
            let bv = eval(b, vars);
            let x = av & bv;
            assert(ops.len() == 2);
            assert(ops =~= seq![ops[0], ops[1]]);
            lemma_fold_two(Op::And, ops[0], ops[1], vars);
            assert(eval_fold(Op::And, ops, vars) == x);
            let ei = eval(terms[i], vars);
            assert(eval(*inner, vars) == x);
            assert(eval(Term::Scale(coeff, inner), vars) == word(coeff * x));
            assert(ei == word(coeff * x));
            let ej = eval(terms[j], vars);
            let el = eval(terms[l], vars);
            assert(ej + el == av + bv);
            lemma_sum_mod(terms, vars, k);
            let v = eval(Term::Add(terms), vars);
            assert(v as int % p == (av + bv + ei) % p);
            lemma_word_mod(coeff * x, k);
            lemma_add_mod_noop(av + bv, ei as int, p);
            lemma_add_mod_noop(av + bv, coeff * x, p);
            assert(v as int % p == (av + bv + coeff * x) % p);
            lemma_bit_identities(av, bv);
            lemma_coefficient(coeff, k);
            if coeff & mask == mask {
                lemma_negated_coefficient(av + bv, coeff as int, x as int, 1, p);
                assert(r == Term::Or(seq![a, b]));
                lemma_fold_two(Op::Or, a, b, vars);
                assert(eval(r, vars) == av | bv);
                lemma_agree_mod(eval(r, vars), v, k);
            } else if k == 0 {
                assert(p == 1) by {
                    vstd::arithmetic::power2::lemma2_to64();
                }
                lemma_agree_mod(eval(r, vars), v, k);
            } else {
                lemma_negated_coefficient(av + bv, coeff as int, x as int, 2, p);
                assert(r == Term::Xor(seq![a, b]));
                lemma_fold_two(Op::Xor, a, b, vars);
                assert(eval(r, vars) == av ^ bv);
                lemma_agree_mod(eval(r, vars), v, k);
            }
        }
    }
}

/// The first decided candidate gives a term of the sum's value.
proof fn lemma_binary_from_sound(terms: Seq<Term>, i: int, k: nat, vars: Seq<u64>)
    requires
        k <= 64,
        terms.len() == 3,
        0 <= i,
    ensures
        binary_from(terms, i, mask_of(k)) matches Some(r) ==> agree(eval(r, vars), eval(Term::Add(terms), vars), k),
    decreases 3 - i,
{
    if i < 3 {
        match binary_at(terms, i, mask_of(k)) {
            Some(Some(_)) => lemma_binary_at_sound(terms, i, k, vars),
            Some(None) => {},
            None => lemma_binary_from_sound(terms, i + 1, k, vars),
        }
    }
}

/// A decided constant candidate gives a term of the sum's value.
proof fn lemma_not_at_sound(terms: Seq<Term>, i: int, k: nat, vars: Seq<u64>)
    requires
        k <= 64,
        terms.len() == 2,
        0 <= i < 2,
        not_at(terms, i, mask_of(k)) is Some,
    ensures
        agree(eval(not_at(terms, i, mask_of(k))->Some_0, vars), eval(Term::Add(terms), vars), k),
{
    let mask = mask_of(k);
    let p = pow2(k) as int;
    lemma_mask_facts(k);
    let r = not_at(terms, i, mask)->Some_0;
    lemma_peel_eval(terms[i], vars);
    lemma_peel_eval(terms[1 - i], vars);
    if let Term::Const(c) = peel_spec(terms[i]) {
        if let Term::Scale(coeff, inner) = peel_spec(terms[1 - i]) {
            lemma_peel_eval(*inner, vars);
            let xv = eval(*inner, vars);
            let v = eval(Term::Add(terms), vars);
            lemma_sum_mod(terms, vars, k);
            assert(eval(terms[i], vars) == c);
            assert(eval(terms[1 - i], vars) == word(coeff * xv));
            assert(v as int % p == (c + word(coeff * xv)) % p);
            lemma_word_mod(coeff * xv, k);
            lemma_add_mod_noop(c as int, word(coeff * xv) as int, p);
            lemma_add_mod_noop(c as int, coeff * xv, p);
            lemma_coefficient(coeff, k);
            lemma_coefficient(c, k);
            lemma_negated_coefficient(c as int, coeff as int, xv as int, 1, p);
            lemma_negated_coefficient(-xv, c as int, 1, 1, p);
            assert(v as int % p == (-1 - xv) % p);
            lemma_bit_identities(xv, xv);
            assert(eval(r, vars) == !xv);
            lemma_mod_multiples_vanish(pow2((64 - k) as nat) as int, -1 - xv, p);
            assert((!xv) as int == p * pow2((64 - k) as nat) + (-1 - xv));
            lemma_agree_mod(eval(r, vars), v, k);
        }
    }
}

/// Folding an encoding back keeps the value on the working width.
proof fn lemma_fold_back_sound(m: Term, k: nat, vars: Seq<u64>)
    requires
        k <= 64,
    ensures
        as_binary_spec(m, mask_of(k)) matches Some(r) ==> agree(eval(r, vars), eval(m, vars), k),
        as_not_spec(m, mask_of(k)) matches Some(r) ==> agree(eval(r, vars), eval(m, vars), k),
{
    if let Term::Add(terms) = m {
        if terms.len() == 3 {
            lemma_binary_from_sound(terms, 0, k, vars);
        }
        if terms.len() == 2 {
            if not_at(terms, 0, mask_of(k)) is Some {
                lemma_not_at_sound(terms, 0, k, vars);
            } else if not_at(terms, 1, mask_of(k)) is Some {
                lemma_not_at_sound(terms, 1, k, vars);
            }
        }
    }
}

/// Prettifying keeps the value on the working width.
proof fn lemma_prettify_sound(t: Term, k: nat, vars: Seq<u64>)
    requires
        k <= 64,
    ensures
        agree(eval(prettify_spec(t, mask_of(k)), vars), eval(t, vars), k),
    decreases t, 1int,
{
    let m = map_pretty(t, mask_of(k));
    lemma_map_pretty_sound(t, k, vars);
    lemma_fold_back_sound(m, k, vars);
}

/// Prettifying the operands keeps the value on the working width.
proof fn lemma_map_pretty_sound(t: Term, k: nat, vars: Seq<u64>)
    requires
        k <= 64,
    ensures
        agree(eval(map_pretty(t, mask_of(k)), vars), eval(t, vars), k),
    decreases t, 0int,
{
    let mask = mask_of(k);
    match t {
        Term::Var(_) => {},
        Term::Const(_) => {},
        Term::Not(x) => {
            lemma_prettify_sound(*x, k, vars);
            lemma_not_agree(eval(prettify_spec(*x, mask), vars), eval(*x, vars), k);
        },
        Term::Scale(v, x) => {
            let px = prettify_spec(*x, mask);
            lemma_prettify_sound(*x, k, vars);
            lemma_eval_scale(v, px, vars);
            assert(eval(scale_term(v, px), vars) == word(v * eval(px, vars)));
            lemma_apply_agree(Op::Mul, v, eval(px, vars), v, eval(*x, vars), k);
        },
        Term::And(ts) => {
            lemma_prettify_all_sound(ts, k, vars);
            lemma_fold_agree(Op::And, prettify_all(ts, mask), ts, vars, k);
        },
        Term::Or(ts) => {
            lemma_prettify_all_sound(ts, k, vars);
            lemma_fold_agree(Op::Or, prettify_all(ts, mask), ts, vars, k);
        },
        Term::Xor(ts) => {
            lemma_prettify_all_sound(ts, k, vars);
            lemma_fold_agree(Op::Xor, prettify_all(ts, mask), ts, vars, k);
        },
        Term::Add(ts) => {
            lemma_prettify_all_sound(ts, k, vars);
            lemma_fold_agree(Op::Add, prettify_all(ts, mask), ts, vars, k);
        },
        Term::Mul(ts) => {
            let ps = prettify_all(ts, mask);
            lemma_prettify_all_sound(ts, k, vars);
            lemma_fold_agree(Op::Mul, ps, ts, vars, k);
            lemma_product_sound(ps, vars);
            assert(eval(mapped_product_spec(ps), vars) == eval(Term::Mul(ps), vars));
        },
    }
}

/// Prettifying every operand keeps each value on the working width.
proof fn lemma_prettify_all_sound(ts: Seq<Term>, k: nat, vars: Seq<u64>)
    requires
        k <= 64,
    ensures
        prettify_all(ts, mask_of(k)).len() == ts.len(),
        forall|i: int|
            0 <= i < ts.len() ==> agree(eval(#[trigger] prettify_all(ts, mask_of(k))[i], vars), eval(ts[i], vars), k),
    decreases ts, 2int,
{
    if ts.len() > 0 {
        let mask = mask_of(k);
        lemma_prettify_all_sound(ts.drop_last(), k, vars);
        lemma_prettify_sound(ts.last(), k, vars);
        let pa = prettify_all(ts, mask);
        let pp = prettify_all(ts.drop_last(), mask);
        assert forall|i: int| 0 <= i < ts.len() implies agree(eval(#[trigger] pa[i], vars), eval(ts[i], vars), k) by {
            if i < ts.len() - 1 {
                assert(pa[i] == pp[i]);
                assert(ts.drop_last()[i] == ts[i]);
            } else {
                assert(pa[i] == prettify_spec(ts.last(), mask));
            }
        }
    }
}

/// Prettifying on `n` bits is cosmetic: under every assignment, the low `n`
/// bits of the prettified expression's value are those of the original's.
pub proof fn lemma_prettify_preserves_value(t: Term, n: u8, vars: Seq<u64>)
    ensures
        agree(eval(prettify_spec(t, mask_of(n as nat)), vars), eval(t, vars), n as nat),
{
    let k: nat = if n > 64 {
        64
    } else {
        n as nat
    };
    assert(mask_of(n as nat) == mask_of(k));
    lemma_prettify_sound(t, k, vars);
}

} // verus!
