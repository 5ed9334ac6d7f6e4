//! Algebraic facts about the value of expressions: the n-ary operators are
//! associative and commutative, so a fold depends only on the multiset of
//! operand values.
use vstd::prelude::*;
use vstd::arithmetic::div_mod::*;
use vstd::arithmetic::mul::*;
use crate::varint::word;
use crate::expr::{Op, Term, apply, unit, eval, eval_fold};

verus! {

/// `word(x)` is `x` reduced modulo `2^64`.
pub proof fn lemma_word(x: int)
    ensures
        word(x) as int == x % 0x1_0000_0000_0000_0000,
        0 <= x < 0x1_0000_0000_0000_0000 ==> word(x) == x,
{
    lemma_mod_bound(x, 0x1_0000_0000_0000_0000);
    if 0 <= x < 0x1_0000_0000_0000_0000 {
        lemma_small_mod(x as nat, 0x1_0000_0000_0000_0000);
    }
}

/// Reducing a factor modulo `2^64` does not change a product modulo `2^64`.
pub proof fn lemma_word_mul(i: int, j: int)
    ensures
        word(word(i) * j) == word(i * j),
        word(i * word(j)) == word(i * j),
{
    let m: int = 0x1_0000_0000_0000_0000;
    lemma_word(i);
    lemma_word(j);
    lemma_word(word(i) * j);
    lemma_word(i * word(j));
    lemma_word(i * j);
    lemma_mul_mod_noop_general(i, j, m);
}

/// Reducing a term modulo `2^64` does not change a sum modulo `2^64`.
pub proof fn lemma_word_add(i: int, j: int)
    ensures
        word(word(i) + j) == word(i + j),
        word(i + word(j)) == word(i + j),
{
    let m: int = 0x1_0000_0000_0000_0000;
    lemma_word(i);
    lemma_word(j);
    lemma_word(word(i) + j);
    lemma_word(i + word(j));
    lemma_word(i + j);
    lemma_add_mod_noop(i, j, m);
    lemma_mod_twice(i, m);
    lemma_mod_twice(j, m);
    lemma_add_mod_noop(i % m, j, m);
    lemma_add_mod_noop(i, j % m, m);
}

/// `apply` is associative.
pub proof fn lemma_apply_assoc(op: Op, a: u64, b: u64, c: u64)
    ensures
        apply(op, apply(op, a, b), c) == apply(op, a, apply(op, b, c)),
{
    let m: int = 0x1_0000_0000_0000_0000;
    match op {
        Op::And => {
            assert((a & b) & c == a & (b & c)) by (bit_vector);
        },
        Op::Or => {
            assert((a | b) | c == a | (b | c)) by (bit_vector);
        },
        Op::Xor => {
            assert((a ^ b) ^ c == a ^ (b ^ c)) by (bit_vector);
        },
        Op::Add => {
            lemma_word(a + b);
            lemma_word(b + c);
            lemma_word(word(a + b) + c);
            lemma_word(a + word(b + c));
            lemma_add_mod_noop(a + b, c as int, m);
            lemma_add_mod_noop(a as int, b + c, m);
            lemma_small_mod(c as nat, m as nat);
            lemma_small_mod(a as nat, m as nat);
            lemma_mod_twice(a + b, m);
            lemma_mod_twice(b + c, m);
            assert((a + b) + c == a + (b + c));
        },
        Op::Mul => {
            lemma_word(a * b);
            lemma_word(b * c);
            lemma_word(word(a * b) * c);
            lemma_word(a * word(b * c));
            lemma_mul_mod_noop_general(a * b, c as int, m);
            lemma_mul_mod_noop_general(a as int, b * c, m);
            lemma_mul_is_associative(a as int, b as int, c as int);
        },
    }
}

/// `apply` is commutative.
pub proof fn lemma_apply_comm(op: Op, a: u64, b: u64)
    ensures
        apply(op, a, b) == apply(op, b, a),
{
    match op {
        Op::And => {
            assert(a & b == b & a) by (bit_vector);
        },
        Op::Or => {
            assert(a | b == b | a) by (bit_vector);
        },
        Op::Xor => {
            assert(a ^ b == b ^ a) by (bit_vector);
        },
        Op::Add => {},
        Op::Mul => {
            lemma_mul_is_commutative(a as int, b as int);
        },
    }
}

/// The unit of `op` is neutral.
pub proof fn lemma_apply_unit(op: Op, a: u64)
    ensures
        apply(op, unit(op), a) == a,
        apply(op, a, unit(op)) == a,
{
    match op {
        Op::And => {
            assert(0xffff_ffff_ffff_ffffu64 & a == a) by (bit_vector);
            assert(a & 0xffff_ffff_ffff_ffffu64 == a) by (bit_vector);
        },
        Op::Or => {
            assert(0u64 | a == a) by (bit_vector);
            assert(a | 0u64 == a) by (bit_vector);
        },
        Op::Xor => {
            assert(0u64 ^ a == a) by (bit_vector);
            assert(a ^ 0u64 == a) by (bit_vector);
        },
        Op::Add => {
            lemma_word(a as int);
        },
        Op::Mul => {
            lemma_word(a as int);
        },
    }
}

/// Folding a concatenation folds each part.
pub proof fn lemma_fold_concat(op: Op, s: Seq<Term>, t: Seq<Term>, vars: Seq<u64>)
    ensures
        eval_fold(op, s + t, vars) == apply(op, eval_fold(op, s, vars), eval_fold(op, t, vars)),
    decreases t.len(),
{
    if t.len() == 0 {
        assert(s + t =~= s);
        lemma_apply_unit(op, eval_fold(op, s, vars));
    } else {
        assert((s + t).drop_last() =~= s + t.drop_last());
        assert((s + t).last() == t.last());
        lemma_fold_concat(op, s, t.drop_last(), vars);
        lemma_apply_assoc(
            op,
            eval_fold(op, s, vars),
            eval_fold(op, t.drop_last(), vars),
            eval(t.last(), vars),
        );
    }
}

/// Folding a single term gives its value.
pub proof fn lemma_fold_single(op: Op, x: Term, vars: Seq<u64>)
    ensures
        eval_fold(op, seq![x], vars) == eval(x, vars),
{
    let s = seq![x];
    assert(s.drop_last() =~= Seq::<Term>::empty());
    assert(s.last() == x);
    assert(eval_fold(op, s.drop_last(), vars) == unit(op));
    assert(eval_fold(op, s, vars) == apply(op, eval_fold(op, s.drop_last(), vars), eval(s.last(), vars)));
    lemma_apply_unit(op, eval(x, vars));
}

/// Removing the term at `i` and applying it afterwards leaves the fold.
pub proof fn lemma_fold_remove(op: Op, s: Seq<Term>, i: int, vars: Seq<u64>)
    requires
        0 <= i < s.len(),
    ensures
        eval_fold(op, s, vars) == apply(op, eval_fold(op, s.remove(i), vars), eval(s[i], vars)),
{
    let a = s.subrange(0, i);
    let b = s.subrange(i + 1, s.len() as int);
    assert(s =~= a + seq![s[i]] + b);
    assert(s.remove(i) =~= a + b);
    lemma_fold_concat(op, a + seq![s[i]], b, vars);
    lemma_fold_concat(op, a, seq![s[i]], vars);
    lemma_fold_concat(op, a, b, vars);
    lemma_fold_single(op, s[i], vars);
    let fa = eval_fold(op, a, vars);
    let fb = eval_fold(op, b, vars);
    let x = eval(s[i], vars);
    lemma_apply_assoc(op, fa, x, fb);
    lemma_apply_comm(op, x, fb);
    lemma_apply_assoc(op, fa, fb, x);
}

/// A fold depends only on the multiset of its terms.
pub proof fn lemma_fold_permutation(op: Op, s: Seq<Term>, t: Seq<Term>, vars: Seq<u64>)
    requires
        s.to_multiset() == t.to_multiset(),
    ensures
        eval_fold(op, s, vars) == eval_fold(op, t, vars),
    decreases s.len(),
{
    broadcast use vstd::seq_lib::group_to_multiset_ensures;

    if s.len() == 0 {
        assert(t.to_multiset().len() == 0);
        assert(t.len() == 0);
    } else {
        let x = s.last();
        assert(s.to_multiset().count(x) > 0) by {
            assert(s.drop_last().push(x) =~= s);
        }
        assert(t.contains(x));
        let j = t.index_of(x);
        assert(s.drop_last().push(x) =~= s);
        assert(t.remove(j).to_multiset() == t.to_multiset().remove(x));
        assert(s.drop_last().to_multiset() == s.to_multiset().remove(x));
        lemma_fold_permutation(op, s.drop_last(), t.remove(j), vars);
        lemma_fold_remove(op, t, j, vars);
    }
}

} // verus!
