//! What a one-base description means, and the proof that the direct
//! compiler's descriptions are right: bit `i` of the two inputs picks the
//! symbol of digit `i`, a stationary table gives each bit of the value from
//! its symbol, and an exact description `(r0, epsilon)` gives the value as
//! `r0` plus the contributions of the symbols, digit `i` weighing `2^i`,
//! modulo `2^64`.
use vstd::prelude::*;
use vstd::arithmetic::power2::{pow2, lemma_pow2_adds, lemma2_to64, lemma2_to64_rest, lemma_pow2_pos};
use vstd::arithmetic::div_mod::{
    lemma_fundamental_div_mod, lemma_mod_breakdown, lemma_mod_multiples_vanish, lemma_small_mod,
};
use vstd::arithmetic::mul::{
    lemma_mul_is_associative, lemma_mul_is_commutative, lemma_mul_is_distributive_add,
    lemma_mul_is_distributive_sub,
};
use vstd::bits::lemma_u64_shr_is_div;
use crate::varint::word;
use crate::semantics::{lemma_word, lemma_word_add, lemma_word_mul};
use crate::expr::{Op, Term, eval, eval_fold, var_value};
use crate::factorized_section::{BitwiseOperation, OneBaseKey, OneBasePartial, fold_bits, signed_word_spec};
use crate::one_base::{
    add_spec, bit_op, bitwise_spec, direct_spec, key_add, key_not, key_scale, not_table, op_table, partial_key, table_key,
    unit_table, var_table,
};

verus! {

/// Bit `i` of `v`.
pub open spec fn bit(v: u64, i: u64) -> u64 {
    (v >> i) & 1
}

/// The symbol digit `i` of the inputs `x` and `y` reads.
pub open spec fn symbol_at(x: u64, y: u64, i: u64) -> int {
    bit(x, i) + 2 * bit(y, i)
}

/// The contribution of symbol `s` (symbol 0 contributes nothing).
pub open spec fn contribution(epsilon: [i128; 3], s: int) -> int {
    if s == 0 {
        0
    } else {
        epsilon[s - 1] as int
    }
}

/// The contributions of the symbols of the first `n` digits, digit `i`
/// weighing `2^i`.
pub open spec fn digit_sum(epsilon: [i128; 3], x: u64, y: u64, n: nat) -> int
    decreases n,
{
    if n == 0 {
        0
    } else {
        digit_sum(epsilon, x, y, (n - 1) as nat) + pow2((n - 1) as nat) * contribution(
            epsilon,
            symbol_at(x, y, (n - 1) as u64),
        )
    }
}

/// The assignment giving variable `v0` the value `x` and `v1` the value `y`.
pub open spec fn inputs(v0: usize, v1: usize, x: u64, y: u64) -> Seq<u64> {
    Seq::new(
        ((if v0 < v1 { v1 } else { v0 }) + 1) as nat,
        |k: int|
            if k == v0 {
                x
            } else if k == v1 {
                y
            } else {
                0u64
            },
    )
}

/// `p` holds of the word `value` at the inputs `x` and `y`: a stationary
/// table of bits gives each bit of `value` from its symbol, and an exact
/// description gives `value` itself.
pub open spec fn holds(p: OneBasePartial, value: u64, x: u64, y: u64) -> bool {
    match p {
        OneBasePartial::Stationary(tab) => (forall|k: int| 0 <= k < 4 ==> #[trigger] tab[k] <= 1) && forall|i: u64|
            i < 64 ==> #[trigger] bit(value, i) == tab[symbol_at(x, y, i)] as u64,
        OneBasePartial::Exact { r0, epsilon } => value == word(r0 + digit_sum(epsilon, x, y, 64)),
        OneBasePartial::Unknown => true,
    }
}

/// The operator of the expression tree a bitwise operation stands for.
pub open spec fn op_of(op: BitwiseOperation) -> Op {
    match op {
        BitwiseOperation::And => Op::And,
        BitwiseOperation::Or => Op::Or,
        BitwiseOperation::Xor => Op::Xor,
    }
}

/// Facts of single bits.
pub proof fn lemma_bits(a: u64, b: u64, i: u64)
    by (bit_vector)
    requires
        i < 64,
    ensures
        (0u64 >> i) & 1 == 0,
        (0xffff_ffff_ffff_ffffu64 >> i) & 1 == 1,
        ((!a) >> i) & 1 == ((a >> i) & 1) ^ 1,
        ((a & b) >> i) & 1 == ((a >> i) & 1) & ((b >> i) & 1),
        ((a | b) >> i) & 1 == ((a >> i) & 1) | ((b >> i) & 1),
        ((a ^ b) >> i) & 1 == ((a >> i) & 1) ^ ((b >> i) & 1),
        (a >> i) & 1 <= 1,
        !a == 0xffff_ffff_ffff_ffffu64 - a,
        (a >> i) & 1 == (a >> i) % 2,
{
}

/// Operations on table bits agree with those on word bits.
proof fn lemma_table_bits(p: u8, q: u8)
    by (bit_vector)
    requires
        p <= 1,
        q <= 1,
    ensures
        ((1u8 & p) & q) as u64 == (p as u64) & (q as u64),
        ((0u8 | p) | q) as u64 == (p as u64) | (q as u64),
        ((0u8 ^ p) ^ q) as u64 == (p as u64) ^ (q as u64),
        (p ^ 1u8) as u64 == (p as u64) ^ 1u64,
        (p ^ 1u8) <= 1,
        ((1u8 & p) & q) <= 1,
        ((0u8 | p) | q) <= 1,
        ((0u8 ^ p) ^ q) <= 1,
{
}

/// `op` on two table bits, on word bits.
proof fn lemma_fold_two(op: BitwiseOperation, p: u8, q: u8)
    requires
        p <= 1,
        q <= 1,
    ensures
        fold_bits(op, seq![p, q]) <= 1,
        fold_bits(op, seq![p, q]) as u64 == match op {
            BitwiseOperation::And => (p as u64) & (q as u64),
            BitwiseOperation::Or => (p as u64) | (q as u64),
            BitwiseOperation::Xor => (p as u64) ^ (q as u64),
        },
{
    let s2 = seq![p, q];
    let s1 = seq![p];
    assert(s2.drop_last() =~= s1);
    assert(s2.last() == q);
    assert(s1.drop_last() =~= Seq::<u8>::empty());
    assert(s1.last() == p);
    assert(fold_bits(op, Seq::<u8>::empty()) == match op {
        BitwiseOperation::And => 1u8,
        _ => 0u8,
    });
    assert(fold_bits(op, s1) == match op {
        BitwiseOperation::And => 1u8 & p,
        BitwiseOperation::Or => 0u8 | p,
        BitwiseOperation::Xor => 0u8 ^ p,
    });
    assert(fold_bits(op, s2) == match op {
        BitwiseOperation::And => (1u8 & p) & q,
        BitwiseOperation::Or => (0u8 | p) | q,
        BitwiseOperation::Xor => (0u8 ^ p) ^ q,
    });
    lemma_table_bits(p, q);
}

/// `op` on two table bits, as numbers.
pub proof fn lemma_fold_bits_values(op: BitwiseOperation)
    ensures
        forall|p: u8, q: u8|
            p <= 1 && q <= 1 ==> #[trigger] bit_op(op, p, q) == match op {
                BitwiseOperation::And => if p == 1 && q == 1 {
                    1u8
                } else {
                    0u8
                },
                BitwiseOperation::Or => if p == 1 || q == 1 {
                    1u8
                } else {
                    0u8
                },
                BitwiseOperation::Xor => if p != q {
                    1u8
                } else {
                    0u8
                },
            },
        forall|p: u8| p <= 1 ==> #[trigger] (p ^ 1u8) == 1 - p,
{
    assert forall|p: u8, q: u8| p <= 1 && q <= 1 implies #[trigger] bit_op(op, p, q) == match op {
        BitwiseOperation::And => if p == 1 && q == 1 {
            1u8
        } else {
            0u8
        },
        BitwiseOperation::Or => if p == 1 || q == 1 {
            1u8
        } else {
            0u8
        },
        BitwiseOperation::Xor => if p != q {
            1u8
        } else {
            0u8
        },
    } by {
        lemma_fold_two(op, p, q);
        lemma_bit_values(p, q);
    }
    assert forall|p: u8| p <= 1 implies #[trigger] (p ^ 1u8) == 1 - p by {
        lemma_bit_values(p, p);
    }
}

/// Operations on bits, as numbers.
pub proof fn lemma_bit_values(p: u8, q: u8)
    by (bit_vector)
    requires
        p <= 1,
        q <= 1,
    ensures
        (p as u64) & (q as u64) == if p == 1 && q == 1 {
            1u64
        } else {
            0u64
        },
        (p as u64) | (q as u64) == if p == 1 || q == 1 {
            1u64
        } else {
            0u64
        },
        (p as u64) ^ (q as u64) == if p != q {
            1u64
        } else {
            0u64
        },
        p ^ 1u8 == 1 - p,
        p & q == if p == 1 && q == 1 {
            1u8
        } else {
            0u8
        },
        p | q == if p == 1 || q == 1 {
            1u8
        } else {
            0u8
        },
        p ^ q == if p != q {
            1u8
        } else {
            0u8
        },
{
}

/// The symbol of a digit is one of the four.
pub proof fn lemma_symbol_range(x: u64, y: u64, i: u64)
    requires
        i < 64,
    ensures
        0 <= symbol_at(x, y, i) < 4,
{
    lemma_bits(x, y, i);
    lemma_bits(y, x, i);
}

/// Reading the four entries of the tables this module builds.
proof fn lemma_tables(op: BitwiseOperation, a: [u8; 4], b: [u8; 4], s: int)
    requires
        0 <= s < 4,
    ensures
        op_table(op, a, b)[s] == fold_bits(op, seq![a[s], b[s]]),
        not_table(a)[s] == a[s] ^ 1u8,
        unit_table(op)[s] == (match op {
            BitwiseOperation::And => 1u8,
            _ => 0u8,
        }),
        var_table(0)[s] as int == s % 2,
        var_table(1)[s] as int == s / 2,
{
    if s == 0 {
    } else if s == 1 {
    } else if s == 2 {
    } else {
    }
}

/// The bits of the first `n` digits of `v`, digit `i` weighing `2^i`.
pub open spec fn bits_sum(v: u64, n: nat) -> int
    decreases n,
{
    if n == 0 {
        0
    } else {
        bits_sum(v, (n - 1) as nat) + pow2((n - 1) as nat) * bit(v, (n - 1) as u64)
    }
}

/// A word is the sum of its bits.
pub proof fn lemma_bits_sum(v: u64, n: nat)
    requires
        n <= 64,
    ensures
        v as int % pow2(n) as int == bits_sum(v, n),
    decreases n,
{
    lemma_pow2_pos(n);
    if n == 0 {
        assert(pow2(0) == 1) by {
            lemma2_to64();
        }
    } else {
        let m = (n - 1) as nat;
        lemma_bits_sum(v, m);
        lemma_pow2_pos(m);
        lemma_pow2_adds(m, 1);
        lemma2_to64();
        lemma_mod_breakdown(v as int, pow2(m) as int, 2);
        lemma_u64_shr_is_div(v, m as u64);
        lemma_bits(v, v, m as u64);
        assert(bit(v, m as u64) == (v as nat / pow2(m)) % 2);
    }
}

/// The entries of a table read as the bits of a sum.
pub open spec fn table_sum(tab: [u8; 4], x: u64, y: u64, n: nat) -> int
    decreases n,
{
    if n == 0 {
        0
    } else {
        table_sum(tab, x, y, (n - 1) as nat) + pow2((n - 1) as nat) * tab[symbol_at(x, y, (n - 1) as u64)]
    }
}

/// A word whose bits a table gives is the table's sum.
proof fn lemma_bits_table(v: u64, tab: [u8; 4], x: u64, y: u64, n: nat)
    requires
        n <= 64,
        forall|i: u64| i < 64 ==> #[trigger] bit(v, i) == tab[symbol_at(x, y, i)] as u64,
    ensures
        bits_sum(v, n) == table_sum(tab, x, y, n),
    decreases n,
{
    if n > 0 {
        lemma_bits_table(v, tab, x, y, (n - 1) as nat);
        assert(bit(v, (n - 1) as u64) == tab[symbol_at(x, y, (n - 1) as u64)] as u64);
    }
}

/// The sum of the powers `2^i` below `n`.
proof fn lemma_digit_sum_table(tab: [u8; 4], x: u64, y: u64, n: nat)
    requires
        n <= 64,
        forall|k: int| 0 <= k < 4 ==> #[trigger] tab[k] <= 1,
    ensures
        digit_sum(table_key(tab).1, x, y, n) == table_sum(tab, x, y, n) - tab[0] * (pow2(n) - 1),
    decreases n,
{
    if n == 0 {
        lemma2_to64();
        assert(pow2(n) == 1);
        assert(tab[0] * (pow2(n) - 1) == 0) by (nonlinear_arith)
            requires
                pow2(n) == 1,
        ;
    } else {
        let m = (n - 1) as nat;
        lemma_digit_sum_table(tab, x, y, m);
        lemma_symbol_range(x, y, m as u64);
        let s = symbol_at(x, y, m as u64);
        let k = table_key(tab).1;
        assert(contribution(k, s) == tab[s] - tab[0]) by {
            if s == 1 {
            } else if s == 2 {
            } else if s == 3 {
            }
        }
        let p = pow2(m) as int;
        let t0 = tab[0] as int;
        lemma_pow2_adds(m, 1);
        lemma2_to64();
        assert(pow2(n) as int == p + p);
        lemma_mul_is_distributive_sub(p, tab[s] as int, t0);
        lemma_mul_is_distributive_sub(t0, p, 1);
        lemma_mul_is_distributive_sub(t0, p + p, 1);
        lemma_mul_is_distributive_add(t0, p, p);
        lemma_mul_is_commutative(t0, p);
        assert(digit_sum(k, x, y, n) == digit_sum(k, x, y, m) + p * (tab[s] - t0));
        assert(table_sum(tab, x, y, n) == table_sum(tab, x, y, m) + p * tab[s]);
        let dm = digit_sum(k, x, y, m);
        let tm = table_sum(tab, x, y, m);
        let ts = tab[s] as int;
        assert(dm + p * (ts - t0) == (tm + p * ts) - t0 * ((p + p) - 1)) by (nonlinear_arith)
            requires
                dm == tm - t0 * (p - 1),
        ;
        assert(tab[0] * (pow2(n) - 1) == t0 * ((p + p) - 1)) by (nonlinear_arith)
            requires
                pow2(n) == p + p,
                t0 == tab[0],
        ;
    }
}

/// Adding multiples of `2^64` does not change a word.
pub proof fn lemma_word_shift(a: int, k: int)
    ensures
        word(a + 0x1_0000_0000_0000_0000 * k) == word(a),
{
    lemma_mod_multiples_vanish(k, a, 0x1_0000_0000_0000_0000);
}

/// A stationary table as an exact description.
pub proof fn lemma_stationary_exact(v: u64, tab: [u8; 4], x: u64, y: u64)
    requires
        forall|k: int| 0 <= k < 4 ==> #[trigger] tab[k] <= 1,
        forall|i: u64| i < 64 ==> #[trigger] bit(v, i) == tab[symbol_at(x, y, i)] as u64,
    ensures
        v == word(table_key(tab).0 + digit_sum(table_key(tab).1, x, y, 64)),
{
    lemma_bits_sum(v, 64);
    lemma_bits_table(v, tab, x, y, 64);
    lemma_digit_sum_table(tab, x, y, 64);
    lemma2_to64();
    lemma2_to64_rest();
    lemma_small_mod(v as nat, pow2(64));
    assert(table_key(tab).0 + digit_sum(table_key(tab).1, x, y, 64) == v as int + 0x1_0000_0000_0000_0000 * (
    -(tab[0] as int)));
    lemma_word_shift(v as int, -(tab[0] as int));
    lemma_word(v as int);
}

/// Contributions that add up give digit sums that add up.
proof fn lemma_digit_sum_add(e1: [i128; 3], e2: [i128; 3], e3: [i128; 3], x: u64, y: u64, n: nat)
    requires
        n <= 64,
        forall|s: int| 0 <= s < 4 ==> #[trigger] contribution(e3, s) == contribution(e1, s) + contribution(e2, s),
    ensures
        digit_sum(e3, x, y, n) == digit_sum(e1, x, y, n) + digit_sum(e2, x, y, n),
    decreases n,
{
    if n > 0 {
        let m = (n - 1) as nat;
        lemma_digit_sum_add(e1, e2, e3, x, y, m);
        lemma_symbol_range(x, y, m as u64);
        let s = symbol_at(x, y, m as u64);
        assert(contribution(e3, s) == contribution(e1, s) + contribution(e2, s));
        lemma_mul_is_distributive_add(pow2(m) as int, contribution(e1, s), contribution(e2, s));
    }
}

/// Contributions scaled by `c` give a digit sum scaled by `c`.
proof fn lemma_digit_sum_scale(e1: [i128; 3], e2: [i128; 3], c: int, x: u64, y: u64, n: nat)
    requires
        n <= 64,
        forall|s: int| 0 <= s < 4 ==> #[trigger] contribution(e2, s) == c * contribution(e1, s),
    ensures
        digit_sum(e2, x, y, n) == c * digit_sum(e1, x, y, n),
    decreases n,
{
    if n > 0 {
        let m = (n - 1) as nat;
        lemma_digit_sum_scale(e1, e2, c, x, y, m);
        lemma_symbol_range(x, y, m as u64);
        let s = symbol_at(x, y, m as u64);
        assert(contribution(e2, s) == c * contribution(e1, s));
        let p = pow2(m) as int;
        let a = contribution(e1, s);
        lemma_mul_is_associative(p, c, a);
        lemma_mul_is_commutative(p, c);
        lemma_mul_is_associative(c, p, a);
        lemma_mul_is_distributive_add(c, digit_sum(e1, x, y, m), p * a);
    }
}

/// The complement of a word is `2^64 - 1` minus it.
pub proof fn lemma_word_not(k: int)
    ensures
        word(-1 - k) == 0xffff_ffff_ffff_ffffu64 - word(k),
{
    let m: int = 0x1_0000_0000_0000_0000;
    lemma_word(k);
    lemma_fundamental_div_mod(k, m);
    let q = k / m;
    let w = k % m;
    assert(-1 - k == m * (-q - 1) + (m - 1 - w)) by {
        lemma_mul_is_distributive_sub(m, -q, 1);
    }
    lemma_mod_multiples_vanish(-q - 1, m - 1 - w, m);
    lemma_small_mod((m - 1 - w) as nat, m as nat);
    lemma_word(-1 - k);
}

/// A word read as signed is the same word.
pub proof fn lemma_signed_word(c: u64, a: int)
    ensures
        word(signed_word_spec(c) + a) == word(c + a),
        signed_word_spec(c) == c - (if c < 0x8000_0000_0000_0000 { 0int } else { 0x1_0000_0000_0000_0000int }),
{
    if c >= 0x8000_0000_0000_0000 {
        lemma_word_shift(c + a, -1);
    }
}

/// The descriptions the direct compiler makes of `t` hold of `t`'s value at
/// every pair of inputs (equal inputs when the two variables are one).
pub proof fn lemma_direct_sound(t: Term, v0: usize, v1: usize, x: u64, y: u64)
    requires
        v0 == v1 ==> x == y,
    ensures
        direct_spec(t, v0, v1) matches Ok(p) ==> holds(p, eval(t, inputs(v0, v1, x, y)), x, y),
    decreases t,
{
    let ins = inputs(v0, v1, x, y);
    match t {
        Term::Const(c) => {
            if c == 0 {
                assert forall|i: u64| i < 64 implies #[trigger] bit(0u64, i) == [0u8, 0u8, 0u8, 0u8][symbol_at(x, y, i)]
                    as u64 by {
                    lemma_bits(0, 0, i);
                    lemma_symbol_range(x, y, i);
                }
            } else if c == u64::MAX {
                assert forall|i: u64| i < 64 implies #[trigger] bit(u64::MAX, i) == [1u8, 1u8, 1u8, 1u8][symbol_at(
                    x,
                    y,
                    i,
                )] as u64 by {
                    lemma_bits(0, 0, i);
                    lemma_symbol_range(x, y, i);
                }
            } else {
                let z = [0i128, 0i128, 0i128];
                lemma_digit_sum_scale(z, z, 0, x, y, 64);
                lemma_signed_word(c, 0);
                lemma_word(c as int);
            }
        },
        Term::Var(v) => {
            if v == v0 || v == v1 {
                assert(var_value(ins, v) == if v == v0 { x } else { y });
                assert forall|i: u64| i < 64 implies #[trigger] bit(var_value(ins, v), i) == (if v == v0 {
                    var_table(0)
                } else {
                    var_table(1)
                })[symbol_at(x, y, i)] as u64 by {
                    lemma_bits(x, y, i);
                    lemma_bits(y, x, i);
                    lemma_symbol_range(x, y, i);
                    lemma_tables(BitwiseOperation::And, [0u8, 0u8, 0u8, 0u8], [0u8, 0u8, 0u8, 0u8], symbol_at(x, y, i));
                }
                assert forall|k: int| 0 <= k < 4 implies #[trigger] var_table(0)[k] <= 1 && var_table(1)[k] <= 1 by {
                    lemma_tables(BitwiseOperation::And, [0u8, 0u8, 0u8, 0u8], [0u8, 0u8, 0u8, 0u8], k);
                }
            }
        },
        Term::Not(a) => {
            lemma_direct_sound(*a, v0, v1, x, y);
            let e = eval(*a, ins);
            match direct_spec(*a, v0, v1) {
                Ok(OneBasePartial::Stationary(tab)) => {
                    assert forall|k: int| 0 <= k < 4 implies #[trigger] not_table(tab)[k] <= 1 by {
                        lemma_tables(BitwiseOperation::And, tab, tab, k);
                        lemma_table_bits(tab[k], tab[k]);
                    }
                    assert forall|i: u64| i < 64 implies #[trigger] bit(!e, i) == not_table(tab)[symbol_at(x, y, i)]
                        as u64 by {
                        lemma_bits(e, e, i);
                        lemma_symbol_range(x, y, i);
                        let s = symbol_at(x, y, i);
                        lemma_tables(BitwiseOperation::And, tab, tab, s);
                        lemma_table_bits(tab[s], tab[s]);
                        assert(bit(e, i) == tab[s] as u64);
                    }
                },
                Ok(OneBasePartial::Exact { r0, epsilon }) => {
                    if key_not((r0, epsilon)) is Ok {
                        let k = key_not((r0, epsilon))->Ok_0;
                        lemma_digit_sum_scale(epsilon, k.1, -1, x, y, 64);
                        lemma_word_not(r0 + digit_sum(epsilon, x, y, 64));
                        lemma_bits(e, e, 0);
                    }
                },
                _ => {},
            }
        },
        Term::And(ts) => {
            lemma_bitwise_sound(BitwiseOperation::And, ts, v0, v1, x, y);
        },
        Term::Or(ts) => {
            lemma_bitwise_sound(BitwiseOperation::Or, ts, v0, v1, x, y);
        },
        Term::Xor(ts) => {
            lemma_bitwise_sound(BitwiseOperation::Xor, ts, v0, v1, x, y);
        },
        Term::Add(ts) => {
            lemma_add_sound(ts, v0, v1, x, y);
        },
        Term::Scale(c, a) => {
            lemma_direct_sound(*a, v0, v1, x, y);
            let e = eval(*a, ins);
            if direct_spec(*a, v0, v1) is Ok {
                let p = direct_spec(*a, v0, v1)->Ok_0;
                if partial_key(p) is Some {
                    let k = partial_key(p)->Some_0;
                    lemma_key_holds(p, e, x, y);
                    let sc = signed_word_spec(c);
                    if key_scale(k, sc) is Ok {
                        let s = key_scale(k, sc)->Ok_0;
                        let big = k.0 + digit_sum(k.1, x, y, 64);
                        assert forall|q: int| 0 <= q < 4 implies #[trigger] contribution(s.1, q) == sc * contribution(
                            k.1,
                            q,
                        ) by {
                            lemma_mul_is_commutative(sc, contribution(k.1, q));
                        }
                        lemma_digit_sum_scale(k.1, s.1, sc, x, y, 64);
                        lemma_mul_is_commutative(k.0 as int, sc);
                        lemma_mul_is_distributive_add(sc, k.0 as int, digit_sum(k.1, x, y, 64));
                        assert(s.0 + digit_sum(s.1, x, y, 64) == sc * big);
                        lemma_word_mul(c as int, big);
                        lemma_signed_word(c, 0);
                        if c >= 0x8000_0000_0000_0000 {
                            lemma_mul_is_distributive_sub(big, c as int, 0x1_0000_0000_0000_0000);
                            lemma_mul_is_commutative(big, c as int);
                            lemma_mul_is_commutative(big, sc);
                            lemma_mul_is_commutative(big, 0x1_0000_0000_0000_0000);
                            lemma_word_shift(c * big, -big);
                        }
                    }
                }
            }
        },
        Term::Mul(_) => {},
    }
}

/// A description of a partial result holds as an exact description.
proof fn lemma_key_holds(p: OneBasePartial, value: u64, x: u64, y: u64)
    requires
        holds(p, value, x, y),
        partial_key(p) is Some,
    ensures
        value == word(partial_key(p)->Some_0.0 + digit_sum(partial_key(p)->Some_0.1, x, y, 64)),
{
    if let OneBasePartial::Stationary(tab) = p {
        lemma_stationary_exact(value, tab, x, y);
    }
}

/// The combination of bitwise operands holds of their folded value.
proof fn lemma_bitwise_sound(op: BitwiseOperation, ts: Seq<Term>, v0: usize, v1: usize, x: u64, y: u64)
    requires
        v0 == v1 ==> x == y,
    ensures
        bitwise_spec(op, ts, v0, v1) matches Ok(p) ==> holds(p, eval_fold(op_of(op), ts, inputs(v0, v1, x, y)), x, y),
        bitwise_spec(op, ts, v0, v1) is Ok ==> bitwise_spec(op, ts, v0, v1)->Ok_0 !is Exact,
    decreases ts,
{
    let ins = inputs(v0, v1, x, y);
    if ts.len() == 0 {
        assert forall|k: int| 0 <= k < 4 implies #[trigger] unit_table(op)[k] <= 1 by {
            lemma_tables(op, unit_table(op), unit_table(op), k);
        }
        assert forall|i: u64| i < 64 implies #[trigger] bit(eval_fold(op_of(op), ts, ins), i) == unit_table(op)[symbol_at(
            x,
            y,
            i,
        )] as u64 by {
            lemma_bits(0, 0, i);
            lemma_symbol_range(x, y, i);
            lemma_tables(op, unit_table(op), unit_table(op), symbol_at(x, y, i));
        }
    } else {
        let pre = ts.drop_last();
        lemma_bitwise_sound(op, pre, v0, v1, x, y);
        lemma_direct_sound(ts.last(), v0, v1, x, y);
        if let Ok(OneBasePartial::Stationary(acc)) = bitwise_spec(op, pre, v0, v1) {
            if let Ok(OneBasePartial::Stationary(c)) = direct_spec(ts.last(), v0, v1) {
                let a = eval_fold(op_of(op), pre, ins);
                let b = eval(ts.last(), ins);
                let t2 = op_table(op, acc, c);
                assert forall|k: int| 0 <= k < 4 implies #[trigger] t2[k] <= 1 by {
                    lemma_tables(op, acc, c, k);
                    lemma_fold_two(op, acc[k], c[k]);
                }
                assert forall|i: u64| i < 64 implies #[trigger] bit(eval_fold(op_of(op), ts, ins), i) == t2[symbol_at(
                    x,
                    y,
                    i,
                )] as u64 by {
                    lemma_bits(a, b, i);
                    lemma_symbol_range(x, y, i);
                    let s = symbol_at(x, y, i);
                    lemma_tables(op, acc, c, s);
                    lemma_fold_two(op, acc[s], c[s]);
                    assert(bit(a, i) == acc[s] as u64);
                    assert(bit(b, i) == c[s] as u64);
                }
            }
        }
    }
}

/// The sum of descriptions holds of the summed value.
proof fn lemma_add_sound(ts: Seq<Term>, v0: usize, v1: usize, x: u64, y: u64)
    requires
        v0 == v1 ==> x == y,
    ensures
        add_spec(ts, v0, v1) matches Ok(Some(k)) ==> eval_fold(Op::Add, ts, inputs(v0, v1, x, y)) == word(
            k.0 + digit_sum(k.1, x, y, 64),
        ),
    decreases ts,
{
    let ins = inputs(v0, v1, x, y);
    if ts.len() == 0 {
        let z = [0i128, 0i128, 0i128];
        lemma_digit_sum_scale(z, z, 0, x, y, 64);
        lemma_word(0);
    } else {
        let pre = ts.drop_last();
        lemma_add_sound(pre, v0, v1, x, y);
        lemma_direct_sound(ts.last(), v0, v1, x, y);
        if let Ok(Some(acc)) = add_spec(pre, v0, v1) {
            if direct_spec(ts.last(), v0, v1) is Ok {
                let p = direct_spec(ts.last(), v0, v1)->Ok_0;
                if partial_key(p) is Some {
                    let k = partial_key(p)->Some_0;
                    let b = eval(ts.last(), ins);
                    lemma_key_holds(p, b, x, y);
                    if key_add(acc, k) is Ok {
                        let s = key_add(acc, k)->Ok_0;
                        lemma_digit_sum_add(acc.1, k.1, s.1, x, y, 64);
                        let ka = acc.0 + digit_sum(acc.1, x, y, 64);
                        let kb = k.0 + digit_sum(k.1, x, y, 64);
                        lemma_word_add(ka, word(kb) as int);
                        lemma_word_add(ka, kb);
                    }
                }
            }
        }
    }
}


/// A description that holds of a value gives the value: the constant plus
/// the digit sum of the contributions, modulo `2^64`.
pub proof fn lemma_partial_value(p: OneBasePartial, value: u64, x: u64, y: u64)
    requires
        holds(p, value, x, y),
        partial_key(p) is Some,
    ensures
        value == word(partial_key(p)->Some_0.0 + digit_sum(partial_key(p)->Some_0.1, x, y, 64)),
{
    if let OneBasePartial::Stationary(tab) = p {
        lemma_stationary_exact(value, tab, x, y);
    }
}

} // verus!
