//! What a compiled section graph stands for: the word of its total at the
//! operands `x` and `y` is the value of the source with its first variable
//! set to `x`, its second to `y` and every other one to 0.
use vstd::prelude::*;
use vstd::arithmetic::power2::{pow2, lemma_pow2_unfold, lemma_pow2_pos, lemma2_to64, lemma2_to64_rest};
use vstd::arithmetic::div_mod::{
    lemma_small_mod, lemma_mod_multiples_vanish, lemma_hoist_over_denominator, lemma_div_denominator,
    lemma_fundamental_div_mod,
};
use vstd::arithmetic::mul::{lemma_mul_is_associative, lemma_mul_is_commutative};
use vstd::bits::lemma_u64_shr_is_div;
use crate::expr::{Op, Term, VarId, eval, eval_fold, unit, size, sizes, var_value};
use crate::factorized_section::{
    SectionScalars, bases_closed, Base, BaseGraph, BitwiseOperation, fold_bits, epsilon_of, graph_wf, scale_outcome, negate_outcome, signed_word_spec,
    zero_base,
};
use crate::one_base_sound::{
    bit, bits_sum, inputs, lemma_bits, lemma_bits_sum, lemma_bit_values, op_of, symbol_at, digit_sum, contribution,
    lemma_stationary_exact,
};
use crate::one_base::table_key;
use crate::section_value::{
    int_bit, walk_sum, graph_total, children_total, digit_symbol, lemma_digit_symbol, lemma_zero_walk, lemma_scaled_total,
    lemma_negated_total,
};
use crate::stationary::{is_stationary, all_stationary, boolean_inputs, max_variable, coordinates_spec, stationary_base};
use crate::varint::{word, mask_of, lemma_mask_is_mod};
use crate::semantics::{lemma_word, lemma_word_add, lemma_word_mul};

verus! {

/// A bit of at most one is its own lowest bit.
pub proof fn lemma_bit_of_bit(b: u64)
    requires
        b <= 1,
    ensures
        bit(b, 0) == b,
{
    lemma_bits(b, b, 0);
    lemma_u64_shr_is_div(b, 0);
    lemma2_to64();
}

/// Words whose first `n` bits agree have the same sum of those bits.
proof fn lemma_bits_sum_agree(a: u64, b: u64, n: nat)
    requires
        n <= 64,
        forall|i: u64| i < n ==> #[trigger] bit(a, i) == bit(b, i),
    ensures
        bits_sum(a, n) == bits_sum(b, n),
    decreases n,
{
    if n > 0 {
        lemma_bits_sum_agree(a, b, (n - 1) as nat);
        assert(bit(a, (n - 1) as u64) == bit(b, (n - 1) as u64));
    }
}

/// A word is determined by its 64 bits.
pub proof fn lemma_word_from_bits(a: u64, b: u64)
    requires
        forall|i: u64| i < 64 ==> #[trigger] bit(a, i) == bit(b, i),
    ensures
        a == b,
{
    lemma_bits_sum(a, 64);
    lemma_bits_sum(b, 64);
    lemma_bits_sum_agree(a, b, 64);
    lemma2_to64_rest();
    lemma_small_mod(a as nat, pow2(64));
    lemma_small_mod(b as nat, pow2(64));
}

/// Adding a multiple of `2^n` leaves the bits below `n`.
proof fn lemma_int_bit_shift(v: int, k: int, n: nat, i: nat)
    requires
        i < n,
    ensures
        int_bit(v + k * pow2(n), i) == int_bit(v, i),
    decreases i,
{
    lemma_pow2_unfold(n);
    let p = pow2((n - 1) as nat) as int;
    let j = k * p;
    assert(k * pow2(n) == 2 * j) by {
        lemma_mul_is_associative(k, 2, p);
        lemma_mul_is_commutative(k, 2);
        lemma_mul_is_associative(2, k, p);
    }
    if i == 0 {
        lemma_mod_multiples_vanish(j, v, 2);
    } else {
        lemma_hoist_over_denominator(v, j, 2);
        assert(j * 2 == 2 * j);
        assert((v + k * pow2(n)) / 2 == v / 2 + j);
        lemma_int_bit_shift(v / 2, k, (n - 1) as nat, (i - 1) as nat);
    }
}

/// The bits of a word read as an integer are its bits.
proof fn lemma_int_bit_nat(w: u64, i: nat)
    requires
        i < 64,
    ensures
        int_bit(w as int, i) == bit(w, i as u64) as int,
    decreases i,
{
    lemma_bits(w, w, i as u64);
    lemma_u64_shr_is_div(w, i as u64);
    if i == 0 {
        lemma2_to64();
    } else {
        let h = (w / 2) as u64;
        lemma_int_bit_nat(h, (i - 1) as nat);
        lemma_bits(h, h, (i - 1) as u64);
        lemma_u64_shr_is_div(h, (i - 1) as u64);
        lemma_pow2_unfold(i);
        lemma_pow2_pos((i - 1) as nat);
        lemma_div_denominator(w as int, 2, pow2((i - 1) as nat) as int);
    }
}

/// The 64 low bits of an integer are those of its word.
pub proof fn lemma_int_bit_word(v: int, i: nat)
    requires
        i < 64,
    ensures
        int_bit(v, i) == bit(word(v), i as u64) as int,
{
    let m: int = 0x1_0000_0000_0000_0000;
    lemma2_to64_rest();
    lemma_word(v);
    lemma_fundamental_div_mod(v, m);
    let q = v / m;
    assert(v == word(v) + q * pow2(64)) by {
        lemma_mul_is_commutative(m, q);
    }
    lemma_int_bit_shift(word(v) as int, q, 64, i);
    lemma_int_bit_nat(word(v), i);
}

/// The bits of the operands at digit `i`.
pub open spec fn operand_bits(ts: Seq<Term>, vars: Seq<u64>, i: u64) -> Seq<u8> {
    Seq::new(ts.len(), |j: int| bit(eval(ts[j], vars), i) as u8)
}

/// Bit `i` of a bitwise fold is the fold of the operands' bits `i`.
pub proof fn lemma_fold_bits_eval(op: BitwiseOperation, ts: Seq<Term>, vars: Seq<u64>, i: u64)
    requires
        i < 64,
    ensures
        fold_bits(op, operand_bits(ts, vars, i)) <= 1,
        fold_bits(op, operand_bits(ts, vars, i)) as u64 == bit(eval_fold(op_of(op), ts, vars), i),
    decreases ts.len(),
{
    let bits = operand_bits(ts, vars, i);
    lemma_bits(0, 0, i);
    lemma_bits(u64::MAX, u64::MAX, i);
    if ts.len() > 0 {
        let pre = ts.drop_last();
        lemma_fold_bits_eval(op, pre, vars, i);
        assert(bits.drop_last() =~= operand_bits(pre, vars, i));
        let a = eval_fold(op_of(op), pre, vars);
        let b = eval(ts.last(), vars);
        lemma_bits(a, b, i);
        lemma_bits(b, a, i);
        let p = fold_bits(op, operand_bits(pre, vars, i));
        let q = bits.last();
        assert(q == bit(b, i) as u8);
        lemma_bit_values(p, q);
        assert(eval_fold(op_of(op), ts, vars) == crate::expr::apply(op_of(op), a, b));
    }
}

/// The boolean assignment of digit `i` of the operands.
pub open spec fn digit_inputs(variables: [VarId; 2], x: u64, y: u64, i: u64) -> Seq<u64> {
    boolean_inputs(variables, symbol_at(x, y, i), max_variable(variables) + 1)
}

/// The operands with the two variables set to `x` and `y`.
pub open spec fn operand_inputs(variables: [VarId; 2], x: u64, y: u64) -> Seq<u64> {
    inputs(variables[0].0, variables[1].0, x, y)
}

/// A stationary source computes each bit from the same bits of its
/// operands: bit `i` of its value is bit 0 of its value on the boolean
/// assignment of digit `i`.
pub proof fn lemma_stationary_bits(t: Term, variables: [VarId; 2], x: u64, y: u64, i: u64)
    requires
        is_stationary(t),
        variables[0].0 != variables[1].0,
        i < 64,
    ensures
        bit(eval(t, operand_inputs(variables, x, y)), i) == bit(eval(t, digit_inputs(variables, x, y, i)), 0),
    decreases size(t), 1int,
{
    let ins = operand_inputs(variables, x, y);
    let bins = digit_inputs(variables, x, y, i);
    lemma_bits(x, y, i);
    lemma_bits(y, x, i);
    lemma_bits(0, 0, i);
    lemma_bits(0, 0, 0);
    lemma_bits(u64::MAX, u64::MAX, i);
    lemma_bits(u64::MAX, u64::MAX, 0);
    match t {
        Term::Var(v) => {
            let bx = bit(x, i);
            let by = bit(y, i);
            lemma_bit_of_bit(bx);
            lemma_bit_of_bit(by);
            assert(ins.len() == bins.len());
            if v < ins.len() {
                if v == variables[0].0 {
                    assert(var_value(bins, v) == bx);
                } else if v == variables[1].0 {
                    assert(var_value(bins, v) == by);
                } else {
                    assert(var_value(bins, v) == 0);
                }
            }
        },
        Term::Const(_) => {},
        Term::Not(a) => {
            lemma_stationary_bits(*a, variables, x, y, i);
            let u = eval(*a, ins);
            let w = eval(*a, bins);
            lemma_bits(u, u, i);
            lemma_bits(w, w, 0);
        },
        Term::And(ts) => lemma_stationary_fold_bits(Op::And, ts, variables, x, y, i),
        Term::Or(ts) => lemma_stationary_fold_bits(Op::Or, ts, variables, x, y, i),
        Term::Xor(ts) => lemma_stationary_fold_bits(Op::Xor, ts, variables, x, y, i),
        _ => {},
    }
}

/// A bitwise fold of stationary operands computes each bit from the same
/// bits of its operands.
proof fn lemma_stationary_fold_bits(op: Op, ts: Seq<Term>, variables: [VarId; 2], x: u64, y: u64, i: u64)
    requires
        op == Op::And || op == Op::Or || op == Op::Xor,
        all_stationary(ts),
        variables[0].0 != variables[1].0,
        i < 64,
    ensures
        bit(eval_fold(op, ts, operand_inputs(variables, x, y)), i) == bit(
            eval_fold(op, ts, digit_inputs(variables, x, y, i)),
            0,
        ),
    decreases sizes(ts), 2int,
{
    let ins = operand_inputs(variables, x, y);
    let bins = digit_inputs(variables, x, y, i);
    lemma_bits(0, 0, i);
    lemma_bits(0, 0, 0);
    lemma_bits(u64::MAX, u64::MAX, i);
    lemma_bits(u64::MAX, u64::MAX, 0);
    if ts.len() > 0 {
        let pre = ts.drop_last();
        assert(all_stationary(pre)) by {
            assert forall|j: int| 0 <= j < pre.len() implies is_stationary(#[trigger] pre[j]) by {
                assert(pre[j] == ts[j]);
            }
        }
        assert(is_stationary(ts.last()));
        assert(size(ts.last()) >= 1) by {
            match ts.last() {
                _ => {},
            }
        }
        lemma_stationary_fold_bits(op, pre, variables, x, y, i);
        lemma_stationary_bits(ts.last(), variables, x, y, i);
        let a = eval_fold(op, pre, ins);
        let b = eval(ts.last(), ins);
        let a2 = eval_fold(op, pre, bins);
        let b2 = eval(ts.last(), bins);
        lemma_bits(a, b, i);
        lemma_bits(b, a, i);
        lemma_bits(a2, b2, 0);
        lemma_bits(b2, a2, 0);
        assert(eval_fold(op, ts, ins) == crate::expr::apply(op, a, b));
        assert(eval_fold(op, ts, bins) == crate::expr::apply(op, a2, b2));
    }
}

/// One more digit of a walk over a base that loops to itself adds the
/// contribution of that digit at its place.
proof fn lemma_walk_top(b: Base, x: nat, y: nat, n: nat)
    requires
        forall|s: int| 0 <= s < 4 ==> #[trigger] b.tau@[s] == 0,
    ensures
        walk_sum(seq![b], 0, x, y, n + 1) == walk_sum(seq![b], 0, x, y, n) + pow2(n) * epsilon_of(
            b,
            digit_symbol(x / pow2(n) as nat, y / pow2(n) as nat),
        ),
    decreases n,
{
    lemma_digit_symbol(x, y);
    let s = digit_symbol(x, y);
    assert(seq![b][0].tau@[s] == 0);
    assert(seq![b][0] == b);
    let w = walk_sum(seq![b], 0, x / 2, y / 2, n);
    assert(walk_sum(seq![b], 0, x, y, n + 1) == epsilon_of(b, s) + 2 * w);
    if n == 0 {
        lemma2_to64();
        assert(x / pow2(0) as nat == x);
        assert(y / pow2(0) as nat == y);
        assert(w == 0);
    } else {
        let m = (n - 1) as nat;
        lemma_walk_top(b, x / 2, y / 2, m);
        lemma_pow2_unfold(n);
        lemma_pow2_pos(m);
        let p = pow2(m) as int;
        lemma_div_denominator(x as int, 2, p);
        lemma_div_denominator(y as int, 2, p);
        assert(((x / 2) as nat / pow2(m) as nat) == x / pow2(n) as nat);
        assert(((y / 2) as nat / pow2(m) as nat) == y / pow2(n) as nat);
        let e = epsilon_of(b, digit_symbol(x / pow2(n) as nat, y / pow2(n) as nat));
        let w0 = walk_sum(seq![b], 0, x / 2, y / 2, m);
        assert(w == w0 + p * e);
        assert(walk_sum(seq![b], 0, x, y, n) == epsilon_of(b, s) + 2 * w0);
        lemma_mul_is_associative(2, p, e);
        assert(2 * w == 2 * w0 + pow2(n) * e);
    }
}

/// A walk over a base that loops to itself adds each digit's contribution at
/// its place.
proof fn lemma_single_walk(b: Base, x: u64, y: u64, n: nat)
    requires
        forall|s: int| 0 <= s < 4 ==> #[trigger] b.tau@[s] == 0,
        n <= 64,
    ensures
        walk_sum(seq![b], 0, x as nat, y as nat, n) == digit_sum(b.epsilon_nonzero, x, y, n),
    decreases n,
{
    if n > 0 {
        let m = (n - 1) as nat;
        lemma_single_walk(b, x, y, m);
        lemma_walk_top(b, x as nat, y as nat, m);
        lemma_bits(x, y, m as u64);
        lemma_bits(y, x, m as u64);
        lemma_u64_shr_is_div(x, m as u64);
        lemma_u64_shr_is_div(y, m as u64);
        assert(digit_symbol(x as nat / pow2(m) as nat, y as nat / pow2(m) as nat) == symbol_at(x, y, m as u64));
    }
}

/// The graph of a stationary source, made from its one-bit values on the
/// four boolean assignments, describes the source.
pub proof fn lemma_stationary_describes(t: Term, variables: [VarId; 2], g: BaseGraph, x: u64, y: u64)
    requires
        is_stationary(t),
        variables[0].0 != variables[1].0,
        coordinates_spec(t, variables, 1) matches Ok(c) && g.root == 0 && g.r0 == -((c[0] as u8) as int)
            && g.bases@ == seq![stationary_base(c)],
    ensures
        word(graph_total(g, x, y)) == eval(t, operand_inputs(variables, x, y)),
{
    let c = coordinates_spec(t, variables, 1)->Ok_0;
    let len = max_variable(variables) + 1;
    let tab = [c[0] as u8, c[1] as u8, c[2] as u8, c[3] as u8];
    lemma2_to64();
    assert(mask_of(1) == 1);
    assert forall|k: int| 0 <= k < 4 implies #[trigger] tab[k] as u64 == bit(
        eval(t, boolean_inputs(variables, k, len)),
        0,
    ) && tab[k] <= 1 by {
        let v = eval(t, boolean_inputs(variables, k, len));
        lemma_mask_is_mod(v, 1);
        lemma_bits(v, v, 0);
        lemma_u64_shr_is_div(v, 0);
        if k == 0 {
        } else if k == 1 {
        } else if k == 2 {
        } else {
        }
    }
    let v = eval(t, operand_inputs(variables, x, y));
    assert forall|i: u64| i < 64 implies #[trigger] bit(v, i) == tab[symbol_at(x, y, i)] as u64 by {
        lemma_stationary_bits(t, variables, x, y, i);
        crate::one_base_sound::lemma_symbol_range(x, y, i);
    }
    lemma_stationary_exact(v, tab, x, y);
    let b = stationary_base(c);
    assert(b.epsilon_nonzero == table_key(tab).1);
    lemma_single_walk(b, x, y, 64);
}

/// `g` describes `t` over `variables`: for every pair of operands, the
/// word of the graph's total is the value of `t` with the first variable
/// set to `x`, the second to `y` and every other one to 0.
pub open spec fn describes(g: BaseGraph, t: Term, variables: [VarId; 2]) -> bool {
    forall|x: u64, y: u64| #[trigger] word(graph_total(g, x, y)) == eval(t, operand_inputs(variables, x, y))
}

/// The term combining `ts` by `op`.
pub open spec fn bitwise_term(op: BitwiseOperation, ts: Seq<Term>) -> Term {
    match op {
        BitwiseOperation::And => Term::And(ts),
        BitwiseOperation::Or => Term::Or(ts),
        BitwiseOperation::Xor => Term::Xor(ts),
    }
}

/// The graph of a constant describes it.
pub proof fn lemma_const_describes(value: u64, g: BaseGraph, variables: [VarId; 2])
    requires
        g.root == 0,
        g.r0 == signed_word_spec(value),
        g.bases@ == seq![zero_base()],
    ensures
        describes(g, Term::Const(value), variables),
{
    assert forall|x: u64, y: u64| #[trigger] word(graph_total(g, x, y)) == eval(
        Term::Const(value),
        operand_inputs(variables, x, y),
    ) by {
        lemma_zero_walk(x as nat, y as nat, 64);
        crate::one_base_sound::lemma_signed_word(value, 0);
        lemma_word(value as int);
    }
}

/// A scaled graph describes the scaled term.
pub proof fn lemma_scale_describes(k: u64, tx: Term, gx: BaseGraph, g: BaseGraph, variables: [VarId; 2])
    requires
        graph_wf(gx),
        describes(gx, tx, variables),
        scale_outcome(gx, signed_word_spec(k), Ok(g)),
    ensures
        describes(g, Term::Scale(k, Box::new(tx)), variables),
{
    lemma_scaled_total(gx, signed_word_spec(k), g);
    assert forall|x: u64, y: u64| #[trigger] word(graph_total(g, x, y)) == eval(
        Term::Scale(k, Box::new(tx)),
        operand_inputs(variables, x, y),
    ) by {
        let t = graph_total(gx, x, y);
        let sw = signed_word_spec(k);
        let d: int = if k < 0x8000_0000_0000_0000 {
            0
        } else {
            1
        };
        crate::one_base_sound::lemma_signed_word(k, 0);
        assert(sw * t == k * t + 0x1_0000_0000_0000_0000 * (-(d * t))) by (nonlinear_arith)
            requires
                sw == k - d * 0x1_0000_0000_0000_0000,
        ;
        crate::one_base_sound::lemma_word_shift(k * t, -(d * t));
        lemma_word_mul(k as int, t);
        assert(word(graph_total(gx, x, y)) == eval(tx, operand_inputs(variables, x, y)));
    }
}

/// A complemented graph describes the complemented term.
pub proof fn lemma_not_describes(tx: Term, gx: BaseGraph, g: BaseGraph, variables: [VarId; 2])
    requires
        graph_wf(gx),
        describes(gx, tx, variables),
        negate_outcome(gx, Ok(g)),
    ensures
        describes(g, Term::Not(Box::new(tx)), variables),
{
    lemma_negated_total(gx, g);
    assert forall|x: u64, y: u64| #[trigger] word(graph_total(g, x, y)) == eval(
        Term::Not(Box::new(tx)),
        operand_inputs(variables, x, y),
    ) by {
        let t = graph_total(gx, x, y);
        crate::one_base_sound::lemma_word_not(t);
        let v = eval(tx, operand_inputs(variables, x, y));
        assert(word(graph_total(gx, x, y)) == v);
        lemma_bits(v, v, 0);
    }
}

/// The totals of the first `m` operand graphs add up, as a word, to the sum
/// of the first `m` operands.
proof fn lemma_children_word(gs: Seq<BaseGraph>, ts: Seq<Term>, variables: [VarId; 2], x: u64, y: u64, m: int)
    requires
        0 <= m <= ts.len(),
        gs.len() == ts.len(),
        forall|j: int| 0 <= j < ts.len() ==> #[trigger] describes(gs[j], ts[j], variables),
    ensures
        word(children_total(gs, x, y, m)) == eval_fold(Op::Add, ts.take(m), operand_inputs(variables, x, y)),
    decreases m,
{
    let ins = operand_inputs(variables, x, y);
    if m == 0 {
        assert(ts.take(0) =~= Seq::<Term>::empty());
        lemma_word(0);
    } else {
        lemma_children_word(gs, ts, variables, x, y, m - 1);
        let c = children_total(gs, x, y, m - 1);
        let t = graph_total(gs[m - 1], x, y);
        assert(describes(gs[m - 1], ts[m - 1], variables));
        assert(word(t) == eval(ts[m - 1], ins));
        lemma_word_add(c, t);
        lemma_word_add(word(c) as int, t);
        assert(ts.take(m).drop_last() =~= ts.take(m - 1));
        assert(ts.take(m).last() == ts[m - 1]);
    }
}

/// A graph whose total is the sum of the operands' totals describes the sum.
pub proof fn lemma_sum_describes(ts: Seq<Term>, gs: Seq<BaseGraph>, g: BaseGraph, variables: [VarId; 2])
    requires
        gs.len() == ts.len(),
        forall|j: int| 0 <= j < ts.len() ==> #[trigger] describes(gs[j], ts[j], variables),
        forall|x: u64, y: u64| #[trigger] graph_total(g, x, y) == children_total(gs, x, y, gs.len() as int),
    ensures
        describes(g, Term::Add(ts), variables),
{
    assert forall|x: u64, y: u64| #[trigger] word(graph_total(g, x, y)) == eval(
        Term::Add(ts),
        operand_inputs(variables, x, y),
    ) by {
        lemma_children_word(gs, ts, variables, x, y, ts.len() as int);
        assert(ts.take(ts.len() as int) =~= ts);
    }
}

/// A graph whose every low bit is `op` folded over the operands' same bits
/// describes the bitwise combination of the operands.
pub proof fn lemma_bitwise_describes(
    op: BitwiseOperation,
    ts: Seq<Term>,
    gs: Seq<BaseGraph>,
    g: BaseGraph,
    variables: [VarId; 2],
)
    requires
        gs.len() == ts.len(),
        forall|j: int| 0 <= j < ts.len() ==> #[trigger] describes(gs[j], ts[j], variables),
        forall|x: u64, y: u64, i: nat|
            i < 64 ==> #[trigger] int_bit(graph_total(g, x, y), i) == fold_bits(
                op,
                Seq::new(gs.len(), |j: int| int_bit(graph_total(gs[j], x, y), i) as u8),
            ) as int,
    ensures
        describes(g, bitwise_term(op, ts), variables),
{
    assert forall|x: u64, y: u64| #[trigger] word(graph_total(g, x, y)) == eval(
        bitwise_term(op, ts),
        operand_inputs(variables, x, y),
    ) by {
        let ins = operand_inputs(variables, x, y);
        let total = graph_total(g, x, y);
        let v = eval_fold(op_of(op), ts, ins);
        assert forall|i: u64| i < 64 implies #[trigger] bit(word(total), i) == bit(v, i) by {
            let ii = i as nat;
            assert(int_bit(graph_total(g, x, y), ii) == fold_bits(
                op,
                Seq::new(gs.len(), |j: int| int_bit(graph_total(gs[j], x, y), ii) as u8),
            ) as int);
            lemma_int_bit_word(total, ii);
            assert forall|j: int| 0 <= j < gs.len() implies #[trigger] int_bit(graph_total(gs[j], x, y), ii)
                == bit(eval(ts[j], ins), i) as int by {
                assert(describes(gs[j], ts[j], variables));
                lemma_int_bit_word(graph_total(gs[j], x, y), ii);
            }
            assert(Seq::new(gs.len(), |j: int| int_bit(graph_total(gs[j], x, y), ii) as u8) =~= operand_bits(
                ts,
                ins,
                i,
            ));
            lemma_fold_bits_eval(op, ts, ins, i);
        }
        lemma_word_from_bits(word(total), v);
    }
}

/// The contributions of the scalars' three nonzero symbols.
pub open spec fn scalar_epsilon(s: SectionScalars) -> [i128; 3] {
    [s.epsilon[1], s.epsilon[2], s.epsilon[3]]
}

/// The scalars `s` describe `t` over `variables`: symbol 0 contributes
/// nothing, and for every pair of operands the constant plus each digit's
/// contribution at its place is, as a word, the value of `t` with the first
/// variable set to `x`, the second to `y` and every other one to 0.
pub open spec fn scalars_describe(s: SectionScalars, t: Term, variables: [VarId; 2]) -> bool {
    &&& s.epsilon[0] == 0
    &&& forall|x: u64, y: u64| #[trigger] word(s.r0 + digit_sum(scalar_epsilon(s), x, y, 64)) == eval(
        t,
        operand_inputs(variables, x, y),
    )
}

/// The scalars of a one-base graph that describes `t` describe `t`.
pub proof fn lemma_single_base_describes(g: BaseGraph, t: Term, variables: [VarId; 2])
    requires
        graph_wf(g),
        describes(g, t, variables),
        g.bases@.len() == 1,
        g.root == 0,
    ensures
        scalars_describe(
            SectionScalars {
                r0: g.r0,
                epsilon: [
                    0i128,
                    g.bases@[0].epsilon_nonzero[0],
                    g.bases@[0].epsilon_nonzero[1],
                    g.bases@[0].epsilon_nonzero[2],
                ],
            },
            t,
            variables,
        ),
{
    let b = g.bases@[0];
    let s = SectionScalars {
        r0: g.r0,
        epsilon: [0i128, b.epsilon_nonzero[0], b.epsilon_nonzero[1], b.epsilon_nonzero[2]],
    };
    assert forall|k: int| 0 <= k < 4 implies #[trigger] b.tau@[k] == 0 by {
        assert(g.bases@[0].tau@[k] < 1);
    }
    assert(g.bases@ =~= seq![b]);
    assert(scalar_epsilon(s) =~= b.epsilon_nonzero);
    assert forall|x: u64, y: u64| #[trigger] word(s.r0 + digit_sum(scalar_epsilon(s), x, y, 64)) == eval(
        t,
        operand_inputs(variables, x, y),
    ) by {
        lemma_single_walk(b, x, y, 64);
        assert(word(graph_total(g, x, y)) == eval(t, operand_inputs(variables, x, y)));
    }
}

/// Only digit 0 of two operands of at most one can be set.
proof fn lemma_small_digit_sum(e: [i128; 3], x: u64, y: u64, n: nat)
    requires
        x <= 1,
        y <= 1,
        1 <= n <= 64,
    ensures
        digit_sum(e, x, y, n) == contribution(e, (x + 2 * y) as int),
    decreases n,
{
    let m = (n - 1) as nat;
    lemma_bit_of_bit(x);
    lemma_bit_of_bit(y);
    if m == 0 {
        lemma2_to64();
        assert(symbol_at(x, y, 0) == x + 2 * y);
        assert(digit_sum(e, x, y, 0) == 0);
        assert(digit_sum(e, x, y, n) == pow2(0) * contribution(e, symbol_at(x, y, 0)));
    } else {
        lemma_small_digit_sum(e, x, y, m);
        lemma_bits(x, y, m as u64);
        lemma_bits(y, x, m as u64);
        lemma_u64_shr_is_div(x, m as u64);
        lemma_u64_shr_is_div(y, m as u64);
        lemma_pow2_unfold(m);
        lemma_pow2_pos((m - 1) as nat);
        assert(pow2(m) >= 2);
        vstd::arithmetic::div_mod::lemma_basic_div(x as int, pow2(m) as int);
        vstd::arithmetic::div_mod::lemma_basic_div(y as int, pow2(m) as int);
        assert(symbol_at(x, y, m as u64) == 0);
        assert(contribution(e, 0) == 0);
        assert(pow2(m) * contribution(e, symbol_at(x, y, m as u64)) == 0);
    }
}

/// Scalars that describe `t` give its value on each boolean assignment: the
/// constant plus the contribution of the assignment's symbol.
pub proof fn lemma_scalars_corners(s: SectionScalars, t: Term, variables: [VarId; 2], k: int)
    requires
        scalars_describe(s, t, variables),
        variables[0].0 != variables[1].0,
        0 <= k < 4,
    ensures
        word(s.r0 + s.epsilon[k]) == eval(t, boolean_inputs(variables, k, max_variable(variables) + 1)),
{
    let x: u64 = if k % 2 == 1 {
        1
    } else {
        0
    };
    let y: u64 = if k / 2 % 2 == 1 {
        1
    } else {
        0
    };
    lemma_small_digit_sum(scalar_epsilon(s), x, y, 64);
    assert(x + 2 * y == k);
    assert(contribution(scalar_epsilon(s), k) == s.epsilon[k]) by {
        if k == 1 {
        } else if k == 2 {
        } else if k == 3 {
        }
    }
    assert(operand_inputs(variables, x, y) =~= boolean_inputs(variables, k, max_variable(variables) + 1));
    assert(word(s.r0 + digit_sum(scalar_epsilon(s), x, y, 64)) == eval(t, operand_inputs(variables, x, y)));
}

/// The constant `r0` and contributions `epsilon` describe `t` over
/// `variables`: for every pair of operands, the constant plus each digit's
/// contribution at its place is, as a word, the value of `t` with the first
/// variable set to `x`, the second to `y` and every other one to 0.
pub open spec fn key_describes(r0: i128, epsilon: [i128; 3], t: Term, variables: [VarId; 2]) -> bool {
    forall|x: u64, y: u64| #[trigger] word(r0 + digit_sum(epsilon, x, y, 64)) == eval(t, operand_inputs(variables, x, y))
}

/// The constant and contributions of a graph of one base that stays at its
/// root describe what the graph describes.
pub proof fn lemma_root_key_describes(g: BaseGraph, t: Term, variables: [VarId; 2])
    requires
        describes(g, t, variables),
        g.root == 0,
        g.bases@.len() == 1,
        forall|s: int| 0 <= s < 4 ==> #[trigger] g.bases@[0].tau@[s] == 0,
    ensures
        key_describes(g.r0, g.bases@[0].epsilon_nonzero, t, variables),
{
    let b = g.bases@[0];
    assert(g.bases@ =~= seq![b]);
    assert forall|x: u64, y: u64| #[trigger] word(g.r0 + digit_sum(b.epsilon_nonzero, x, y, 64)) == eval(
        t,
        operand_inputs(variables, x, y),
    ) by {
        lemma_single_walk(b, x, y, 64);
        assert(word(graph_total(g, x, y)) == eval(t, operand_inputs(variables, x, y)));
    }
}

} // verus!
