//! What a section graph stands for: reading the two operands digit by digit
//! from the root, each base met contributes its epsilon for the digit's
//! symbol at the digit's place, and the constant is added.
use vstd::prelude::*;
use crate::factorized_section::{
    advance_spec, bases_closed, bitwise_epsilon, bitwise_explored, cursors_ok, epsilon_of, epsilons_negate_fit,
    epsilons_scale_fit, eps_sum, fits_i128, fold_bits, fold_carries, graph_wf, initial_cursors, negate_outcome, negated_bases,
    product_explored, quotient_by, r0_sum, root_tuple, scale_outcome, scaled_bases, step_bits, step_cursors, step_ok,
    step_tuple, zero_base, Base, BaseGraph, BitwiseOperation, DigitCursor,
};
use crate::partition::transitions_in;

verus! {

/// The symbol of the lowest digit: bit 0 of `x` plus twice bit 0 of `y`.
pub open spec fn digit_symbol(x: nat, y: nat) -> int {
    (x % 2) as int + 2 * (y % 2) as int
}

/// The contributions met reading the `n` low digits of `x` and `y` from the
/// base `q`, each at its digit's place.
pub open spec fn walk_sum(bases: Seq<Base>, q: int, x: nat, y: nat, n: nat) -> int
    decreases n,
{
    if n == 0 {
        0
    } else {
        let s = digit_symbol(x, y);
        epsilon_of(bases[q], s) + 2 * walk_sum(bases, bases[q].tau@[s] as int, x / 2, y / 2, (n - 1) as nat)
    }
}

/// The integer a section graph describes for the operands `x` and `y`: its
/// constant plus the contributions of the 64 digits. The word it stands for
/// is this integer modulo `2^64`.
pub open spec fn graph_total(g: BaseGraph, x: u64, y: u64) -> int {
    g.r0 + walk_sum(g.bases@, g.root as int, x as nat, y as nat, 64)
}

/// The totals of the first `m` graphs, added up.
pub open spec fn children_total(children: Seq<BaseGraph>, x: u64, y: u64, m: int) -> int
    decreases m,
{
    if m <= 0 {
        0
    } else {
        children_total(children, x, y, m - 1) + graph_total(children[m - 1], x, y)
    }
}

/// The contribution of `symbol` in row `k` of an explored table.
pub open spec fn row_epsilon(epsilon: Seq<[i128; 3]>, k: int, symbol: int) -> int {
    if symbol == 0 {
        0
    } else {
        epsilon[k]@[symbol - 1] as int
    }
}

/// `walk_sum` over a table of rows and transitions.
pub open spec fn table_walk(epsilon: Seq<[i128; 3]>, tau: Seq<[usize; 4]>, k: int, x: nat, y: nat, n: nat) -> int
    decreases n,
{
    if n == 0 {
        0
    } else {
        let s = digit_symbol(x, y);
        row_epsilon(epsilon, k, s) + 2 * table_walk(epsilon, tau, tau[k]@[s] as int, x / 2, y / 2, (n - 1) as nat)
    }
}

/// The walks of the first `m` children from the bases `t` picks, added up.
pub open spec fn children_walk(children: Seq<BaseGraph>, t: Seq<usize>, x: nat, y: nat, n: nat, m: int) -> int
    decreases m,
{
    if m <= 0 {
        0
    } else {
        children_walk(children, t, x, y, n, m - 1) + walk_sum(children[m - 1].bases@, t[m - 1] as int, x, y, n)
    }
}

/// A digit's symbol is one of the four.
pub proof fn lemma_digit_symbol(x: nat, y: nat)
    ensures
        0 <= digit_symbol(x, y) < 4,
{
}

/// A quotient walks like the table it merges.
proof fn lemma_quotient_walk(
    epsilon: Seq<[i128; 3]>,
    tau: Seq<[usize; 4]>,
    bases: Seq<Base>,
    phi: Seq<int>,
    k: int,
    x: nat,
    y: nat,
    n: nat,
)
    requires
        quotient_by(epsilon, tau, 0, bases, phi),
        tau.len() == epsilon.len(),
        transitions_in(tau, epsilon.len()),
        0 <= k < epsilon.len(),
    ensures
        walk_sum(bases, phi[k], x, y, n) == table_walk(epsilon, tau, k, x, y, n),
    decreases n,
{
    if n > 0 {
        let s = digit_symbol(x, y);
        lemma_digit_symbol(x, y);
        let next = tau[k]@[s] as int;
        assert(bases[phi[k]].tau@[s] == phi[next]);
        assert(bases[phi[k]].epsilon_nonzero@ == epsilon[k]@);
        assert(epsilon_of(bases[phi[k]], s) == row_epsilon(epsilon, k, s));
        lemma_quotient_walk(epsilon, tau, bases, phi, next, x / 2, y / 2, (n - 1) as nat);
    }
}

/// Symbol 0 contributes nothing, summed over any children.
proof fn lemma_eps_sum_zero(children: Seq<BaseGraph>, t: Seq<usize>, m: int)
    ensures
        eps_sum(children, t, 0, m) == 0,
    decreases m,
{
    if m > 0 {
        lemma_eps_sum_zero(children, t, m - 1);
    }
}

/// One digit of the children's walks: their contributions added up, plus
/// twice the walks of the tuple the digit leads to.
proof fn lemma_children_walk_step(children: Seq<BaseGraph>, t: Seq<usize>, x: nat, y: nat, n: nat, m: int)
    requires
        n > 0,
        0 <= m <= children.len(),
        t.len() == children.len(),
    ensures
        children_walk(children, t, x, y, n, m) == eps_sum(children, t, digit_symbol(x, y), m) + 2 * children_walk(
            children,
            step_tuple(children, t, digit_symbol(x, y)),
            x / 2,
            y / 2,
            (n - 1) as nat,
            m,
        ),
    decreases m,
{
    if m > 0 {
        lemma_children_walk_step(children, t, x, y, n, m - 1);
        let s = digit_symbol(x, y);
        assert(step_tuple(children, t, s)[m - 1] == children[m - 1].bases@[t[m - 1] as int].tau@[s]);
    }
}

/// Reading no digit, the children's walks contribute nothing.
proof fn lemma_children_walk_empty(children: Seq<BaseGraph>, t: Seq<usize>, x: nat, y: nat, m: int)
    ensures
        children_walk(children, t, x, y, 0, m) == 0,
    decreases m,
{
    if m > 0 {
        lemma_children_walk_empty(children, t, x, y, m - 1);
    }
}

/// The explored sum table walks like its children together.
proof fn lemma_product_table_walk(
    children: Seq<BaseGraph>,
    tuples: Seq<Seq<usize>>,
    epsilon: Seq<[i128; 3]>,
    tau: Seq<[usize; 4]>,
    k: int,
    x: nat,
    y: nat,
    n: nat,
)
    requires
        product_explored(children, tuples, epsilon, tau),
        0 <= k < tuples.len(),
    ensures
        table_walk(epsilon, tau, k, x, y, n) == children_walk(children, tuples[k], x, y, n, children.len() as int),
    decreases n,
{
    if n > 0 {
        let s = digit_symbol(x, y);
        lemma_digit_symbol(x, y);
        let next = tau[k]@[s] as int;
        assert(next < tuples.len() && tuples[next] == step_tuple(children, tuples[k], s));
        assert(table_walk(epsilon, tau, k, x, y, n) == row_epsilon(epsilon, k, s) + 2 * table_walk(
            epsilon,
            tau,
            next,
            x / 2,
            y / 2,
            (n - 1) as nat,
        ));
        lemma_product_table_walk(children, tuples, epsilon, tau, next, x / 2, y / 2, (n - 1) as nat);
        assert(tuples[k].len() == children.len());
        lemma_children_walk_step(children, tuples[k], x, y, n, children.len() as int);
        if s == 0 {
            lemma_eps_sum_zero(children, tuples[k], children.len() as int);
        } else {
            assert(epsilon[k]@[s - 1] == eps_sum(children, tuples[k], (s - 1) + 1, children.len() as int));
        }
        assert(row_epsilon(epsilon, k, s) == eps_sum(children, tuples[k], s, children.len() as int));
        assert(table_walk(epsilon, tau, next, x / 2, y / 2, (n - 1) as nat) == children_walk(
            children,
            step_tuple(children, tuples[k], s),
            x / 2,
            y / 2,
            (n - 1) as nat,
            children.len() as int,
        ));
    } else {
        lemma_children_walk_empty(children, tuples[k], x, y, children.len() as int);
    }
}

/// The children's totals are their constants plus their walks from the
/// roots.
proof fn lemma_children_total(children: Seq<BaseGraph>, x: u64, y: u64, m: int)
    requires
        0 <= m <= children.len(),
    ensures
        children_total(children, x, y, m) == r0_sum(children, m) + children_walk(
            children,
            root_tuple(children),
            x as nat,
            y as nat,
            64,
            m,
        ),
    decreases m,
{
    if m > 0 {
        lemma_children_total(children, x, y, m - 1);
        assert(root_tuple(children)[m - 1] == children[m - 1].root);
    }
}

/// A graph built from the explored sum table, whose constant is the sum of
/// the children's, describes the sum of what the children describe.
pub proof fn lemma_product_total(
    children: Seq<BaseGraph>,
    tuples: Seq<Seq<usize>>,
    epsilon: Seq<[i128; 3]>,
    tau: Seq<[usize; 4]>,
    phi: Seq<int>,
    g: BaseGraph,
)
    requires
        product_explored(children, tuples, epsilon, tau),
        quotient_by(epsilon, tau, 0, g.bases@, phi),
        g.root == 0,
        g.r0 == r0_sum(children, children.len() as int),
    ensures
        forall|x: u64, y: u64| #[trigger] graph_total(g, x, y) == children_total(children, x, y, children.len() as int),
{
    assert(transitions_in(tau, epsilon.len())) by {
        assert forall|s: int, a: int| 0 <= s < tau.len() && 0 <= a < 4 implies #[trigger] tau[s]@[a] < epsilon.len() by {
            assert(tau[s]@[a] < tuples.len());
        }
    }
    assert forall|x: u64, y: u64| #[trigger] graph_total(g, x, y) == children_total(children, x, y, children.len() as int) by {
        lemma_quotient_walk(epsilon, tau, g.bases@, phi, 0, x as nat, y as nat, 64);
        lemma_product_table_walk(children, tuples, epsilon, tau, 0, x as nat, y as nat, 64);
        lemma_children_total(children, x, y, children.len() as int);
    }
}

/// Bit `i` of the integer `v` in two's complement.
pub open spec fn int_bit(v: int, i: nat) -> int
    decreases i,
{
    if i == 0 {
        v % 2
    } else {
        int_bit(v / 2, (i - 1) as nat)
    }
}

/// The bit a graph outputs at digit `i` reading `x` and `y` on from
/// `cursor`.
pub open spec fn child_bit(c: BaseGraph, cursor: DigitCursor, x: nat, y: nat, i: nat) -> u8
    decreases i,
{
    let step = advance_spec(c, cursor, digit_symbol(x, y))->Ok_0;
    if i == 0 {
        step.0
    } else {
        child_bit(c, step.1, x / 2, y / 2, (i - 1) as nat)
    }
}

/// The `n` low digits of `x` and `y` read from `cursor` without overflow.
pub open spec fn child_steps_ok(c: BaseGraph, cursor: DigitCursor, x: nat, y: nat, n: nat) -> bool
    decreases n,
{
    n == 0 || (advance_spec(c, cursor, digit_symbol(x, y)) is Ok && child_steps_ok(
        c,
        advance_spec(c, cursor, digit_symbol(x, y))->Ok_0.1,
        x / 2,
        y / 2,
        (n - 1) as nat,
    ))
}

/// The bit a combined state outputs at digit `i`: `op` folded over the
/// children's bits.
pub open spec fn state_bit(
    op: BitwiseOperation,
    children: Seq<BaseGraph>,
    st: Seq<DigitCursor>,
    x: nat,
    y: nat,
    i: nat,
) -> u8
    decreases i,
{
    let s = digit_symbol(x, y);
    if i == 0 {
        fold_bits(op, step_bits(children, st, s))
    } else {
        state_bit(op, children, step_cursors(children, st, s), x / 2, y / 2, (i - 1) as nat)
    }
}

/// A bit and twice a number: the bit is the lowest digit, the number the
/// rest.
proof fn lemma_int_bit_split(b: int, z: int, i: nat)
    requires
        0 <= b <= 1,
    ensures
        int_bit(b + 2 * z, i) == if i == 0 {
            b
        } else {
            int_bit(z, (i - 1) as nat)
        },
{
    assert((b + 2 * z) % 2 == b);
    assert((b + 2 * z) / 2 == z);
}

/// Folding bits keeps a bit.
proof fn lemma_fold_bits_bit(op: BitwiseOperation, bits: Seq<u8>)
    requires
        forall|j: int| 0 <= j < bits.len() ==> #[trigger] bits[j] <= 1,
    ensures
        fold_bits(op, bits) <= 1,
    decreases bits.len(),
{
    if bits.len() > 0 {
        lemma_fold_bits_bit(op, bits.drop_last());
        let a = fold_bits(op, bits.drop_last());
        let b = bits.last();
        assert(a <= 1 && b <= 1 ==> (a & b) <= 1 && (a | b) <= 1 && (a ^ b) <= 1) by (bit_vector);
    }
}

/// The combined state's bits are `op` folded over the children's bits.
proof fn lemma_state_bit(op: BitwiseOperation, children: Seq<BaseGraph>, st: Seq<DigitCursor>, x: nat, y: nat, i: nat)
    ensures
        state_bit(op, children, st, x, y, i) == fold_bits(
            op,
            Seq::new(st.len(), |j: int| child_bit(children[j], st[j], x, y, i)),
        ),
    decreases i,
{
    let s = digit_symbol(x, y);
    if i == 0 {
        assert(step_bits(children, st, s) =~= Seq::new(st.len(), |j: int| child_bit(children[j], st[j], x, y, i)));
    } else {
        let next = step_cursors(children, st, s);
        lemma_state_bit(op, children, next, x / 2, y / 2, (i - 1) as nat);
        assert(Seq::new(next.len(), |j: int| child_bit(children[j], next[j], x / 2, y / 2, (i - 1) as nat)) =~= Seq::new(
            st.len(),
            |j: int| child_bit(children[j], st[j], x, y, i),
        ));
    }
}

/// Read without overflow, the bits a graph outputs are those of its carry
/// plus its walk.
proof fn lemma_child_bits(c: BaseGraph, cursor: DigitCursor, x: nat, y: nat, n: nat, i: nat)
    requires
        child_steps_ok(c, cursor, x, y, n),
        i < n,
    ensures
        int_bit(cursor.carry + walk_sum(c.bases@, cursor.base as int, x, y, n), i) == child_bit(c, cursor, x, y, i)
            as int,
    decreases i,
{
    let s = digit_symbol(x, y);
    lemma_digit_symbol(x, y);
    let step = advance_spec(c, cursor, s)->Ok_0;
    let b = c.bases@[cursor.base as int];
    let total = cursor.carry + epsilon_of(b, s);
    assert(step.0 as int == total % 2);
    assert(step.1.carry as int == total / 2);
    assert(step.1.base == b.tau@[s]);
    let rest = walk_sum(c.bases@, b.tau@[s] as int, x / 2, y / 2, (n - 1) as nat);
    assert(cursor.carry + walk_sum(c.bases@, cursor.base as int, x, y, n) == total % 2 + 2 * (step.1.carry + rest));
    lemma_int_bit_split(total % 2, step.1.carry + rest, i);
    if i > 0 {
        lemma_child_bits(c, step.1, x / 2, y / 2, (n - 1) as nat, (i - 1) as nat);
    }
}

/// Every child reads every digit on from an explored state without
/// overflow.
proof fn lemma_explored_steps_ok(
    op: BitwiseOperation,
    children: Seq<BaseGraph>,
    states: Seq<Seq<DigitCursor>>,
    epsilon: Seq<[i128; 3]>,
    tau: Seq<[usize; 4]>,
    k: int,
    j: int,
    x: nat,
    y: nat,
    n: nat,
)
    requires
        bitwise_explored(op, children, states, epsilon, tau),
        0 <= k < states.len(),
        0 <= j < children.len(),
    ensures
        child_steps_ok(children[j], states[k][j], x, y, n),
    decreases n,
{
    if n > 0 {
        let s = digit_symbol(x, y);
        lemma_digit_symbol(x, y);
        assert(step_ok(children, states[k], s));
        reveal(step_ok);
        assert(cursors_ok(children, states[k]));
        assert(advance_spec(children[j], states[k][j], s) is Ok);
        let next = tau[k]@[s] as int;
        assert(states[next] == step_cursors(children, states[k], s));
        assert(states[next][j] == advance_spec(children[j], states[k][j], s)->Ok_0.1);
        lemma_explored_steps_ok(op, children, states, epsilon, tau, next, j, x / 2, y / 2, (n - 1) as nat);
    }
}

/// Read without overflow, the bits the explored table outputs are those of
/// the state's response plus its walk.
proof fn lemma_table_bits(
    op: BitwiseOperation,
    children: Seq<BaseGraph>,
    states: Seq<Seq<DigitCursor>>,
    epsilon: Seq<[i128; 3]>,
    tau: Seq<[usize; 4]>,
    k: int,
    x: nat,
    y: nat,
    n: nat,
    i: nat,
)
    requires
        bitwise_explored(op, children, states, epsilon, tau),
        0 <= k < states.len(),
        i < n,
    ensures
        int_bit(fold_carries(op, states[k]) + table_walk(epsilon, tau, k, x, y, n), i) == state_bit(
            op,
            children,
            states[k],
            x,
            y,
            i,
        ) as int,
    decreases i,
{
    let s = digit_symbol(x, y);
    lemma_digit_symbol(x, y);
    let st = states[k];
    let next = tau[k]@[s] as int;
    assert(next < states.len() && states[next] == step_cursors(children, st, s));
    assert(step_ok(children, st, s));
    let bits = step_bits(children, st, s);
    assert forall|j: int| 0 <= j < bits.len() implies #[trigger] bits[j] <= 1 by {
        reveal(step_ok);
        assert(advance_spec(children[j], st[j], s) is Ok);
    }
    lemma_fold_bits_bit(op, bits);
    let o = fold_bits(op, bits) as int;
    if s == 0 {
        assert(bitwise_epsilon(op, children, st, 0) == 0);
    } else {
        assert(epsilon[k]@[s - 1] == bitwise_epsilon(op, children, st, (s - 1) + 1));
    }
    assert(row_epsilon(epsilon, k, s) == bitwise_epsilon(op, children, st, s));
    let rest = table_walk(epsilon, tau, next, x / 2, y / 2, (n - 1) as nat);
    assert(table_walk(epsilon, tau, k, x, y, n) == row_epsilon(epsilon, k, s) + 2 * rest);
    assert(fold_carries(op, st) + table_walk(epsilon, tau, k, x, y, n) == o + 2 * (fold_carries(op, states[next])
        + rest));
    lemma_int_bit_split(o, fold_carries(op, states[next]) + rest, i);
    if i > 0 {
        lemma_table_bits(op, children, states, epsilon, tau, next, x / 2, y / 2, (n - 1) as nat, (i - 1) as nat);
    }
}

/// A graph built from the explored bitwise table, whose constant is the
/// response of the initial state, describes `op` applied bit by bit to what
/// the children describe: each of its 64 low bits is `op` folded over the
/// same bit of the children.
pub proof fn lemma_bitwise_total(
    op: BitwiseOperation,
    children: Seq<BaseGraph>,
    states: Seq<Seq<DigitCursor>>,
    epsilon: Seq<[i128; 3]>,
    tau: Seq<[usize; 4]>,
    phi: Seq<int>,
    g: BaseGraph,
)
    requires
        bitwise_explored(op, children, states, epsilon, tau),
        quotient_by(epsilon, tau, 0, g.bases@, phi),
        g.root == 0,
        g.r0 == fold_carries(op, initial_cursors(children)),
    ensures
        forall|x: u64, y: u64, i: nat|
            i < 64 ==> #[trigger] int_bit(graph_total(g, x, y), i) == fold_bits(
                op,
                Seq::new(children.len(), |j: int| int_bit(graph_total(children[j], x, y), i) as u8),
            ) as int,
{
    assert(transitions_in(tau, epsilon.len())) by {
        assert forall|s: int, a: int| 0 <= s < tau.len() && 0 <= a < 4 implies #[trigger] tau[s]@[a] < epsilon.len() by {
            assert(tau[s]@[a] < states.len());
        }
    }
    assert forall|x: u64, y: u64, i: nat| i < 64 implies #[trigger] int_bit(graph_total(g, x, y), i) == fold_bits(
        op,
        Seq::new(children.len(), |j: int| int_bit(graph_total(children[j], x, y), i) as u8),
    ) as int by {
        let init = initial_cursors(children);
        lemma_quotient_walk(epsilon, tau, g.bases@, phi, 0, x as nat, y as nat, 64);
        lemma_table_bits(op, children, states, epsilon, tau, 0, x as nat, y as nat, 64, i);
        lemma_state_bit(op, children, init, x as nat, y as nat, i);
        assert forall|j: int| 0 <= j < children.len() implies int_bit(graph_total(children[j], x, y), i) as u8
            == #[trigger] child_bit(children[j], init[j], x as nat, y as nat, i) by {
            lemma_explored_steps_ok(op, children, states, epsilon, tau, 0, j, x as nat, y as nat, 64);
            lemma_child_bits(children[j], init[j], x as nat, y as nat, 64, i);
        }
        assert(Seq::new(children.len(), |j: int| int_bit(graph_total(children[j], x, y), i) as u8) =~= Seq::new(
            init.len(),
            |j: int| child_bit(children[j], init[j], x as nat, y as nat, i),
        ));
    }
}

/// Scaling every contribution scales the walk.
proof fn lemma_scaled_walk(bases: Seq<Base>, c: int, q: int, x: nat, y: nat, n: nat)
    requires
        bases_closed(bases),
        epsilons_scale_fit(bases, c),
        0 <= q < bases.len(),
    ensures
        walk_sum(scaled_bases(bases, c), q, x, y, n) == c * walk_sum(bases, q, x, y, n),
    decreases n,
{
    if n > 0 {
        let s = digit_symbol(x, y);
        lemma_digit_symbol(x, y);
        let next = bases[q].tau@[s] as int;
        let e = epsilon_of(bases[q], s);
        assert(scaled_bases(bases, c)[q].tau@[s] == next);
        assert(epsilon_of(scaled_bases(bases, c)[q], s) == c * e) by {
            if s > 0 {
                assert(fits_i128(bases[q].epsilon_nonzero@[s - 1] * c));
            }
        }
        lemma_scaled_walk(bases, c, next, x / 2, y / 2, (n - 1) as nat);
        let w = walk_sum(bases, next, x / 2, y / 2, (n - 1) as nat);
        assert(c * (e + 2 * w) == c * e + 2 * (c * w)) by (nonlinear_arith);
    }
}

/// The zero base contributes nothing.
pub proof fn lemma_zero_walk(x: nat, y: nat, n: nat)
    ensures
        walk_sum(seq![zero_base()], 0, x, y, n) == 0,
    decreases n,
{
    if n > 0 {
        lemma_zero_walk(x / 2, y / 2, (n - 1) as nat);
    }
}

/// A scaled graph describes `coefficient` times what the graph describes.
pub proof fn lemma_scaled_total(graph: BaseGraph, coefficient: int, g: BaseGraph)
    requires
        graph_wf(graph),
        scale_outcome(graph, coefficient, Ok(g)),
    ensures
        forall|x: u64, y: u64| #[trigger] graph_total(g, x, y) == coefficient * graph_total(graph, x, y),
{
    assert forall|x: u64, y: u64| #[trigger] graph_total(g, x, y) == coefficient * graph_total(graph, x, y) by {
        if coefficient == 0 {
            lemma_zero_walk(x as nat, y as nat, 64);
        } else {
            lemma_scaled_walk(graph.bases@, coefficient, graph.root as int, x as nat, y as nat, 64);
            let w = walk_sum(graph.bases@, graph.root as int, x as nat, y as nat, 64);
            assert(coefficient * (graph.r0 + w) == graph.r0 * coefficient + coefficient * w) by (nonlinear_arith);
        }
    }
}

/// Negating every contribution negates the walk.
proof fn lemma_negated_walk(bases: Seq<Base>, q: int, x: nat, y: nat, n: nat)
    requires
        bases_closed(bases),
        epsilons_negate_fit(bases),
        0 <= q < bases.len(),
    ensures
        walk_sum(negated_bases(bases), q, x, y, n) == -walk_sum(bases, q, x, y, n),
    decreases n,
{
    if n > 0 {
        let s = digit_symbol(x, y);
        lemma_digit_symbol(x, y);
        let next = bases[q].tau@[s] as int;
        assert(negated_bases(bases)[q].tau@[s] == next);
        assert(epsilon_of(negated_bases(bases)[q], s) == -epsilon_of(bases[q], s)) by {
            if s > 0 {
                assert(fits_i128(-bases[q].epsilon_nonzero@[s - 1]));
            }
        }
        lemma_negated_walk(bases, next, x / 2, y / 2, (n - 1) as nat);
    }
}

/// A complemented graph describes the bitwise complement `-1 - f` of what
/// the graph describes.
pub proof fn lemma_negated_total(graph: BaseGraph, g: BaseGraph)
    requires
        graph_wf(graph),
        negate_outcome(graph, Ok(g)),
    ensures
        forall|x: u64, y: u64| #[trigger] graph_total(g, x, y) == -1 - graph_total(graph, x, y),
{
    assert forall|x: u64, y: u64| #[trigger] graph_total(g, x, y) == -1 - graph_total(graph, x, y) by {
        lemma_negated_walk(graph.bases@, graph.root as int, x as nat, y as nat, 64);
    }
}

} // verus!
