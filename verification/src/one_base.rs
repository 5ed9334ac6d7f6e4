//! The direct one-base compiler: exact coordinates of a two-variable source
//! whose section is a single base looping on itself, computed bottom-up from
//! the expression tree.
use vstd::prelude::*;
use crate::expr::{Expr, Term, VarId, models, lemma_models_index, lemma_models_push};
use crate::factorized_section::{
    BitwiseOperation, FactorizedSectionRefusal, OneBaseKey, OneBasePartial, fits_i128, fold_bits, one_base_add,
    one_base_key, one_base_not, one_base_scale, signed_word, signed_word_spec,
};

verus! {

/// The bit table of variable number `index` (0 or 1) over the four symbols:
/// symbol `s` sets the first variable to bit 0 of `s` and the second to bit 1.
pub open spec fn var_table(index: int) -> [u8; 4] {
    if index == 0 {
        [0u8, 1u8, 0u8, 1u8]
    } else {
        [0u8, 0u8, 1u8, 1u8]
    }
}

/// The table of the complement.
pub open spec fn not_table(t: [u8; 4]) -> [u8; 4] {
    [t[0] ^ 1u8, t[1] ^ 1u8, t[2] ^ 1u8, t[3] ^ 1u8]
}

/// The neutral table of `op`.
pub open spec fn unit_table(op: BitwiseOperation) -> [u8; 4] {
    match op {
        BitwiseOperation::And => [1u8, 1u8, 1u8, 1u8],
        _ => [0u8, 0u8, 0u8, 0u8],
    }
}

/// `op` on two bits.
pub open spec fn bit_op(op: BitwiseOperation, p: u8, q: u8) -> u8 {
    fold_bits(op, seq![p, q])
}

/// `op` applied symbol by symbol to two tables.
pub open spec fn op_table(op: BitwiseOperation, a: [u8; 4], b: [u8; 4]) -> [u8; 4] {
    [bit_op(op, a[0], b[0]), bit_op(op, a[1], b[1]), bit_op(op, a[2], b[2]), bit_op(op, a[3], b[3])]
}

/// The one-base description of a stationary table.
pub open spec fn table_key(t: [u8; 4]) -> OneBaseKey {
    (
        (-(t[0] as int)) as i128,
        [(t[1] - t[0]) as i128, (t[2] - t[0]) as i128, (t[3] - t[0]) as i128],
    )
}

/// The description of a partial result, when it has one.
pub open spec fn partial_key(p: OneBasePartial) -> Option<OneBaseKey> {
    match p {
        OneBasePartial::Stationary(t) => Some(table_key(t)),
        OneBasePartial::Exact { r0, epsilon } => Some((r0, epsilon)),
        OneBasePartial::Unknown => None,
    }
}

/// The sum of two descriptions; refused when a coordinate overflows.
pub open spec fn key_add(l: OneBaseKey, r: OneBaseKey) -> Result<OneBaseKey, FactorizedSectionRefusal> {
    if fits_i128(l.0 + r.0) && forall|i: int| 0 <= i < 3 ==> fits_i128(#[trigger] l.1[i] + r.1[i]) {
        Ok(
            (
                (l.0 + r.0) as i128,
                [(l.1[0] + r.1[0]) as i128, (l.1[1] + r.1[1]) as i128, (l.1[2] + r.1[2]) as i128],
            ),
        )
    } else {
        Err(FactorizedSectionRefusal::ArithmeticOverflow)
    }
}

/// A description multiplied by `c`; refused when a coordinate overflows.
pub open spec fn key_scale(k: OneBaseKey, c: int) -> Result<OneBaseKey, FactorizedSectionRefusal> {
    if fits_i128(k.0 * c) && forall|i: int| 0 <= i < 3 ==> fits_i128(#[trigger] k.1[i] * c) {
        Ok(((k.0 * c) as i128, [(k.1[0] * c) as i128, (k.1[1] * c) as i128, (k.1[2] * c) as i128]))
    } else {
        Err(FactorizedSectionRefusal::ArithmeticOverflow)
    }
}

/// The description of the complement; refused when a coordinate overflows.
pub open spec fn key_not(k: OneBaseKey) -> Result<OneBaseKey, FactorizedSectionRefusal> {
    if fits_i128(-1 - k.0) && forall|i: int| 0 <= i < 3 ==> fits_i128(-(#[trigger] k.1[i])) {
        Ok(((-1 - k.0) as i128, [(-k.1[0]) as i128, (-k.1[1]) as i128, (-k.1[2]) as i128]))
    } else {
        Err(FactorizedSectionRefusal::ArithmeticOverflow)
    }
}

/// What the direct compiler makes of `t` with the variables `v0` and `v1`:
/// constants 0 and all-ones and the two variables are stationary tables, any
/// other constant is exact; a complement flips a table or complements a
/// description; bitwise operations combine tables and know nothing of a
/// child that is not one; sums and scalings combine descriptions and know
/// nothing of a child without one; another variable and multiplication are
/// refused, and so is a coordinate that overflows.
pub open spec fn direct_spec(t: Term, v0: usize, v1: usize) -> Result<OneBasePartial, FactorizedSectionRefusal>
    decreases t,
{
    match t {
        Term::Const(c) => if c == 0 {
            Ok(OneBasePartial::Stationary([0u8, 0u8, 0u8, 0u8]))
        } else if c == u64::MAX {
            Ok(OneBasePartial::Stationary([1u8, 1u8, 1u8, 1u8]))
        } else {
            Ok(OneBasePartial::Exact { r0: signed_word_spec(c) as i128, epsilon: [0i128, 0i128, 0i128] })
        },
        Term::Var(v) => if v == v0 {
            Ok(OneBasePartial::Stationary(var_table(0)))
        } else if v == v1 {
            Ok(OneBasePartial::Stationary(var_table(1)))
        } else {
            Err(FactorizedSectionRefusal::InvalidVariables)
        },
        Term::Not(x) => match direct_spec(*x, v0, v1) {
            Ok(OneBasePartial::Stationary(tab)) => Ok(OneBasePartial::Stationary(not_table(tab))),
            Ok(OneBasePartial::Exact { r0, epsilon }) => match key_not((r0, epsilon)) {
                Ok(k) => Ok(OneBasePartial::Exact { r0: k.0, epsilon: k.1 }),
                Err(e) => Err(e),
            },
            Ok(OneBasePartial::Unknown) => Ok(OneBasePartial::Unknown),
            Err(e) => Err(e),
        },
        Term::And(ts) => bitwise_spec(BitwiseOperation::And, ts, v0, v1),
        Term::Or(ts) => bitwise_spec(BitwiseOperation::Or, ts, v0, v1),
        Term::Xor(ts) => bitwise_spec(BitwiseOperation::Xor, ts, v0, v1),
        Term::Add(ts) => match add_spec(ts, v0, v1) {
            Ok(Some(k)) => Ok(OneBasePartial::Exact { r0: k.0, epsilon: k.1 }),
            Ok(None) => Ok(OneBasePartial::Unknown),
            Err(e) => Err(e),
        },
        Term::Scale(c, x) => match direct_spec(*x, v0, v1) {
            Ok(p) => match partial_key(p) {
                Some(k) => match key_scale(k, signed_word_spec(c)) {
                    Ok(s) => Ok(OneBasePartial::Exact { r0: s.0, epsilon: s.1 }),
                    Err(e) => Err(e),
                },
                None => Ok(OneBasePartial::Unknown),
            },
            Err(e) => Err(e),
        },
        Term::Mul(_) => Err(FactorizedSectionRefusal::UnsupportedMultiplication),
    }
}

/// The operands `ts` combined by `op` from left to right: a refusal or an
/// operand that is not stationary ends the combination.
pub open spec fn bitwise_spec(op: BitwiseOperation, ts: Seq<Term>, v0: usize, v1: usize) -> Result<
    OneBasePartial,
    FactorizedSectionRefusal,
>
    decreases ts,
{
    if ts.len() == 0 {
        Ok(OneBasePartial::Stationary(unit_table(op)))
    } else {
        match bitwise_spec(op, ts.drop_last(), v0, v1) {
            Ok(OneBasePartial::Stationary(acc)) => match direct_spec(ts.last(), v0, v1) {
                Ok(OneBasePartial::Stationary(c)) => Ok(OneBasePartial::Stationary(op_table(op, acc, c))),
                Ok(_) => Ok(OneBasePartial::Unknown),
                Err(e) => Err(e),
            },
            other => other,
        }
    }
}

/// The descriptions of the summands `ts` added from left to right: `None`
/// once a summand has none.
pub open spec fn add_spec(ts: Seq<Term>, v0: usize, v1: usize) -> Result<Option<OneBaseKey>, FactorizedSectionRefusal>
    decreases ts,
{
    if ts.len() == 0 {
        Ok(Some((0i128, [0i128, 0i128, 0i128])))
    } else {
        match add_spec(ts.drop_last(), v0, v1) {
            Ok(Some(acc)) => match direct_spec(ts.last(), v0, v1) {
                Ok(p) => match partial_key(p) {
                    Some(k) => match key_add(acc, k) {
                        Ok(s) => Ok(Some(s)),
                        Err(e) => Err(e),
                    },
                    None => Ok(None),
                },
                Err(e) => Err(e),
            },
            other => other,
        }
    }
}

/// Once the combination of a prefix has stopped, longer prefixes give the
/// same result.
proof fn lemma_bitwise_stops(op: BitwiseOperation, ts: Seq<Term>, k: int, v0: usize, v1: usize)
    requires
        0 <= k <= ts.len(),
        !(bitwise_spec(op, ts.take(k), v0, v1) is Ok && bitwise_spec(op, ts.take(k), v0, v1)->Ok_0 is Stationary),
    ensures
        bitwise_spec(op, ts, v0, v1) == bitwise_spec(op, ts.take(k), v0, v1),
    decreases ts.len(),
{
    if ts.len() > k {
        assert(ts.drop_last().take(k) =~= ts.take(k));
        lemma_bitwise_stops(op, ts.drop_last(), k, v0, v1);
    } else {
        assert(ts.take(k) =~= ts);
    }
}

/// Once the sum of a prefix has stopped, longer prefixes give the same
/// result.
proof fn lemma_add_stops(ts: Seq<Term>, k: int, v0: usize, v1: usize)
    requires
        0 <= k <= ts.len(),
        !(add_spec(ts.take(k), v0, v1) is Ok && add_spec(ts.take(k), v0, v1)->Ok_0 is Some),
    ensures
        add_spec(ts, v0, v1) == add_spec(ts.take(k), v0, v1),
    decreases ts.len(),
{
    if ts.len() > k {
        assert(ts.drop_last().take(k) =~= ts.take(k));
        lemma_add_stops(ts.drop_last(), k, v0, v1);
    } else {
        assert(ts.take(k) =~= ts);
    }
}

/// The stationary table of the variable at `index`.
fn var_table_of(index: usize) -> (t: [u8; 4])
    requires
        index < 2,
    ensures
        t == var_table(index as int),
{
    if index == 0 {
        [0, 1, 0, 1]
    } else {
        [0, 0, 1, 1]
    }
}

/// Deliberately incomplete bottom-up compiler: the exact one-base
/// coordinates of `expression` over `variables`, or `Unknown` where it cannot
/// tell (an unknown result never says the source has no such coordinates).
pub fn compile_one_base_direct(expression: &Expr, variables: [VarId; 2]) -> (r: Result<
    OneBasePartial,
    FactorizedSectionRefusal,
>)
    ensures
        r == direct_spec(expression@, variables[0].0, variables[1].0),
    decreases expression,
{
    match expression {
        Expr::Const(value) => {
            if *value == 0 {
                Ok(OneBasePartial::Stationary([0, 0, 0, 0]))
            } else if *value == u64::MAX {
                Ok(OneBasePartial::Stationary([1, 1, 1, 1]))
            } else {
                Ok(OneBasePartial::Exact { r0: signed_word(*value), epsilon: [0, 0, 0] })
            }
        },
        Expr::Var(variable) => {
            if variables[0].0 == variable.0 {
                Ok(OneBasePartial::Stationary(var_table_of(0)))
            } else if variables[1].0 == variable.0 {
                Ok(OneBasePartial::Stationary(var_table_of(1)))
            } else {
                Err(FactorizedSectionRefusal::InvalidVariables)
            }
        },
        Expr::Not(child) => {
            match compile_one_base_direct(child, variables) {
                Ok(OneBasePartial::Stationary(table)) => {
                    let flipped = [table[0] ^ 1, table[1] ^ 1, table[2] ^ 1, table[3] ^ 1];
                    Ok(OneBasePartial::Stationary(flipped))
                },
                Ok(OneBasePartial::Exact { r0, epsilon }) => {
                    match one_base_not((r0, epsilon)) {
                        Ok(k) => {
                            proof {
                                assert(k.1 =~= key_not((r0, epsilon))->Ok_0.1);
                            }
                            Ok(OneBasePartial::Exact { r0: k.0, epsilon: k.1 })
                        },
                        Err(e) => Err(e),
                    }
                },
                Ok(OneBasePartial::Unknown) => Ok(OneBasePartial::Unknown),
                Err(e) => Err(e),
            }
        },
        Expr::And(children) => compile_bitwise_direct(BitwiseOperation::And, children, variables),
        Expr::Or(children) => compile_bitwise_direct(BitwiseOperation::Or, children, variables),
        Expr::Xor(children) => compile_bitwise_direct(BitwiseOperation::Xor, children, variables),
        Expr::Add(children) => {
            match compile_add_direct(children, variables) {
                Ok(Some(k)) => Ok(OneBasePartial::Exact { r0: k.0, epsilon: k.1 }),
                Ok(None) => Ok(OneBasePartial::Unknown),
                Err(e) => Err(e),
            }
        },
        Expr::Scale(coefficient, child) => {
            match compile_one_base_direct(child, variables) {
                Ok(p) => {
                    match one_base_key(p) {
                        Some(k) => {
                            proof {
                                assert(k.1 =~= partial_key(p)->Some_0.1);
                            }
                            let c = signed_word(*coefficient);
                            match one_base_scale(k, c) {
                                Ok(s) => {
                                    proof {
                                        assert(s.1 =~= key_scale(k, c as int)->Ok_0.1);
                                    }
                                    Ok(OneBasePartial::Exact { r0: s.0, epsilon: s.1 })
                                },
                                Err(e) => Err(e),
                            }
                        },
                        None => Ok(OneBasePartial::Unknown),
                    }
                },
                Err(e) => Err(e),
            }
        },
        Expr::Mul(_) => Err(FactorizedSectionRefusal::UnsupportedMultiplication),
    }
}

/// The operands combined by `op`, as `bitwise_spec` says.
fn compile_bitwise_direct(op: BitwiseOperation, children: &Vec<Expr>, variables: [VarId; 2]) -> (r: Result<
    OneBasePartial,
    FactorizedSectionRefusal,
>)
    ensures
        r == bitwise_spec(op, models(children@), variables[0].0, variables[1].0),
    decreases children,
{
    let ghost v0 = variables[0].0;
    let ghost v1 = variables[1].0;
    let mut table: [u8; 4] = match op {
        BitwiseOperation::And => [1, 1, 1, 1],
        _ => [0, 0, 0, 0],
    };
    proof {
        assert(models(children@.take(0)) =~= Seq::<Term>::empty());
    }
    let mut i: usize = 0;
    while i < children.len()
        invariant
            i <= children.len(),
            bitwise_spec(op, models(children@.take(i as int)), v0, v1) == Ok::<
                OneBasePartial,
                FactorizedSectionRefusal,
            >(OneBasePartial::Stationary(table)),
            v0 == variables[0].0,
            v1 == variables[1].0,
        decreases children.len() - i,
    {
        proof {
            lemma_models_index(children@);
            lemma_models_push(children@.take(i as int), children@[i as int]);
            assert(children@.take(i + 1) =~= children@.take(i as int).push(children@[i as int]));
            let pre = models(children@.take(i as int));
            assert(pre.push(children@[i as int]@).drop_last() =~= pre);
            lemma_models_index(children@.take(i + 1));
            lemma_models_index(children@);
            assert(models(children@).take(i + 1) =~= models(children@.take(i + 1)));
        }
        let child = compile_one_base_direct(&children[i], variables);
        match child {
            Ok(OneBasePartial::Stationary(c)) => {
                let mut j: usize = 0;
                let ghost before = table;
                while j < 4
                    invariant
                        j <= 4,
                        forall|k: int| 0 <= k < j ==> table[k] == fold_bits(op, seq![before[k], c[k]]),
                        forall|k: int| j <= k < 4 ==> table[k] == before[k],
                    decreases 4 - j,
                {
                    let bits = [table[j], c[j]];
                    let b = op.apply(&bits);
                    proof {
                        assert(bits@ =~= seq![before[j as int], c[j as int]]);
                    }
                    match b {
                        Ok(v) => {
                            table[j] = v;
                        },
                        Err(e) => {
                            return Err(e);
                        },
                    }
                    j += 1;
                }
                proof {
                    assert(table =~= op_table(op, before, c));
                }
            },
            Ok(_) => {
                proof {
                    lemma_bitwise_stops(op, models(children@), i + 1, v0, v1);
                }
                return Ok(OneBasePartial::Unknown);
            },
            Err(e) => {
                proof {
                    lemma_bitwise_stops(op, models(children@), i + 1, v0, v1);
                }
                return Err(e);
            },
        }
        i += 1;
    }
    proof {
        assert(children@.take(i as int) =~= children@);
    }
    Ok(OneBasePartial::Stationary(table))
}

/// The summands added up, as `add_spec` says.
fn compile_add_direct(children: &Vec<Expr>, variables: [VarId; 2]) -> (r: Result<
    Option<OneBaseKey>,
    FactorizedSectionRefusal,
>)
    ensures
        r == add_spec(models(children@), variables[0].0, variables[1].0),
    decreases children,
{
    let ghost v0 = variables[0].0;
    let ghost v1 = variables[1].0;
    let mut sum: OneBaseKey = (0, [0, 0, 0]);
    proof {
        assert(models(children@.take(0)) =~= Seq::<Term>::empty());
    }
    let mut i: usize = 0;
    while i < children.len()
        invariant
            i <= children.len(),
            add_spec(models(children@.take(i as int)), v0, v1) == Ok::<Option<OneBaseKey>, FactorizedSectionRefusal>(
                Some(sum),
            ),
            v0 == variables[0].0,
            v1 == variables[1].0,
        decreases children.len() - i,
    {
        proof {
            lemma_models_index(children@);
            lemma_models_push(children@.take(i as int), children@[i as int]);
            assert(children@.take(i + 1) =~= children@.take(i as int).push(children@[i as int]));
            let pre = models(children@.take(i as int));
            assert(pre.push(children@[i as int]@).drop_last() =~= pre);
            lemma_models_index(children@.take(i + 1));
            assert(models(children@).take(i + 1) =~= models(children@.take(i + 1)));
        }
        let child = compile_one_base_direct(&children[i], variables);
        match child {
            Ok(p) => {
                match one_base_key(p) {
                    Some(k) => {
                        proof {
                            assert(k.1 =~= partial_key(p)->Some_0.1);
                        }
                        match one_base_add(sum, k) {
                            Ok(s) => {
                                proof {
                                    assert(s.1 =~= key_add(sum, k)->Ok_0.1);
                                }
                                sum = s;
                            },
                            Err(e) => {
                                proof {
                                    lemma_add_stops(models(children@), i + 1, v0, v1);
                                }
                                return Err(e);
                            },
                        }
                    },
                    None => {
                        proof {
                            lemma_add_stops(models(children@), i + 1, v0, v1);
                        }
                        return Ok(None);
                    },
                }
            },
            Err(e) => {
                proof {
                    lemma_add_stops(models(children@), i + 1, v0, v1);
                }
                return Err(e);
            },
        }
        i += 1;
    }
    proof {
        assert(children@.take(i as int) =~= children@);
    }
    Ok(Some(sum))
}

} // verus!
