//! Rendering a one-base descriptor as an expression: a descriptor whose
//! coordinates are those of a two-variable bit table names one of sixteen
//! fixed recipes.
use vstd::prelude::*;
use crate::expr::{Expr, Term, VarId, models};
use crate::factorized_section::{BitwiseOperation, FactorizedSectionRefusal, OneBasePartial};
use crate::one_base::{bitwise_spec, direct_spec, not_table, op_table, table_key, unit_table, var_table};
use crate::one_base_sound::{lemma_fold_bits_values, lemma_direct_sound, lemma_partial_value, inputs};
use crate::one_base::partial_key;
use crate::one_base_compile::{compile_one_base, one_base_outcome, descriptor, analysis_variables};
use crate::source_analysis::{visit_spec, empty_analysis, lemma_visit_facts, recorded_list};
use crate::graph_value::operand_inputs;
use crate::one_base_sound::digit_sum;
use crate::varint::word;
use crate::expr::{eval, var_value, vars_in, all_vars_in};
use crate::install_value::lemma_eval_agree;

verus! {

/// Exact coordinates of a stationary one-base source over two variables.
#[derive(Clone, Copy, Debug, PartialEq, Eq)]
pub struct OneBaseDescriptor {
    pub variables: [VarId; 2],
    pub r0: i128,
    pub epsilon_nonzero: [i128; 3],
    pub direct: bool,
}

/// The sixteen bitwise functions of two variables, named by their bit
/// tables: bit `s` of the signature is the output on symbol `s`.
#[derive(Clone, Copy, Debug, PartialEq, Eq)]
pub enum Recipe {
    Zero,
    Nor,
    XAndNotY,
    NotY,
    NotXAndY,
    NotX,
    Xor,
    Nand,
    And,
    Xnor,
    X,
    XOrNotY,
    Y,
    NotXOrY,
    Or,
    Ones,
}

/// The recipe of a four-bit signature.
pub open spec fn recipe_of(signature: u8) -> Recipe {
    if signature == 0 {
        Recipe::Zero
    } else if signature == 1 {
        Recipe::Nor
    } else if signature == 2 {
        Recipe::XAndNotY
    } else if signature == 3 {
        Recipe::NotY
    } else if signature == 4 {
        Recipe::NotXAndY
    } else if signature == 5 {
        Recipe::NotX
    } else if signature == 6 {
        Recipe::Xor
    } else if signature == 7 {
        Recipe::Nand
    } else if signature == 8 {
        Recipe::And
    } else if signature == 9 {
        Recipe::Xnor
    } else if signature == 10 {
        Recipe::X
    } else if signature == 11 {
        Recipe::XOrNotY
    } else if signature == 12 {
        Recipe::Y
    } else if signature == 13 {
        Recipe::NotXOrY
    } else if signature == 14 {
        Recipe::Or
    } else {
        Recipe::Ones
    }
}

/// The complement of `t`.
pub open spec fn negation(t: Term) -> Term {
    Term::Not(Box::new(t))
}

/// The expression of a recipe over the variables `v0` (x) and `v1` (y).
pub open spec fn recipe_term(recipe: Recipe, v0: usize, v1: usize) -> Term {
    let x = Term::Var(v0);
    let y = Term::Var(v1);
    match recipe {
        Recipe::Zero => Term::Const(0),
        Recipe::Nor => negation(Term::Or(seq![x, y])),
        Recipe::XAndNotY => Term::And(seq![x, negation(y)]),
        Recipe::NotY => negation(y),
        Recipe::NotXAndY => Term::And(seq![negation(x), y]),
        Recipe::NotX => negation(x),
        Recipe::Xor => Term::Xor(seq![x, y]),
        Recipe::Nand => negation(Term::And(seq![x, y])),
        Recipe::And => Term::And(seq![x, y]),
        Recipe::Xnor => negation(Term::Xor(seq![x, y])),
        Recipe::X => x,
        Recipe::XOrNotY => Term::Or(seq![x, negation(y)]),
        Recipe::Y => y,
        Recipe::NotXOrY => Term::Or(seq![negation(x), y]),
        Recipe::Or => Term::Or(seq![x, y]),
        Recipe::Ones => Term::Const(u64::MAX),
    }
}

/// The models of two expressions.
proof fn lemma_models_two(a: Expr, b: Expr)
    ensures
        models(seq![a, b]) == seq![a@, b@],
{
    assert(seq![a, b].drop_last() =~= seq![a]);
    assert(seq![a].drop_last() =~= Seq::<Expr>::empty());
    assert(seq![a].last() == a);
    assert(seq![a, b].last() == b);
    assert(models(Seq::<Expr>::empty()) =~= Seq::<Term>::empty());
    assert(models(seq![a]) =~= Seq::<Term>::empty().push(a@));
    assert(models(seq![a]) =~= seq![a@]);
    assert(models(seq![a, b]) =~= seq![a@, b@]);
}

/// Two operands as a vector.
fn pair(a: Expr, b: Expr) -> (r: Vec<Expr>)
    ensures
        models(r@) == seq![a@, b@],
{
    let ghost (ga, gb) = (a, b);
    let r = vec![a, b];
    proof {
        assert(r@ =~= seq![ga, gb]);
        lemma_models_two(ga, gb);
    }
    r
}

/// The complement of `e`.
fn not_of(e: Expr) -> (r: Expr)
    ensures
        r@ == Term::Not(Box::new(e@)),
{
    Expr::Not(Box::new(e))
}

impl Recipe {
    /// The recipe whose bit table is `signature`.
    pub fn from_signature(signature: u8) -> (r: Recipe)
        requires
            signature < 16,
        ensures
            r == recipe_of(signature),
    {
        match signature {
            0 => Recipe::Zero,
            1 => Recipe::Nor,
            2 => Recipe::XAndNotY,
            3 => Recipe::NotY,
            4 => Recipe::NotXAndY,
            5 => Recipe::NotX,
            6 => Recipe::Xor,
            7 => Recipe::Nand,
            8 => Recipe::And,
            9 => Recipe::Xnor,
            10 => Recipe::X,
            11 => Recipe::XOrNotY,
            12 => Recipe::Y,
            13 => Recipe::NotXOrY,
            14 => Recipe::Or,
            _ => Recipe::Ones,
        }
    }

    /// The recipe's expression over `variables` (x first, y second).
    pub fn instantiate(self, variables: [VarId; 2]) -> (r: Expr)
        ensures
            r@ == recipe_term(self, variables[0].0, variables[1].0),
    {
        let v0 = variables[0].0;
        let v1 = variables[1].0;
        match self {
            Recipe::Zero => Expr::Const(0),
            Recipe::Nor => not_of(Expr::Or(pair(Expr::var(v0), Expr::var(v1)))),
            Recipe::XAndNotY => Expr::And(pair(Expr::var(v0), not_of(Expr::var(v1)))),
            Recipe::NotY => not_of(Expr::var(v1)),
            Recipe::NotXAndY => Expr::And(pair(not_of(Expr::var(v0)), Expr::var(v1))),
            Recipe::NotX => not_of(Expr::var(v0)),
            Recipe::Xor => Expr::Xor(pair(Expr::var(v0), Expr::var(v1))),
            Recipe::Nand => not_of(Expr::And(pair(Expr::var(v0), Expr::var(v1)))),
            Recipe::And => Expr::And(pair(Expr::var(v0), Expr::var(v1))),
            Recipe::Xnor => not_of(Expr::Xor(pair(Expr::var(v0), Expr::var(v1)))),
            Recipe::X => Expr::var(v0),
            Recipe::XOrNotY => Expr::Or(pair(Expr::var(v0), not_of(Expr::var(v1)))),
            Recipe::Y => Expr::var(v1),
            Recipe::NotXOrY => Expr::Or(pair(not_of(Expr::var(v0)), Expr::var(v1))),
            Recipe::Or => Expr::Or(pair(Expr::var(v0), Expr::var(v1))),
            Recipe::Ones => Expr::Const(u64::MAX),
        }
    }
}

/// `v` is a bit.
pub open spec fn is_bit(v: int) -> bool {
    v == 0 || v == 1
}

/// The signature of a descriptor, when it is the description of a
/// two-variable bit table: the output on symbol 0 is `-r0`, and on symbol
/// `s` it is that plus the contribution of `s`; all four must be bits.
pub open spec fn signature_spec(r0: int, epsilon: [i128; 3]) -> Option<u8> {
    let zero = -r0;
    if is_bit(zero) && is_bit(zero + epsilon[0]) && is_bit(zero + epsilon[1]) && is_bit(zero + epsilon[2]) {
        Some((zero + 2 * (zero + epsilon[0]) + 4 * (zero + epsilon[1]) + 8 * (zero + epsilon[2])) as u8)
    } else {
        None
    }
}

/// The four-bit signature of `descriptor`, when its coordinates are those of
/// a bit table.
pub fn signature(descriptor: OneBaseDescriptor) -> (r: Option<u8>)
    ensures
        r == signature_spec(descriptor.r0 as int, descriptor.epsilon_nonzero),
{
    if descriptor.r0 != 0 && descriptor.r0 != -1 {
        return None;
    }
    let zero: i128 = -descriptor.r0;
    let mut signature: u8 = zero as u8;
    let mut index: usize = 0;
    while index < 3
        invariant
            index <= 3,
            zero == -descriptor.r0,
            is_bit(zero as int),
            forall|i: int| 0 <= i < index ==> is_bit(zero + #[trigger] descriptor.epsilon_nonzero[i]),
            signature as int == zero + (if index > 0 { 2 * (zero + descriptor.epsilon_nonzero[0]) } else { 0 }) + (
            if index > 1 { 4 * (zero + descriptor.epsilon_nonzero[1]) } else { 0 }) + (if index > 2 {
                8 * (zero + descriptor.epsilon_nonzero[2])
            } else {
                0
            }),
        decreases 3 - index,
    {
        let epsilon = descriptor.epsilon_nonzero[index];
        let value = match zero.checked_add(epsilon) {
            Some(v) => v,
            None => {
                return None;
            },
        };
        if value != 0 && value != 1 {
            return None;
        }
        let bit: u8 = value as u8;
        if index == 0 {
            signature = signature + 2 * bit;
        } else if index == 1 {
            signature = signature + 4 * bit;
        } else {
            signature = signature + 8 * bit;
        }
        index += 1;
    }
    Some(signature)
}

/// The expression a descriptor names, when it has a signature.
pub fn render(descriptor: OneBaseDescriptor) -> (r: Option<Expr>)
    ensures
        match signature_spec(descriptor.r0 as int, descriptor.epsilon_nonzero) {
            Some(s) => r matches Some(e) && e@ == recipe_term(
                recipe_of(s),
                descriptor.variables[0].0,
                descriptor.variables[1].0,
            ),
            None => r is None,
        },
{
    match signature(descriptor) {
        Some(s) => Some(Recipe::from_signature(s).instantiate(descriptor.variables)),
        None => None,
    }
}

} // verus!
verus! {

/// The bit table of a four-bit signature: entry `s` is bit `s`.
pub open spec fn signature_table(s: u8) -> [u8; 4] {
    [(s % 2) as u8, ((s / 2) % 2) as u8, ((s / 4) % 2) as u8, ((s / 8) % 2) as u8]
}

/// The direct compiler reads a distinct variable pair as their tables.
proof fn lemma_direct_vars(v0: usize, v1: usize)
    requires
        v0 != v1,
    ensures
        direct_spec(Term::Var(v0), v0, v1) == Ok::<OneBasePartial, FactorizedSectionRefusal>(
            OneBasePartial::Stationary(var_table(0)),
        ),
        direct_spec(Term::Var(v1), v0, v1) == Ok::<OneBasePartial, FactorizedSectionRefusal>(
            OneBasePartial::Stationary(var_table(1)),
        ),
{
}

/// Two stationary operands combine entry by entry.
proof fn lemma_bitwise_pair(op: BitwiseOperation, a: Term, b: Term, v0: usize, v1: usize, ta: [u8; 4], tb: [u8; 4])
    requires
        direct_spec(a, v0, v1) == Ok::<OneBasePartial, FactorizedSectionRefusal>(OneBasePartial::Stationary(ta)),
        direct_spec(b, v0, v1) == Ok::<OneBasePartial, FactorizedSectionRefusal>(OneBasePartial::Stationary(tb)),
    ensures
        bitwise_spec(op, seq![a, b], v0, v1) == Ok::<OneBasePartial, FactorizedSectionRefusal>(
            OneBasePartial::Stationary(op_table(op, op_table(op, unit_table(op), ta), tb)),
        ),
{
    let s2 = seq![a, b];
    let s1 = seq![a];
    assert(s2.drop_last() =~= s1);
    assert(s1.drop_last() =~= Seq::<Term>::empty());
    assert(s2.last() == b);
    assert(s1.last() == a);
    assert(bitwise_spec(op, Seq::<Term>::empty(), v0, v1) == Ok::<OneBasePartial, FactorizedSectionRefusal>(
        OneBasePartial::Stationary(unit_table(op)),
    ));
    assert(bitwise_spec(op, s1, v0, v1) == Ok::<OneBasePartial, FactorizedSectionRefusal>(
        OneBasePartial::Stationary(op_table(op, unit_table(op), ta)),
    ));
}

/// Every recipe compiles directly to the bit table of its signature.
pub proof fn lemma_recipe_table(s: u8, v0: usize, v1: usize)
    requires
        s < 16,
        v0 != v1,
    ensures
        direct_spec(recipe_term(recipe_of(s), v0, v1), v0, v1) == Ok::<OneBasePartial, FactorizedSectionRefusal>(
            OneBasePartial::Stationary(signature_table(s)),
        ),
{
    lemma_direct_vars(v0, v1);
    lemma_fold_bits_values(BitwiseOperation::And);
    lemma_fold_bits_values(BitwiseOperation::Or);
    lemma_fold_bits_values(BitwiseOperation::Xor);
    let x = Term::Var(v0);
    let y = Term::Var(v1);
    let tx = var_table(0);
    let ty = var_table(1);
    let nx = not_table(tx);
    let ny = not_table(ty);
    let and = BitwiseOperation::And;
    let or = BitwiseOperation::Or;
    let xor = BitwiseOperation::Xor;
    assert(direct_spec(negation(x), v0, v1) == Ok::<OneBasePartial, FactorizedSectionRefusal>(OneBasePartial::Stationary(nx)));
    assert(direct_spec(negation(y), v0, v1) == Ok::<OneBasePartial, FactorizedSectionRefusal>(OneBasePartial::Stationary(ny)));
    let t = signature_table(s);
    if s == 0 {
        assert(t =~= [0u8, 0u8, 0u8, 0u8]);
        assert(direct_spec(recipe_term(recipe_of(s), v0, v1), v0, v1) == Ok::<OneBasePartial, FactorizedSectionRefusal>(OneBasePartial::Stationary(t)));
    } else if s == 1 {
        lemma_bitwise_pair(or, x, y, v0, v1, tx, ty);
        assert(direct_spec(Term::Or(seq![x, y]), v0, v1) == Ok::<OneBasePartial, FactorizedSectionRefusal>(
            OneBasePartial::Stationary(op_table(or, op_table(or, unit_table(or), tx), ty)),
        ));
        assert(not_table(op_table(or, op_table(or, unit_table(or), tx), ty)) =~= t);
        assert(direct_spec(recipe_term(recipe_of(s), v0, v1), v0, v1) == Ok::<OneBasePartial, FactorizedSectionRefusal>(OneBasePartial::Stationary(t)));
    } else if s == 2 {
        lemma_bitwise_pair(and, x, negation(y), v0, v1, tx, ny);
        assert(op_table(and, op_table(and, unit_table(and), tx), ny) =~= t);
        assert(direct_spec(recipe_term(recipe_of(s), v0, v1), v0, v1) == Ok::<OneBasePartial, FactorizedSectionRefusal>(OneBasePartial::Stationary(t)));
    } else if s == 3 {
        assert(ny =~= t);
        assert(direct_spec(recipe_term(recipe_of(s), v0, v1), v0, v1) == Ok::<OneBasePartial, FactorizedSectionRefusal>(OneBasePartial::Stationary(t)));
    } else if s == 4 {
        lemma_bitwise_pair(and, negation(x), y, v0, v1, nx, ty);
        assert(op_table(and, op_table(and, unit_table(and), nx), ty) =~= t);
        assert(direct_spec(recipe_term(recipe_of(s), v0, v1), v0, v1) == Ok::<OneBasePartial, FactorizedSectionRefusal>(OneBasePartial::Stationary(t)));
    } else if s == 5 {
        assert(nx =~= t);
        assert(direct_spec(recipe_term(recipe_of(s), v0, v1), v0, v1) == Ok::<OneBasePartial, FactorizedSectionRefusal>(OneBasePartial::Stationary(t)));
    } else if s == 6 {
        lemma_bitwise_pair(xor, x, y, v0, v1, tx, ty);
        assert(op_table(xor, op_table(xor, unit_table(xor), tx), ty) =~= t);
        assert(direct_spec(recipe_term(recipe_of(s), v0, v1), v0, v1) == Ok::<OneBasePartial, FactorizedSectionRefusal>(OneBasePartial::Stationary(t)));
    } else if s == 7 {
        lemma_bitwise_pair(and, x, y, v0, v1, tx, ty);
        assert(direct_spec(Term::And(seq![x, y]), v0, v1) == Ok::<OneBasePartial, FactorizedSectionRefusal>(
            OneBasePartial::Stationary(op_table(and, op_table(and, unit_table(and), tx), ty)),
        ));
        assert(not_table(op_table(and, op_table(and, unit_table(and), tx), ty)) =~= t);
        assert(direct_spec(recipe_term(recipe_of(s), v0, v1), v0, v1) == Ok::<OneBasePartial, FactorizedSectionRefusal>(OneBasePartial::Stationary(t)));
    } else if s == 8 {
        lemma_bitwise_pair(and, x, y, v0, v1, tx, ty);
        assert(op_table(and, op_table(and, unit_table(and), tx), ty) =~= t);
        assert(direct_spec(recipe_term(recipe_of(s), v0, v1), v0, v1) == Ok::<OneBasePartial, FactorizedSectionRefusal>(OneBasePartial::Stationary(t)));
    } else if s == 9 {
        lemma_bitwise_pair(xor, x, y, v0, v1, tx, ty);
        assert(direct_spec(Term::Xor(seq![x, y]), v0, v1) == Ok::<OneBasePartial, FactorizedSectionRefusal>(
            OneBasePartial::Stationary(op_table(xor, op_table(xor, unit_table(xor), tx), ty)),
        ));
        assert(not_table(op_table(xor, op_table(xor, unit_table(xor), tx), ty)) =~= t);
        assert(direct_spec(recipe_term(recipe_of(s), v0, v1), v0, v1) == Ok::<OneBasePartial, FactorizedSectionRefusal>(OneBasePartial::Stationary(t)));
    } else if s == 10 {
        assert(tx =~= t);
        assert(direct_spec(recipe_term(recipe_of(s), v0, v1), v0, v1) == Ok::<OneBasePartial, FactorizedSectionRefusal>(OneBasePartial::Stationary(t)));
    } else if s == 11 {
        lemma_bitwise_pair(or, x, negation(y), v0, v1, tx, ny);
        assert(op_table(or, op_table(or, unit_table(or), tx), ny) =~= t);
        assert(direct_spec(recipe_term(recipe_of(s), v0, v1), v0, v1) == Ok::<OneBasePartial, FactorizedSectionRefusal>(OneBasePartial::Stationary(t)));
    } else if s == 12 {
        assert(ty =~= t);
        assert(direct_spec(recipe_term(recipe_of(s), v0, v1), v0, v1) == Ok::<OneBasePartial, FactorizedSectionRefusal>(OneBasePartial::Stationary(t)));
    } else if s == 13 {
        lemma_bitwise_pair(or, negation(x), y, v0, v1, nx, ty);
        assert(op_table(or, op_table(or, unit_table(or), nx), ty) =~= t);
        assert(direct_spec(recipe_term(recipe_of(s), v0, v1), v0, v1) == Ok::<OneBasePartial, FactorizedSectionRefusal>(OneBasePartial::Stationary(t)));
    } else if s == 14 {
        lemma_bitwise_pair(or, x, y, v0, v1, tx, ty);
        assert(op_table(or, op_table(or, unit_table(or), tx), ty) =~= t);
        assert(direct_spec(recipe_term(recipe_of(s), v0, v1), v0, v1) == Ok::<OneBasePartial, FactorizedSectionRefusal>(OneBasePartial::Stationary(t)));
    } else {
        assert(t =~= [1u8, 1u8, 1u8, 1u8]);
        assert(direct_spec(recipe_term(recipe_of(s), v0, v1), v0, v1) == Ok::<OneBasePartial, FactorizedSectionRefusal>(OneBasePartial::Stationary(t)));
    }
}

/// What `render` names compiles back to the descriptor it was rendered
/// from: the direct compiler reads the rendered expression as a stationary
/// table whose description is the descriptor's `r0` and contributions.
pub proof fn lemma_render_round_trip(variables: [VarId; 2], r0: i128, epsilon: [i128; 3])
    requires
        variables[0].0 != variables[1].0,
        signature_spec(r0 as int, epsilon) is Some,
    ensures
        direct_spec(
            recipe_term(
                recipe_of(signature_spec(r0 as int, epsilon)->Some_0),
                variables[0].0,
                variables[1].0,
            ),
            variables[0].0,
            variables[1].0,
        ) matches Ok(OneBasePartial::Stationary(t)) && table_key(t) == (r0, epsilon),
{
    let s = signature_spec(r0 as int, epsilon)->Some_0;
    lemma_recipe_table(s, variables[0].0, variables[1].0);
    let t = signature_table(s);
    assert(table_key(t).1 =~= epsilon);
}


/// The term a descriptor renders to, when it has a signature.
pub open spec fn rendered(d: OneBaseDescriptor) -> Option<Term> {
    match signature_spec(d.r0 as int, d.epsilon_nonzero) {
        Some(s) => Some(recipe_term(recipe_of(s), d.variables[0].0, d.variables[1].0)),
        None => None,
    }
}

/// The fixed recipe for `source` on `width` bits, when the one-base
/// compiler describes it and the description is a bit table.
pub fn simplify(source: &Expr, width: u8) -> (r: Option<Expr>)
    ensures
        exists|d: Option<OneBaseDescriptor>|
            #[trigger] one_base_outcome(source@, width, d) && match d {
                Some(desc) => match rendered(desc) {
                    Some(t) => r matches Some(e) && e@ == t,
                    None => r is None,
                },
                None => r is None,
            },
        r matches Some(e) ==> match visit_spec(source@, 0, empty_analysis()) {
            Ok(an) => analysis_variables(an) is Some && forall|vars: Seq<u64>|
                #[trigger] eval(e@, vars) == eval(source@, vars),
            Err(_) => false,
        },
{
    let d = compile_one_base(source, width);
    let r = match d {
        Some(desc) => render(desc),
        None => None,
    };
    proof {
        assert(one_base_outcome(source@, width, d));
        if let Some(desc) = d {
            if r is Some {
                let e = r->Some_0;
                assert forall|x: u64, y: u64| #[trigger] eval(e@, operand_inputs(desc.variables, x, y)) == eval(
                    source@,
                    operand_inputs(desc.variables, x, y),
                ) by {
                    lemma_rendered_value(desc, x, y);
                    assert(word(desc.r0 + digit_sum(desc.epsilon_nonzero, x, y, 64)) == eval(
                        source@,
                        operand_inputs(desc.variables, x, y),
                    ));
                }
                let an = visit_spec(source@, 0, empty_analysis())->Ok_0;
                lemma_visit_facts(source@, 0, empty_analysis());
                let l = recorded_list(an);
                let (v0, v1) = (desc.variables[0].0, desc.variables[1].0);
                let lr = seq![v0, v1];
                lemma_recipe_vars(recipe_of(signature_spec(desc.r0 as int, desc.epsilon_nonzero)->Some_0), v0, v1);
                assert forall|vars: Seq<u64>| #[trigger] eval(e@, vars) == eval(source@, vars) by {
                    let x = var_value(vars, v0);
                    let y = var_value(vars, v1);
                    let ins = operand_inputs(desc.variables, x, y);
                    assert forall|v: usize| l.contains(v) implies #[trigger] var_value(vars, v) == var_value(ins, v) by {
                        let i = choose|i: int| 0 <= i < l.len() && l[i] == v;
                        assert(l[i] == an.variables[i]->Some_0.0);
                    }
                    assert forall|v: usize| lr.contains(v) implies #[trigger] var_value(vars, v) == var_value(ins, v) by {
                        let i = choose|i: int| 0 <= i < lr.len() && lr[i] == v;
                    }
                    lemma_eval_agree(source@, l, vars, ins);
                    lemma_eval_agree(e@, lr, vars, ins);
                }
            }
        }
    }
    r
}

/// A pair of terms over listed variables is over them.
proof fn lemma_pair_vars(a: Term, b: Term, l: Seq<usize>)
    requires
        vars_in(a, l),
        vars_in(b, l),
    ensures
        all_vars_in(seq![a, b], l),
{
    let s = seq![a, b];
    assert forall|i: int| 0 <= i < s.len() implies vars_in(#[trigger] s[i], l) by {
        if i == 0 {
            assert(s[i] == a);
        } else {
            assert(s[i] == b);
        }
    }
}

/// A recipe uses only the two variables.
proof fn lemma_recipe_vars(recipe: Recipe, v0: usize, v1: usize)
    ensures
        vars_in(recipe_term(recipe, v0, v1), seq![v0, v1]),
{
    let l = seq![v0, v1];
    assert(l[0] == v0 && l[1] == v1);
    assert(l.contains(v0));
    assert(l.contains(v1));
    let x = Term::Var(v0);
    let y = Term::Var(v1);
    assert(vars_in(x, l));
    assert(vars_in(y, l));
    assert(vars_in(negation(x), l));
    assert(vars_in(negation(y), l));
    lemma_pair_vars(x, y, l);
    lemma_pair_vars(x, negation(y), l);
    lemma_pair_vars(negation(x), y, l);
    assert(vars_in(Term::Or(seq![x, y]), l));
    assert(vars_in(Term::And(seq![x, y]), l));
    assert(vars_in(Term::Xor(seq![x, y]), l));
    assert(vars_in(negation(Term::Or(seq![x, y])), l));
    assert(vars_in(negation(Term::And(seq![x, y])), l));
    assert(vars_in(negation(Term::Xor(seq![x, y])), l));
    assert(vars_in(Term::And(seq![x, negation(y)]), l));
    assert(vars_in(Term::And(seq![negation(x), y]), l));
    assert(vars_in(Term::Or(seq![x, negation(y)]), l));
    assert(vars_in(Term::Or(seq![negation(x), y]), l));
}

/// A rendered descriptor has, for every pair of operands, the value its
/// constant and contributions describe.
pub proof fn lemma_rendered_value(d: OneBaseDescriptor, x: u64, y: u64)
    requires
        d.variables[0].0 != d.variables[1].0,
        rendered(d) is Some,
    ensures
        eval(rendered(d)->Some_0, operand_inputs(d.variables, x, y)) == word(
            d.r0 + digit_sum(d.epsilon_nonzero, x, y, 64),
        ),
{
    let (v0, v1) = (d.variables[0].0, d.variables[1].0);
    let t = rendered(d)->Some_0;
    lemma_render_round_trip(d.variables, d.r0, d.epsilon_nonzero);
    lemma_direct_sound(t, v0, v1, x, y);
    let p = direct_spec(t, v0, v1)->Ok_0;
    lemma_partial_value(p, eval(t, inputs(v0, v1, x, y)), x, y);
}

/// A recipe rendered from what the direct compiler reads of a source has
/// the source's value: on every pair of values of the two variables (all
/// other variables zero), the rendered expression and the source evaluate
/// to the same word.
pub proof fn lemma_simplify_direct_sound(t: Term, variables: [VarId; 2], x: u64, y: u64)
    requires
        variables[0].0 != variables[1].0,
        direct_spec(t, variables[0].0, variables[1].0) matches Ok(p) && partial_key(p) is Some,
        rendered(
            descriptor(
                variables,
                partial_key(direct_spec(t, variables[0].0, variables[1].0)->Ok_0)->Some_0,
                true,
            ),
        ) is Some,
    ensures
        eval(
            rendered(
                descriptor(
                    variables,
                    partial_key(direct_spec(t, variables[0].0, variables[1].0)->Ok_0)->Some_0,
                    true,
                ),
            )->Some_0,
            inputs(variables[0].0, variables[1].0, x, y),
        ) == eval(t, inputs(variables[0].0, variables[1].0, x, y)),
{
    let (v0, v1) = (variables[0].0, variables[1].0);
    let p = direct_spec(t, v0, v1)->Ok_0;
    let k = partial_key(p)->Some_0;
    let ins = inputs(v0, v1, x, y);
    lemma_direct_sound(t, v0, v1, x, y);
    lemma_partial_value(p, eval(t, ins), x, y);
    lemma_render_round_trip(variables, k.0, k.1);
    let e = recipe_term(recipe_of(signature_spec(k.0 as int, k.1)->Some_0), v0, v1);
    lemma_direct_sound(e, v0, v1, x, y);
    let pe = direct_spec(e, v0, v1)->Ok_0;
    lemma_partial_value(pe, eval(e, ins), x, y);
}

} // verus!
