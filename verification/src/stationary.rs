//! Sources whose section is stationary: a bitwise combination of the two
//! variables and the constants 0 and all-ones reads each digit alone, so its
//! section is one base given by the source's value on the four boolean
//! assignments.
use vstd::prelude::*;
use crate::expr::{Expr, Term, VarId, eval, lemma_models_index, models, vars_below};
use crate::factorized_section::{Base, BaseGraph, FactorizedSectionRefusal};
use crate::source_analysis::MAX_SOURCE_NODES;
use crate::varint::{make_mask, mask_of};

verus! {

/// `t` combines variables and the constants 0 and all-ones by complement,
/// and, or and xor alone.
pub open spec fn is_stationary(t: Term) -> bool
    decreases t,
{
    match t {
        Term::Var(_) => true,
        Term::Const(c) => c == 0 || c == u64::MAX,
        Term::Not(x) => is_stationary(*x),
        Term::And(ts) => all_stationary(ts),
        Term::Or(ts) => all_stationary(ts),
        Term::Xor(ts) => all_stationary(ts),
        Term::Add(_) => false,
        Term::Mul(_) => false,
        Term::Scale(_, _) => false,
    }
}

/// Every term of `ts` is stationary.
pub open spec fn all_stationary(ts: Seq<Term>) -> bool
    decreases ts,
{
    forall|i: int| 0 <= i < ts.len() ==> is_stationary(#[trigger] ts[i])
}

/// Whether the expression is stationary.
pub fn local_stationary(expression: &Expr) -> (r: bool)
    ensures
        r == is_stationary(expression@),
    decreases expression,
{
    match expression {
        Expr::Var(_) => true,
        Expr::Const(value) => *value == 0 || *value == u64::MAX,
        Expr::Not(child) => local_stationary(child),
        Expr::And(children) => all_local_stationary(children),
        Expr::Or(children) => all_local_stationary(children),
        Expr::Xor(children) => all_local_stationary(children),
        _ => false,
    }
}

/// Whether every operand is stationary.
fn all_local_stationary(children: &Vec<Expr>) -> (r: bool)
    ensures
        r == all_stationary(models(children@)),
    decreases children,
{
    proof {
        lemma_models_index(children@);
    }
    let mut i: usize = 0;
    while i < children.len()
        invariant
            i <= children.len(),
            models(children@).len() == children.len(),
            forall|k: int| 0 <= k < children.len() ==> #[trigger] models(children@)[k] == children@[k]@,
            forall|k: int| 0 <= k < i ==> is_stationary(#[trigger] models(children@)[k]),
        decreases children.len() - i,
    {
        if !local_stationary(&children[i]) {
            proof {
                assert(!is_stationary(models(children@)[i as int]));
            }
            return false;
        }
        i += 1;
    }
    true
}

/// The coefficient and the base of `t` once its outer scalings are folded
/// into one wrapping coefficient.
pub open spec fn split_scale_spec(t: Term) -> (u64, Term)
    decreases t,
{
    match t {
        Term::Scale(c, x) => {
            let (nested, base) = split_scale_spec(*x);
            (c.wrapping_mul(nested), base)
        },
        _ => (1u64, t),
    }
}

/// Folds the outer scalings of `expression` into one coefficient.
pub fn split_scale(expression: &Expr) -> (r: (u64, Expr))
    ensures
        r.0 == split_scale_spec(expression@).0,
        r.1@ == split_scale_spec(expression@).1,
    decreases expression,
{
    match expression {
        Expr::Scale(coefficient, child) => {
            let (nested, base) = split_scale(child);
            (coefficient.wrapping_mul(nested), base)
        },
        _ => (1, crate::expr::clone_expr(expression)),
    }
}

/// The larger index of the two variables.
pub open spec fn max_variable(variables: [VarId; 2]) -> nat {
    if variables[0].0 < variables[1].0 {
        variables[1].0 as nat
    } else {
        variables[0].0 as nat
    }
}

/// The inputs of boolean assignment `a`: the first variable is bit 0 of
/// `a`, the second bit 1, every other input of the `len` is 0.
pub open spec fn boolean_inputs(variables: [VarId; 2], a: int, len: nat) -> Seq<u64> {
    Seq::new(
        len,
        |k: int|
            if k == variables[1].0 {
                (if a / 2 % 2 == 1 { 1u64 } else { 0u64 })
            } else if k == variables[0].0 {
                (if a % 2 == 1 { 1u64 } else { 0u64 })
            } else {
                0u64
            },
    )
}

/// The value of the source on each boolean assignment, on `width` bits; the
/// inputs run up to the larger variable, refused past `MAX_SOURCE_NODES`.
pub open spec fn coordinates_spec(t: Term, variables: [VarId; 2], width: u8) -> Result<
    [u64; 4],
    FactorizedSectionRefusal,
> {
    let len = max_variable(variables) + 1;
    if len > MAX_SOURCE_NODES {
        Err(FactorizedSectionRefusal::SourceBudgetExceeded)
    } else {
        Ok(
            [
                eval(t, boolean_inputs(variables, 0, len)) & mask_of(width as nat),
                eval(t, boolean_inputs(variables, 1, len)) & mask_of(width as nat),
                eval(t, boolean_inputs(variables, 2, len)) & mask_of(width as nat),
                eval(t, boolean_inputs(variables, 3, len)) & mask_of(width as nat),
            ],
        )
    }
}

/// The source's value on the four boolean assignments of the two
/// variables.
pub fn boolean_coordinates(expression: &Expr, variables: [VarId; 2], width: u8) -> (r: Result<
    [u64; 4],
    FactorizedSectionRefusal,
>)
    requires
        max_variable(variables) + 1 <= MAX_SOURCE_NODES ==> vars_below(expression@, max_variable(variables) + 1),
    ensures
        r == coordinates_spec(expression@, variables, width),
{
    let max = if variables[0].0 < variables[1].0 { variables[1].0 } else { variables[0].0 };
    if max >= MAX_SOURCE_NODES {
        return Err(FactorizedSectionRefusal::SourceBudgetExceeded);
    }
    let len = max + 1;
    let mut inputs: Vec<u64> = Vec::new();
    let mut i: usize = 0;
    while i < len
        invariant
            i <= len,
            inputs@ == Seq::new(i as nat, |k: int| 0u64),
        decreases len - i,
    {
        inputs.push(0);
        proof {
            assert(inputs@ =~= Seq::new((i + 1) as nat, |k: int| 0u64));
        }
        i += 1;
    }
    let mask = make_mask(width);
    let mut coordinates: [u64; 4] = [0, 0, 0, 0];
    let mut a: usize = 0;
    while a < 4
        invariant
            a <= 4,
            len == max_variable(variables) + 1,
            len <= MAX_SOURCE_NODES,
            inputs.len() == len,
            forall|k: int| 0 <= k < len && k != variables[0].0 && k != variables[1].0 ==> inputs@[k] == 0,
            vars_below(expression@, len as nat),
            mask == mask_of(width as nat),
            forall|q: int|
                0 <= q < a ==> coordinates[q] == eval(expression@, boolean_inputs(variables, q, len as nat)) & mask,
        decreases 4 - a,
    {
        inputs.set(variables[0].0, if a & 1 != 0 { 1 } else { 0 });
        inputs.set(variables[1].0, if a & 2 != 0 { 1 } else { 0 });
        proof {
            assert(a & 1 != 0 <==> a % 2 == 1) by (bit_vector)
                requires
                    a < 4,
            ;
            assert(a & 2 != 0 <==> a / 2 % 2 == 1) by (bit_vector)
                requires
                    a < 4,
            ;
            assert(inputs@ =~= boolean_inputs(variables, a as int, len as nat));
        }
        let value = expression.eval(inputs.as_slice(), width);
        coordinates[a] = value & mask;
        proof {
            let v = eval(expression@, boolean_inputs(variables, a as int, len as nat));
            let m = mask_of(width as nat);
            assert(v & m & m == v & m) by (bit_vector);
        }
        a += 1;
    }
    proof {
        assert(coordinates =~= coordinates_spec(expression@, variables, width)->Ok_0);
    }
    Ok(coordinates)
}

/// The base of a stationary source with values `c` on the four
/// assignments: each symbol contributes its value less the value on
/// symbol 0, and every symbol stays on the base.
pub open spec fn stationary_base(c: [u64; 4]) -> Base {
    let t0 = (c[0] as u8) as int;
    Base {
        epsilon_nonzero: [
            ((c[1] as u8) as int - t0) as i128,
            ((c[2] as u8) as int - t0) as i128,
            ((c[3] as u8) as int - t0) as i128,
        ],
        tau: [0usize, 0usize, 0usize, 0usize],
    }
}

/// The one-base graph of a stationary source, from its one-bit values on
/// the four assignments; the constant is minus the value on symbol 0.
pub fn stationary_graph(expression: &Expr, variables: [VarId; 2]) -> (r: Result<BaseGraph, FactorizedSectionRefusal>)
    requires
        max_variable(variables) + 1 <= MAX_SOURCE_NODES ==> vars_below(expression@, max_variable(variables) + 1),
    ensures
        match coordinates_spec(expression@, variables, 1) {
            Ok(c) => r matches Ok(g) && g.root == 0 && g.r0 == -((c[0] as u8) as int) && g.bases@ == seq![
                stationary_base(c),
            ],
            Err(e) => r == Err::<BaseGraph, FactorizedSectionRefusal>(e),
        },
{
    let c = match boolean_coordinates(expression, variables, 1) {
        Ok(c) => c,
        Err(e) => {
            return Err(e);
        },
    };
    let t0 = c[0] as u8 as i128;
    let base = Base {
        epsilon_nonzero: [c[1] as u8 as i128 - t0, c[2] as u8 as i128 - t0, c[3] as u8 as i128 - t0],
        tau: [0, 0, 0, 0],
    };
    let ghost b = base;
    let bases = vec![base];
    proof {
        assert(b == stationary_base(c));
        assert(bases@ =~= seq![stationary_base(c)]);
    }
    Ok(BaseGraph { bases, root: 0, r0: -t0 })
}

} // verus!
