//! The general compiler from a source to its section graph: sums and
//! exclusive ors are canonicalized first, stationary sources read off their
//! four boolean values, and every other node combines the graphs of its
//! operands.
use vstd::prelude::*;
use crate::expr::{Expr, Term, VarId, size, sizes, models, lemma_models_index, vars_below, lemma_fold_push, Op};
use crate::factorized_section::{
    Base, BaseGraph, BitwiseOperation, FactorizedSectionRefusal, graph_wf, children_wf, bases_closed, zero_base,
    quotient_by, product_explored, bitwise_explored, product_outcome, bitwise_outcome, scale_outcome,
    negate_outcome, scaled_bases, negated_bases, product_graph, bitwise_graph, scale_graph, negate_graph,
    signed_word, signed_word_spec,
};
use crate::canonical::{canonical_composition, canonical_composition_spec};
use crate::canonical_laws::{lemma_canonical_shrinks, lemma_canonical_vars};
use crate::stationary::{
    is_stationary, local_stationary, stationary_graph, coordinates_spec, stationary_base, max_variable,
};
use crate::source_analysis::MAX_SOURCE_NODES;
use crate::section_value::graph_total;
use crate::varint::word;
use crate::expr::eval;
use crate::graph_value::{
    operand_inputs,
    describes, bitwise_term, lemma_stationary_describes, lemma_const_describes, lemma_scale_describes,
    lemma_not_describes, lemma_sum_describes,
};
use crate::canonical_value::lemma_canonical_composition_value;

verus! {

/// `1` when `t` has a canonical form other than itself.
pub open spec fn recanonicalizes(t: Term) -> int {
    if canonical_composition_spec(t) is Some {
        1
    } else {
        0
    }
}

/// The variables of `t` can be read under the assignments of `variables`.
pub open spec fn vars_fit(t: Term, variables: [VarId; 2]) -> bool {
    max_variable(variables) + 1 <= MAX_SOURCE_NODES ==> vars_below(t, max_variable(variables) + 1)
}

/// The graph of the constant `value`: one base that contributes nothing,
/// offset by `value` read as a signed word.
pub open spec fn const_outcome(value: u64, r: Result<BaseGraph, FactorizedSectionRefusal>) -> bool {
    r matches Ok(g) && g.root == 0 && g.r0 == signed_word_spec(value) && g.bases@ == seq![zero_base()]
}

/// The graph of a stationary source: one base from its four boolean values.
pub open spec fn stationary_outcome(
    t: Term,
    variables: [VarId; 2],
    r: Result<BaseGraph, FactorizedSectionRefusal>,
) -> bool {
    match coordinates_spec(t, variables, 1) {
        Ok(c) => r matches Ok(g) && g.root == 0 && g.r0 == -((c[0] as u8) as int) && g.bases@ == seq![
            stationary_base(c),
        ],
        Err(e) => r == Err::<BaseGraph, FactorizedSectionRefusal>(e),
    }
}

/// `r` follows a child's result `rx` under a scaling by `c`: the scaled
/// graph, or the child's refusal.
pub open spec fn scaled(
    rx: Result<BaseGraph, FactorizedSectionRefusal>,
    c: u64,
    r: Result<BaseGraph, FactorizedSectionRefusal>,
) -> bool {
    match rx {
        Ok(g) => scale_outcome(g, signed_word_spec(c), r),
        Err(e) => r == Err::<BaseGraph, FactorizedSectionRefusal>(e),
    }
}

/// `r` follows a child's result `rx` under a complement: the complemented
/// graph, or the child's refusal.
pub open spec fn complemented(
    rx: Result<BaseGraph, FactorizedSectionRefusal>,
    r: Result<BaseGraph, FactorizedSectionRefusal>,
) -> bool {
    match rx {
        Ok(g) => negate_outcome(g, r),
        Err(e) => r == Err::<BaseGraph, FactorizedSectionRefusal>(e),
    }
}

/// `r` follows the operands' results `out` under a sum: their sum graph, or
/// the first refusal.
pub open spec fn summed(
    out: Result<Seq<BaseGraph>, FactorizedSectionRefusal>,
    r: Result<BaseGraph, FactorizedSectionRefusal>,
) -> bool {
    match out {
        Ok(gs) => product_outcome(gs, r),
        Err(e) => r == Err::<BaseGraph, FactorizedSectionRefusal>(e),
    }
}

/// `r` follows the operands' results `out` under a bitwise `operation`:
/// their combined graph, or the first refusal.
pub open spec fn combined(
    operation: BitwiseOperation,
    out: Result<Seq<BaseGraph>, FactorizedSectionRefusal>,
    r: Result<BaseGraph, FactorizedSectionRefusal>,
) -> bool {
    match out {
        Ok(gs) => bitwise_outcome(operation, gs, r),
        Err(e) => r == Err::<BaseGraph, FactorizedSectionRefusal>(e),
    }
}

/// The record of one compilation: its result and the records of the
/// compilations it made first, in order.
pub struct Trace {
    pub result: Result<BaseGraph, FactorizedSectionRefusal>,
    pub parts: Seq<Trace>,
}

/// Every record of `parts` succeeded.
pub open spec fn all_succeeded(parts: Seq<Trace>) -> bool {
    forall|i: int| 0 <= i < parts.len() ==> (#[trigger] parts[i]).result is Ok
}

/// The graphs of the records of `parts`.
pub open spec fn part_graphs(parts: Seq<Trace>) -> Seq<BaseGraph> {
    Seq::new(parts.len(), |i: int| parts[i].result->Ok_0)
}

/// What a list of records gives: the refusal of the last one when it was
/// refused, else all their graphs.
pub open spec fn parts_outcome(parts: Seq<Trace>) -> Result<Seq<BaseGraph>, FactorizedSectionRefusal> {
    if parts.len() > 0 && parts.last().result is Err {
        Err(parts.last().result->Err_0)
    } else {
        Ok(part_graphs(parts))
    }
}

/// `tr` records compiling `t` over `variables`: the canonical form of a sum
/// or exclusive or is compiled in its place; a stationary source gives its
/// one-base graph; a constant its constant graph; a scaling, a complement,
/// a sum and a bitwise node combine the graphs of their operands, and the
/// first refusal among those is the result; a product and a variable that
/// is not stationary are refused.
pub open spec fn traced(t: Term, variables: [VarId; 2], tr: Trace) -> bool
    decreases size(t), recanonicalizes(t),
{
    match canonical_composition_spec(t) {
        Some(canonical) => {
            proof {
                lemma_canonical_shrinks(t);
            }
            tr.parts.len() == 1 && traced(canonical, variables, tr.parts[0]) && tr.result == tr.parts[0].result
        },
        None => if is_stationary(t) {
            stationary_outcome(t, variables, tr.result)
        } else {
            match t {
                Term::Const(value) => const_outcome(value, tr.result),
                Term::Add(ts) => traced_list(ts, variables, tr.parts) && summed(parts_outcome(tr.parts), tr.result),
                Term::Scale(k, x) => tr.parts.len() == 1 && traced(*x, variables, tr.parts[0]) && scaled(
                    tr.parts[0].result,
                    k,
                    tr.result,
                ),
                Term::Not(x) => tr.parts.len() == 1 && traced(*x, variables, tr.parts[0]) && complemented(
                    tr.parts[0].result,
                    tr.result,
                ),
                Term::And(ts) => traced_list(ts, variables, tr.parts) && combined(
                    BitwiseOperation::And,
                    parts_outcome(tr.parts),
                    tr.result,
                ),
                Term::Or(ts) => traced_list(ts, variables, tr.parts) && combined(
                    BitwiseOperation::Or,
                    parts_outcome(tr.parts),
                    tr.result,
                ),
                Term::Xor(ts) => traced_list(ts, variables, tr.parts) && combined(
                    BitwiseOperation::Xor,
                    parts_outcome(tr.parts),
                    tr.result,
                ),
                Term::Mul(_) => tr.result == Err::<BaseGraph, FactorizedSectionRefusal>(
                    FactorizedSectionRefusal::UnsupportedMultiplication,
                ),
                Term::Var(_) => tr.result == Err::<BaseGraph, FactorizedSectionRefusal>(
                    FactorizedSectionRefusal::UnsupportedNode,
                ),
            }
        },
    }
}

/// `parts` records compiling the terms of `ts` from left to right up to the
/// first refusal: one record per term when all but the last succeeded,
/// else fewer records ending in a refusal.
pub open spec fn traced_list(ts: Seq<Term>, variables: [VarId; 2], parts: Seq<Trace>) -> bool
    decreases sizes(ts), 2int,
{
    if ts.len() == 0 {
        parts.len() == 0
    } else {
        proof {
            assert(size(ts.last()) >= 1);
        }
        if parts.len() == ts.len() {
            &&& all_succeeded(parts.drop_last())
            &&& traced_list(ts.drop_last(), variables, parts.drop_last())
            &&& traced(ts.last(), variables, parts.last())
        } else {
            &&& parts.len() < ts.len()
            &&& traced_list(ts.drop_last(), variables, parts)
            &&& parts.len() > 0
            &&& parts.last().result is Err
        }
    }
}

/// `r` is a result of compiling `t` over `variables`.
pub open spec fn compiled(t: Term, variables: [VarId; 2], r: Result<BaseGraph, FactorizedSectionRefusal>) -> bool {
    exists|tr: Trace| #[trigger] traced(t, variables, tr) && tr.result == r
}

/// A quotient of a graph whose transitions stay among its states has bases
/// and is closed.
proof fn lemma_quotient_wf(epsilon: Seq<[i128; 3]>, tau: Seq<[usize; 4]>, bases: Seq<Base>, phi: Seq<int>)
    requires
        quotient_by(epsilon, tau, 0, bases, phi),
        epsilon.len() > 0,
        forall|k: int, a: int| 0 <= k < epsilon.len() && 0 <= a < 4 ==> #[trigger] tau[k]@[a] < epsilon.len(),
    ensures
        bases.len() > 0,
        bases_closed(bases),
{
    assert(0 <= phi[0] < bases.len());
    assert forall|i: int, a: int| 0 <= i < bases.len() && 0 <= a < 4 implies #[trigger] bases[i].tau@[a] < bases.len() by {
        assert(phi.contains(i));
        let s = choose|s: int| 0 <= s < phi.len() && phi[s] == i;
        assert(bases[phi[s]].tau@[a] == phi[tau[s]@[a] as int]);
        assert(tau[s]@[a] < epsilon.len());
    }
}

/// A sum graph is well formed.
pub proof fn lemma_product_wf(children: Seq<BaseGraph>, r: Result<BaseGraph, FactorizedSectionRefusal>)
    requires
        product_outcome(children, r),
    ensures
        r matches Ok(g) ==> graph_wf(g),
{
    if let Ok(g) = r {
        let (tuples, epsilon, tau, phi) = choose|
            tuples: Seq<Seq<usize>>,
            epsilon: Seq<[i128; 3]>,
            tau: Seq<[usize; 4]>,
            phi: Seq<int>,
        | product_explored(children, tuples, epsilon, tau) && quotient_by(epsilon, tau, 0, g.bases@, phi);
        lemma_quotient_wf(epsilon, tau, g.bases@, phi);
    }
}

/// A bitwise graph is well formed.
proof fn lemma_bitwise_wf(
    operation: BitwiseOperation,
    children: Seq<BaseGraph>,
    r: Result<BaseGraph, FactorizedSectionRefusal>,
)
    requires
        bitwise_outcome(operation, children, r),
    ensures
        r matches Ok(g) ==> graph_wf(g),
{
    if let Ok(g) = r {
        let (states, epsilon, tau, phi) = choose|
            states: Seq<Seq<crate::factorized_section::DigitCursor>>,
            epsilon: Seq<[i128; 3]>,
            tau: Seq<[usize; 4]>,
            phi: Seq<int>,
        | bitwise_explored(operation, children, states, epsilon, tau) && quotient_by(epsilon, tau, 0, g.bases@, phi);
        lemma_quotient_wf(epsilon, tau, g.bases@, phi);
    }
}

/// Scaling keeps a graph well formed.
proof fn lemma_scale_wf(graph: BaseGraph, c: int, r: Result<BaseGraph, FactorizedSectionRefusal>)
    requires
        graph_wf(graph),
        scale_outcome(graph, c, r),
    ensures
        r matches Ok(g) ==> graph_wf(g),
{
    if let Ok(g) = r {
        if c == 0 {
            assert(g.bases@[0] == zero_base());
        } else {
            assert forall|i: int, a: int| 0 <= i < g.bases@.len() && 0 <= a < 4 implies #[trigger] g.bases@[i].tau@[a]
                < g.bases@.len() by {
                assert(g.bases@[i].tau == graph.bases@[i].tau);
            }
        }
    }
}

/// Complementing keeps a graph well formed.
proof fn lemma_negate_wf(graph: BaseGraph, r: Result<BaseGraph, FactorizedSectionRefusal>)
    requires
        graph_wf(graph),
        negate_outcome(graph, r),
    ensures
        r matches Ok(g) ==> graph_wf(g),
{
    if let Ok(g) = r {
        assert forall|i: int, a: int| 0 <= i < g.bases@.len() && 0 <= a < 4 implies #[trigger] g.bases@[i].tau@[a]
            < g.bases@.len() by {
            assert(g.bases@[i].tau == graph.bases@[i].tau);
        }
    }
}

/// A term of a list has no more nodes than the list.
proof fn lemma_size_in_sizes(ts: Seq<Term>, i: int)
    requires
        0 <= i < ts.len(),
    ensures
        size(ts[i]) <= sizes(ts),
    decreases ts.len(),
{
    if i < ts.len() - 1 {
        lemma_size_in_sizes(ts.drop_last(), i);
        assert(ts.drop_last()[i] == ts[i]);
    }
}

/// A refusal recorded among the first terms is the record of the whole
/// list.
proof fn lemma_list_refusal(ts: Seq<Term>, k: int, variables: [VarId; 2], parts: Seq<Trace>)
    requires
        0 < k <= ts.len(),
        parts.len() == k,
        traced_list(ts.take(k), variables, parts),
        parts.last().result is Err,
    ensures
        traced_list(ts, variables, parts),
    decreases ts.len() - k,
{
    if k == ts.len() {
        assert(ts.take(k) =~= ts);
    } else {
        let next = ts.take(k + 1);
        assert(next.drop_last() =~= ts.take(k));
        assert(traced_list(next, variables, parts));
        lemma_list_refusal_more(ts, k + 1, variables, parts);
    }
}

/// A refusal recorded among the first terms stays the record of longer
/// prefixes.
proof fn lemma_list_refusal_more(ts: Seq<Term>, k: int, variables: [VarId; 2], parts: Seq<Trace>)
    requires
        0 < parts.len() < k <= ts.len(),
        traced_list(ts.take(k), variables, parts),
        parts.last().result is Err,
    ensures
        traced_list(ts, variables, parts),
    decreases ts.len() - k,
{
    if k == ts.len() {
        assert(ts.take(k) =~= ts);
    } else {
        let next = ts.take(k + 1);
        assert(next.drop_last() =~= ts.take(k));
        assert(traced_list(next, variables, parts));
        lemma_list_refusal_more(ts, k + 1, variables, parts);
    }
}

/// Compiles the source `expression` over `variables` into its section graph.
pub fn compile_graph(expression: &Expr, variables: [VarId; 2]) -> (r: Result<BaseGraph, FactorizedSectionRefusal>)
    requires
        vars_fit(expression@, variables),
    ensures
        compiled(expression@, variables, r),
        r matches Ok(g) ==> graph_wf(g),
        variables[0].0 != variables[1].0 ==> (r matches Ok(g) ==> describes(g, expression@, variables)),
    decreases size(expression@), recanonicalizes(expression@),
{
    if let Some(canonical) = canonical_composition(expression) {
        proof {
            lemma_canonical_shrinks(expression@);
            if max_variable(variables) + 1 <= MAX_SOURCE_NODES {
                lemma_canonical_vars(expression@, max_variable(variables) + 1);
            }
        }
        let r = compile_graph(&canonical, variables);
        proof {
            let tc = choose|tr: Trace| traced(canonical@, variables, tr) && tr.result == r;
            let tr = Trace { result: r, parts: seq![tc] };
            assert(traced(expression@, variables, tr));
            if variables[0].0 != variables[1].0 && r is Ok {
                let g = r->Ok_0;
                assert forall|x: u64, y: u64| #[trigger] word(graph_total(g, x, y)) == eval(
                    expression@,
                    operand_inputs(variables, x, y),
                ) by {
                    lemma_canonical_composition_value(expression@, operand_inputs(variables, x, y));
                    assert(word(graph_total(g, x, y)) == eval(canonical@, operand_inputs(variables, x, y)));
                }
            }
        }
        return r;
    }
    if local_stationary(expression) {
        let r = stationary_graph(expression, variables);
        proof {
            if r is Ok {
                assert(r->Ok_0.bases@[0].tau == [0usize, 0usize, 0usize, 0usize]);
            }
            assert(traced(expression@, variables, Trace { result: r, parts: Seq::empty() }));
            if variables[0].0 != variables[1].0 && r is Ok {
                let g = r->Ok_0;
                assert forall|x: u64, y: u64| #[trigger] word(graph_total(g, x, y)) == eval(
                    expression@,
                    operand_inputs(variables, x, y),
                ) by {
                    lemma_stationary_describes(expression@, variables, g, x, y);
                }
            }
        }
        return r;
    }
    match expression {
        Expr::Const(value) => {
            let bases = vec![Base { epsilon_nonzero: [0, 0, 0], tau: [0, 0, 0, 0] }];
            proof {
                assert(bases@ =~= seq![zero_base()]);
            }
            let r = Ok(BaseGraph { bases, root: 0, r0: signed_word(*value) });
            proof {
                assert(traced(expression@, variables, Trace { result: r, parts: Seq::empty() }));
                lemma_const_describes(*value, r->Ok_0, variables);
            }
            r
        },
        Expr::Add(children) => {
            let rs = compile_children(children, variables);
            let ghost parts = choose|parts: Seq<Trace>|
                traced_list(models(children@), variables, parts) && parts_outcome(parts) == children_outcome(rs);
            let graphs = match rs {
                Ok(graphs) => graphs,
                Err(e) => {
                    proof {
                        assert(traced(expression@, variables, Trace { result: Err(e), parts }));
                    }
                    return Err(e);
                },
            };
            let r = product_graph(graphs.as_slice());
            proof {
                lemma_product_wf(graphs@, r);
                assert(traced(expression@, variables, Trace { result: r, parts }));
                if variables[0].0 != variables[1].0 && r is Ok {
                    lemma_models_index(children@);
                    lemma_sum_describes(models(children@), graphs@, r->Ok_0, variables);
                }
            }
            r
        },
        Expr::Scale(coefficient, child) => {
            let rx = compile_graph(child, variables);
            let ghost tc = choose|tr: Trace| traced(child@, variables, tr) && tr.result == rx;
            let g = match rx {
                Ok(g) => g,
                Err(e) => {
                    proof {
                        assert(traced(expression@, variables, Trace { result: Err(e), parts: seq![tc] }));
                    }
                    return Err(e);
                },
            };
            let ghost g0 = g;
            let c = signed_word(*coefficient);
            let r = scale_graph(g, c);
            proof {
                lemma_scale_wf(g0, c as int, r);
                assert(traced(expression@, variables, Trace { result: r, parts: seq![tc] }));
                if variables[0].0 != variables[1].0 && r is Ok {
                    lemma_scale_describes(*coefficient, child@, g0, r->Ok_0, variables);
                }
            }
            r
        },
        Expr::Not(child) => {
            let rx = compile_graph(child, variables);
            let ghost tc = choose|tr: Trace| traced(child@, variables, tr) && tr.result == rx;
            let g = match rx {
                Ok(g) => g,
                Err(e) => {
                    proof {
                        assert(traced(expression@, variables, Trace { result: Err(e), parts: seq![tc] }));
                    }
                    return Err(e);
                },
            };
            let ghost g0 = g;
            let r = negate_graph(g);
            proof {
                lemma_negate_wf(g0, r);
                assert(traced(expression@, variables, Trace { result: r, parts: seq![tc] }));
                if variables[0].0 != variables[1].0 && r is Ok {
                    lemma_not_describes(child@, g0, r->Ok_0, variables);
                }
            }
            r
        },
        Expr::And(children) => {
            let r = compile_bitwise_children(BitwiseOperation::And, children, variables);
            proof {
                let parts = choose|parts: Seq<Trace>|
                    traced_list(models(children@), variables, parts) && combined(
                        BitwiseOperation::And,
                        parts_outcome(parts),
                        r,
                    );
                assert(traced(expression@, variables, Trace { result: r, parts }));
                assert(bitwise_term(BitwiseOperation::And, models(children@)) == expression@);
            }
            r
        },
        Expr::Or(children) => {
            let r = compile_bitwise_children(BitwiseOperation::Or, children, variables);
            proof {
                let parts = choose|parts: Seq<Trace>|
                    traced_list(models(children@), variables, parts) && combined(
                        BitwiseOperation::Or,
                        parts_outcome(parts),
                        r,
                    );
                assert(traced(expression@, variables, Trace { result: r, parts }));
                assert(bitwise_term(BitwiseOperation::Or, models(children@)) == expression@);
            }
            r
        },
        Expr::Xor(children) => {
            let r = compile_bitwise_children(BitwiseOperation::Xor, children, variables);
            proof {
                let parts = choose|parts: Seq<Trace>|
                    traced_list(models(children@), variables, parts) && combined(
                        BitwiseOperation::Xor,
                        parts_outcome(parts),
                        r,
                    );
                assert(traced(expression@, variables, Trace { result: r, parts }));
                assert(bitwise_term(BitwiseOperation::Xor, models(children@)) == expression@);
            }
            r
        },
        Expr::Mul(_) => {
            let r = Err(FactorizedSectionRefusal::UnsupportedMultiplication);
            proof {
                assert(traced(expression@, variables, Trace { result: r, parts: Seq::empty() }));
            }
            r
        },
        Expr::Var(_) => {
            let r = Err(FactorizedSectionRefusal::UnsupportedNode);
            proof {
                assert(traced(expression@, variables, Trace { result: r, parts: Seq::empty() }));
            }
            r
        },
    }
}

/// The results of compiling operands, as a result over their graphs.
pub open spec fn children_outcome(r: Result<Vec<BaseGraph>, FactorizedSectionRefusal>) -> Result<
    Seq<BaseGraph>,
    FactorizedSectionRefusal,
> {
    match r {
        Ok(gs) => Ok(gs@),
        Err(e) => Err(e),
    }
}

/// Compiles every operand and combines their graphs bit by bit.
pub fn compile_bitwise_children(operation: BitwiseOperation, children: &Vec<Expr>, variables: [VarId; 2]) -> (r: Result<
    BaseGraph,
    FactorizedSectionRefusal,
>)
    requires
        max_variable(variables) + 1 <= MAX_SOURCE_NODES ==> crate::expr::all_vars_below(
            models(children@),
            max_variable(variables) + 1,
        ),
    ensures
        exists|parts: Seq<Trace>|
            #[trigger] traced_list(models(children@), variables, parts) && combined(
                operation,
                parts_outcome(parts),
                r,
            ),
        r matches Ok(g) ==> graph_wf(g),
        variables[0].0 != variables[1].0 ==> (r matches Ok(g) ==> describes(
            g,
            bitwise_term(operation, models(children@)),
            variables,
        )),
    decreases sizes(models(children@)), 3int,
{
    let rs = compile_children(children, variables);
    let ghost parts = choose|parts: Seq<Trace>|
        traced_list(models(children@), variables, parts) && parts_outcome(parts) == children_outcome(rs);
    let graphs = match rs {
        Ok(graphs) => graphs,
        Err(e) => {
            proof {
                assert(combined(operation, parts_outcome(parts), Err(e)));
            }
            return Err(e);
        },
    };
    let r = bitwise_graph(operation, graphs.as_slice());
    proof {
        lemma_bitwise_wf(operation, graphs@, r);
        assert(combined(operation, parts_outcome(parts), r));
        if variables[0].0 != variables[1].0 && r is Ok {
            lemma_models_index(children@);
            crate::graph_value::lemma_bitwise_describes(operation, models(children@), graphs@, r->Ok_0, variables);
        }
    }
    r
}

/// Compiles the operands from left to right, stopping at the first refusal.
pub(crate) fn compile_children(children: &Vec<Expr>, variables: [VarId; 2]) -> (r: Result<
    Vec<BaseGraph>,
    FactorizedSectionRefusal,
>)
    requires
        max_variable(variables) + 1 <= MAX_SOURCE_NODES ==> crate::expr::all_vars_below(
            models(children@),
            max_variable(variables) + 1,
        ),
    ensures
        exists|parts: Seq<Trace>|
            #[trigger] traced_list(models(children@), variables, parts) && parts_outcome(parts) == children_outcome(r),
        r matches Ok(gs) ==> children_wf(gs@),
        r matches Ok(gs) ==> gs@.len() == children@.len(),
        variables[0].0 != variables[1].0 ==> (r matches Ok(gs) ==> forall|j: int|
            0 <= j < gs@.len() ==> #[trigger] describes(gs@[j], models(children@)[j], variables)),
    decreases sizes(models(children@)), 2int,
{
    let ghost m = models(children@);
    proof {
        lemma_models_index(children@);
        assert(m.take(0) =~= Seq::<Term>::empty());
    }
    let mut graphs: Vec<BaseGraph> = Vec::new();
    let ghost mut parts: Seq<Trace> = Seq::empty();
    let mut i: usize = 0;
    while i < children.len()
        invariant
            i <= children.len(),
            m == models(children@),
            m.len() == children.len(),
            forall|k: int| 0 <= k < children.len() ==> #[trigger] m[k] == children@[k]@,
            max_variable(variables) + 1 <= MAX_SOURCE_NODES ==> crate::expr::all_vars_below(
                m,
                max_variable(variables) + 1,
            ),
            parts.len() == i,
            traced_list(m.take(i as int), variables, parts),
            all_succeeded(parts),
            graphs@ == part_graphs(parts),
            children_wf(graphs@),
            graphs@.len() == i,
            variables[0].0 != variables[1].0 ==> forall|k: int|
                0 <= k < graphs@.len() ==> #[trigger] describes(graphs@[k], m[k], variables),
        decreases children.len() - i,
    {
        proof {
            lemma_size_in_sizes(m, i as int);
            assert(m[i as int] == children@[i as int]@);
            if max_variable(variables) + 1 <= MAX_SOURCE_NODES {
                assert(vars_below(m[i as int], max_variable(variables) + 1));
            }
        }
        let rl = compile_graph(&children[i], variables);
        let ghost tc = choose|tr: Trace| traced(m[i as int], variables, tr) && tr.result == rl;
        let ghost next = m.take(i + 1);
        let ghost parts2 = parts.push(tc);
        proof {
            assert(next.drop_last() =~= m.take(i as int));
            assert(next.last() == m[i as int]);
            assert(parts2.drop_last() =~= parts);
            assert(traced_list(next, variables, parts2));
        }
        match rl {
            Ok(g) => {
                let ghost before = graphs@;
                graphs.push(g);
                proof {
                    parts = parts2;
                    assert forall|k: int| 0 <= k < graphs@.len() implies graph_wf(#[trigger] graphs@[k]) by {
                        if k < before.len() {
                            assert(graphs@[k] == before[k]);
                        }
                    }
                    if variables[0].0 != variables[1].0 {
                        assert forall|k: int| 0 <= k < graphs@.len() implies #[trigger] describes(
                            graphs@[k],
                            m[k],
                            variables,
                        ) by {
                            if k < before.len() {
                                assert(graphs@[k] == before[k]);
                            }
                        }
                    }
                    assert(graphs@ =~= part_graphs(parts));
                }
            },
            Err(e) => {
                proof {
                    lemma_list_refusal(m, i + 1, variables, parts2);
                    assert(parts_outcome(parts2) == children_outcome(Err::<Vec<BaseGraph>, FactorizedSectionRefusal>(e)));
                }
                return Err(e);
            },
        }
        i += 1;
    }
    proof {
        assert(m.take(i as int) =~= m);
        assert(parts_outcome(parts) == children_outcome(Ok::<Vec<BaseGraph>, FactorizedSectionRefusal>(graphs)));
    }
    Ok(graphs)
}

} // verus!
