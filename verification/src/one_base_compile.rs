//! Entry points of the one-base compiler: the direct compiler first, the
//! general graph compiler where it cannot tell, and the check of a
//! candidate's scalars against those of a source.
use vstd::prelude::*;
use crate::expr::{Expr, Term, VarId, vars_below, all_vars_below, vars_in, all_vars_in, models, lemma_models_index};
use crate::factorized_section::{
    BaseGraph, FactorizedSectionRefusal, OneBasePartial, OneBaseKey, SectionScalars, graph_wf, children_wf,
    stays_at_root, product_outcome, product_graph, normalize_scalars, graph_one_base_key, one_base_from_table,
};
use crate::one_base::{compile_one_base_direct, direct_spec, partial_key};
use crate::fsc_frontend::OneBaseDescriptor;
use crate::source_analysis::{
    SourceAnalysis, MAX_SOURCE_NODES, analyze_source, analyzed_variables, variables_valid, visit_spec,
    empty_analysis, recorded_list, lemma_analysis_counts, contains_mul, lemma_visit_facts,
};
use crate::stationary::max_variable;
use crate::canonical::{canonical_composition, canonical_composition_spec};
use crate::canonical_laws::{lemma_canonical_shrinks, lemma_canonical_vars};
use crate::graph_compile::{
    Trace, traced, traced_list, parts_outcome, compiled, vars_fit, recanonicalizes, compile_graph,
    compile_children, children_outcome,
};
use crate::linear_add::{linear_add_match, linear_add_spec};
use crate::expr::size;

use crate::graph_value::{
    key_describes, lemma_root_key_describes,
    scalars_describe, lemma_single_base_describes, lemma_scalars_corners, describes, operand_inputs, lemma_sum_describes,
};
use crate::canonical_value::lemma_canonical_composition_value;
use crate::one_base_sound::{lemma_direct_sound, lemma_partial_value, digit_sum};
use crate::stationary::boolean_inputs;
use crate::varint::word;
use crate::expr::eval;

verus! {

/// The only word width the one-base compiler works on.
pub const WIDTH: u8 = 64;

/// The description of a graph made of one base that stays at the root.
pub open spec fn graph_key_spec(g: BaseGraph) -> Option<OneBaseKey> {
    if g.root == 0 && g.bases@.len() == 1 && stays_at_root(g.bases@[0]) {
        Some((g.r0, g.bases@[0].epsilon_nonzero))
    } else {
        None
    }
}

/// The descriptor of `key` over `variables`.
pub open spec fn descriptor(variables: [VarId; 2], key: OneBaseKey, direct: bool) -> OneBaseDescriptor {
    OneBaseDescriptor { variables, r0: key.0, epsilon_nonzero: key.1, direct }
}

/// What the general compiler's result gives: its refusal, or the descriptor
/// of a one-base graph, or none.
pub open spec fn fallback(
    variables: [VarId; 2],
    rg: Result<BaseGraph, FactorizedSectionRefusal>,
) -> Result<Option<OneBaseDescriptor>, FactorizedSectionRefusal> {
    match rg {
        Err(e) => Err(e),
        Ok(g) => Ok(
            match graph_key_spec(g) {
                Some(k) => Some(descriptor(variables, k, false)),
                None => None,
            },
        ),
    }
}

/// `r` is what the one-base compiler gives for `t` over `variables`: the
/// direct compiler's refusal or description, and where it cannot tell, what
/// the general compiler gives.
pub open spec fn analyzed_outcome(
    t: Term,
    variables: [VarId; 2],
    r: Result<Option<OneBaseDescriptor>, FactorizedSectionRefusal>,
) -> bool {
    match direct_spec(t, variables[0].0, variables[1].0) {
        Err(e) => r == Err::<Option<OneBaseDescriptor>, FactorizedSectionRefusal>(e),
        Ok(p) => match partial_key(p) {
            Some(k) => r == Ok::<Option<OneBaseDescriptor>, FactorizedSectionRefusal>(
                Some(descriptor(variables, k, true)),
            ),
            None => exists|tr: Trace| #[trigger] traced(t, variables, tr) && r == fallback(variables, tr.result),
        },
    }
}

/// Compiles `source` over `variables` into its one-base descriptor.
pub fn compile_one_base_analyzed(source: &Expr, variables: [VarId; 2]) -> (r: Result<
    Option<OneBaseDescriptor>,
    FactorizedSectionRefusal,
>)
    requires
        vars_fit(source@, variables),
    ensures
        analyzed_outcome(source@, variables, r),
        variables[0].0 != variables[1].0 ==> (r matches Ok(Some(d)) ==> d.variables == variables && key_describes(
            d.r0,
            d.epsilon_nonzero,
            source@,
            variables,
        )),
{
    let direct = compile_one_base_direct(source, variables);
    proof {
        if variables[0].0 != variables[1].0 {
            if let Ok(p) = direct {
                if partial_key(p) is Some {
                    let k = partial_key(p)->Some_0;
                    assert forall|x: u64, y: u64| #[trigger] word(k.0 + digit_sum(k.1, x, y, 64)) == eval(
                        source@,
                        operand_inputs(variables, x, y),
                    ) by {
                        lemma_direct_sound(source@, variables[0].0, variables[1].0, x, y);
                        lemma_partial_value(p, eval(source@, operand_inputs(variables, x, y)), x, y);
                    }
                }
            }
        }
    }
    match direct {
        Err(e) => Err(e),
        Ok(OneBasePartial::Stationary(table)) => {
            let (r0, epsilon_nonzero) = one_base_from_table(table);
            let r = Ok(Some(OneBaseDescriptor { variables, r0, epsilon_nonzero, direct: true }));
            proof {
                let k = partial_key(OneBasePartial::Stationary(table))->Some_0;
                assert(epsilon_nonzero[0] == k.1[0] && epsilon_nonzero[1] == k.1[1] && epsilon_nonzero[2] == k.1[2]);
                assert(epsilon_nonzero =~= k.1);
            }
            r
        },
        Ok(OneBasePartial::Exact { r0, epsilon }) => Ok(
            Some(OneBaseDescriptor { variables, r0, epsilon_nonzero: epsilon, direct: true }),
        ),
        Ok(OneBasePartial::Unknown) => {
            let rg = compile_graph(source, variables);
            let ghost tr = choose|tr: Trace| traced(source@, variables, tr) && tr.result == rg;
            match rg {
                Err(e) => Err(e),
                Ok(g) => {
                    let key = graph_one_base_key(&g);
                    proof {
                        if variables[0].0 != variables[1].0 && key is Some {
                            lemma_root_key_describes(g, source@, variables);
                        }
                    }
                    match key {
                        Some((r0, epsilon_nonzero)) => Ok(
                            Some(OneBaseDescriptor { variables, r0, epsilon_nonzero, direct: false }),
                        ),
                        None => Ok(None),
                    }
                },
            }
        },
    }
}

/// A source whose variables are all listed has them below any bound on
/// the list.
pub proof fn lemma_vars_in_below(t: Term, l: Seq<usize>, n: nat)
    requires
        vars_in(t, l),
        forall|i: int| 0 <= i < l.len() ==> #[trigger] l[i] < n,
    ensures
        vars_below(t, n),
    decreases t,
{
    match t {
        Term::Var(v) => {
            let i = choose|i: int| 0 <= i < l.len() && l[i] == v;
            assert(l[i] < n);
        },
        Term::Not(x) => lemma_vars_in_below(*x, l, n),
        Term::Scale(_, x) => lemma_vars_in_below(*x, l, n),
        Term::And(ts) => lemma_all_vars_in_below(ts, l, n),
        Term::Or(ts) => lemma_all_vars_in_below(ts, l, n),
        Term::Xor(ts) => lemma_all_vars_in_below(ts, l, n),
        Term::Add(ts) => lemma_all_vars_in_below(ts, l, n),
        Term::Mul(ts) => lemma_all_vars_in_below(ts, l, n),
        _ => {},
    }
}

proof fn lemma_all_vars_in_below(ts: Seq<Term>, l: Seq<usize>, n: nat)
    requires
        all_vars_in(ts, l),
        forall|i: int| 0 <= i < l.len() ==> #[trigger] l[i] < n,
    ensures
        all_vars_below(ts, n),
    decreases ts,
{
    assert forall|i: int| 0 <= i < ts.len() implies vars_below(#[trigger] ts[i], n) by {
        lemma_vars_in_below(ts[i], l, n);
    }
}

/// The variables an analysis found, in increasing order, when it found two.
pub open spec fn analysis_variables(a: SourceAnalysis) -> Option<[VarId; 2]> {
    match (a.variable_count, a.variables[0], a.variables[1]) {
        (2, Some(x), Some(y)) => Some(if x.0 <= y.0 { [x, y] } else { [y, x] }),
        _ => None,
    }
}

/// `r` is what the one-base compiler gives for `t` on `width` bits: none
/// for another width, a refused analysis, a product or other than two
/// variables; else the compiler's descriptor over the two variables, none
/// when it refused.
pub open spec fn one_base_outcome(t: Term, width: u8, r: Option<OneBaseDescriptor>) -> bool {
    if width != WIDTH {
        r is None
    } else {
        match visit_spec(t, 0, empty_analysis()) {
            Err(_) => r is None,
            Ok(a) => if a.contains_multiplication {
                r is None
            } else {
                match analysis_variables(a) {
                    None => r is None,
                    Some(variables) => exists|ra: Result<Option<OneBaseDescriptor>, FactorizedSectionRefusal>|
                        #[trigger] analyzed_outcome(t, variables, ra) && r == match ra {
                            Ok(d) => d,
                            Err(_) => None,
                        },
                }
            },
        }
    }
}

/// Compiles an exact one-base descriptor of `source` on `width` bits; every
/// refusal gives none.
pub fn compile_one_base(source: &Expr, width: u8) -> (r: Option<OneBaseDescriptor>)
    ensures
        one_base_outcome(source@, width, r),
        r matches Some(d) ==> match visit_spec(source@, 0, empty_analysis()) {
            Ok(an) => analysis_variables(an) == Some(d.variables) && d.variables[0].0 != d.variables[1].0
                && key_describes(d.r0, d.epsilon_nonzero, source@, d.variables),
            Err(_) => false,
        },
{
    if width != WIDTH {
        return None;
    }
    let analysis = match analyze_source(source) {
        Ok(a) => a,
        Err(_) => {
            return None;
        },
    };
    if analysis.contains_multiplication {
        return None;
    }
    let variables = match analyzed_variables(&analysis) {
        Some(v) => v,
        None => {
            return None;
        },
    };
    proof {
        lemma_analysis_counts(source@);
        let l = recorded_list(analysis);
        assert forall|i: int| 0 <= i < l.len() implies #[trigger] l[i] < max_variable(variables) + 1 by {
            assert(l[i] == analysis.variables[i]->Some_0.0);
        }
        lemma_vars_in_below(source@, l, max_variable(variables) + 1);
        lemma_visit_facts(source@, 0, empty_analysis());
        assert(analysis.variables[0] != analysis.variables[1]);
    }
    let ra = compile_one_base_analyzed(source, variables);
    let r = match ra {
        Ok(d) => d,
        Err(_) => None,
    };
    proof {
        assert(analyzed_outcome(source@, variables, ra));
    }
    r
}

/// Compiles the one-base descriptor of `source` over declared variables;
/// none for variables out of order or any refusal.
pub fn compile_declared_one_base_descriptor(source: &Expr, variables: [VarId; 2]) -> (r: Option<OneBaseDescriptor>)
    requires
        vars_fit(source@, variables),
    ensures
        !(variables[0].0 < variables[1].0) ==> r is None,
        variables[0].0 < variables[1].0 ==> exists|ra: Result<Option<OneBaseDescriptor>, FactorizedSectionRefusal>|
            #[trigger] analyzed_outcome(source@, variables, ra) && r == match ra {
                Ok(d) => d,
                Err(_) => None,
            },
{
    if !variables_valid(variables) {
        return None;
    }
    let ra = compile_one_base_analyzed(source, variables);
    let r = match ra {
        Ok(d) => d,
        Err(_) => None,
    };
    proof {
        assert(analyzed_outcome(source@, variables, ra));
    }
    r
}

/// The scalars of a graph of one base at the root; refused for any other.
pub open spec fn normalize_spec(g: BaseGraph) -> Result<SectionScalars, FactorizedSectionRefusal> {
    if g.bases@.len() == 1 && g.root == 0 {
        Ok(
            SectionScalars {
                r0: g.r0,
                epsilon: [
                    0i128,
                    g.bases@[0].epsilon_nonzero[0],
                    g.bases@[0].epsilon_nonzero[1],
                    g.bases@[0].epsilon_nonzero[2],
                ],
            },
        )
    } else {
        Err(FactorizedSectionRefusal::MultipleSemanticBases)
    }
}

/// What the scalars of a compiled graph are: its refusal, or its scalars.
pub open spec fn scalars_of(rg: Result<BaseGraph, FactorizedSectionRefusal>) -> Result<
    SectionScalars,
    FactorizedSectionRefusal,
> {
    match rg {
        Err(e) => Err(e),
        Ok(g) => normalize_spec(g),
    }
}

/// The scalars of `source` over `variables` when its graph has one base.
pub fn compile_single_base_scalars(source: &Expr, variables: [VarId; 2]) -> (r: Result<
    SectionScalars,
    FactorizedSectionRefusal,
>)
    requires
        vars_fit(source@, variables),
    ensures
        !(variables[0].0 < variables[1].0) ==> r == Err::<SectionScalars, FactorizedSectionRefusal>(
            FactorizedSectionRefusal::InvalidVariables,
        ),
        variables[0].0 < variables[1].0 ==> exists|tr: Trace|
            #[trigger] traced(source@, variables, tr) && r == scalars_of(tr.result),
        variables[0].0 < variables[1].0 ==> (r matches Ok(s) ==> scalars_describe(s, source@, variables)),
        variables[0].0 < variables[1].0 ==> (r matches Ok(s) ==> forall|k: int|
            0 <= k < 4 ==> #[trigger] word(s.r0 + s.epsilon[k]) == eval(
                source@,
                boolean_inputs(variables, k, max_variable(variables) + 1),
            )),
{
    if !variables_valid(variables) {
        return Err(FactorizedSectionRefusal::InvalidVariables);
    }
    let rg = compile_graph(source, variables);
    let ghost tr = choose|tr: Trace| traced(source@, variables, tr) && tr.result == rg;
    match rg {
        Err(e) => Err(e),
        Ok(g) => {
            let ghost g0 = g;
            let r = normalize_scalars(g);
            proof {
                if r is Ok {
                    lemma_single_base_describes(g0, source@, variables);
                    assert forall|k: int| 0 <= k < 4 implies #[trigger] word(r->Ok_0.r0 + r->Ok_0.epsilon[k]) == eval(
                        source@,
                        boolean_inputs(variables, k, max_variable(variables) + 1),
                    ) by {
                        lemma_scalars_corners(r->Ok_0, source@, variables, k);
                    }
                }
            }
            r
        },
    }
}

/// Whether two sets of scalars are equal.
fn scalars_equal(a: &SectionScalars, b: &SectionScalars) -> (r: bool)
    ensures
        r == (*a == *b),
{
    let e = a.r0 == b.r0 && a.epsilon[0] == b.epsilon[0] && a.epsilon[1] == b.epsilon[1] && a.epsilon[2]
        == b.epsilon[2] && a.epsilon[3] == b.epsilon[3];
    proof {
        if e {
            assert(a.epsilon =~= b.epsilon);
        }
    }
    e
}

/// Success when `source` equals `candidate`, the mismatch refusal otherwise.
pub open spec fn compare(source: SectionScalars, candidate: SectionScalars) -> Result<(), FactorizedSectionRefusal> {
    if source == candidate {
        Ok(())
    } else {
        Err(FactorizedSectionRefusal::CandidateMismatch)
    }
}

/// `r` follows the operands' results `out` of a sum when matching
/// `candidate`: the first refusal; else the sum graph's scalars compared
/// with the candidate, or the linear certificate when the sum graph grows
/// past its budget, or the sum graph's other refusal.
pub open spec fn sum_matched(
    out: Result<Seq<BaseGraph>, FactorizedSectionRefusal>,
    candidate: SectionScalars,
    r: Result<(), FactorizedSectionRefusal>,
) -> bool {
    match out {
        Err(e) => r == Err::<(), FactorizedSectionRefusal>(e),
        Ok(gs) => exists|rp: Result<BaseGraph, FactorizedSectionRefusal>|
            #[trigger] product_outcome(gs, rp) && match rp {
                Ok(g) => match normalize_spec(g) {
                    Ok(s) => r == compare(s, candidate),
                    Err(e) => r == Err::<(), FactorizedSectionRefusal>(e),
                },
                Err(e) => if e == FactorizedSectionRefusal::SourceBudgetExceeded {
                    r == linear_add_spec(gs, candidate)
                } else {
                    r == Err::<(), FactorizedSectionRefusal>(e)
                },
            },
    }
}

/// `r` is what matching `candidate` against the source `t` gives: refused
/// for another width or variables out of order; the canonical form of a sum
/// or exclusive or is matched in its place; a sum by the scalars of its sum
/// graph or the linear certificate; anything else by the scalars of its
/// graph.
pub open spec fn matched(
    t: Term,
    candidate: SectionScalars,
    variables: [VarId; 2],
    width: u8,
    r: Result<(), FactorizedSectionRefusal>,
) -> bool
    decreases size(t), recanonicalizes(t),
{
    if width != WIDTH {
        r == Err::<(), FactorizedSectionRefusal>(FactorizedSectionRefusal::InvalidWidth)
    } else if !(variables[0].0 < variables[1].0) {
        r == Err::<(), FactorizedSectionRefusal>(FactorizedSectionRefusal::InvalidVariables)
    } else {
        match canonical_composition_spec(t) {
            Some(canonical) => {
                proof {
                    lemma_canonical_shrinks(t);
                }
                matched(canonical, candidate, variables, width, r)
            },
            None => match t {
                Term::Add(ts) => exists|parts: Seq<Trace>|
                    #[trigger] traced_list(ts, variables, parts) && sum_matched(parts_outcome(parts), candidate, r),
                _ => exists|tr: Trace|
                    #[trigger] traced(t, variables, tr) && match scalars_of(tr.result) {
                        Ok(s) => r == compare(s, candidate),
                        Err(e) => r == Err::<(), FactorizedSectionRefusal>(e),
                    },
            },
        }
    }
}

/// The candidate scalars were accepted by the linear certificate for a sum
/// that has the value of `t` over `variables`: operands whose graphs
/// describe them, whose sum has the value of `t`, and against whose graphs
/// the certificate accepts `candidate`.
pub open spec fn linear_accepted(t: Term, variables: [VarId; 2], candidate: SectionScalars) -> bool {
    exists|ts: Seq<Term>, gs: Seq<BaseGraph>|
        #![trigger linear_add_spec(gs, candidate), sum_of(ts)]
        {
            &&& gs.len() == ts.len()
            &&& forall|j: int| 0 <= j < ts.len() ==> #[trigger] describes(gs[j], ts[j], variables)
            &&& linear_add_spec(gs, candidate) is Ok
            &&& forall|x: u64, y: u64|
                #[trigger] eval(t, operand_inputs(variables, x, y)) == eval(sum_of(ts), operand_inputs(variables, x, y))
        }
}

/// The sum of `ts`.
pub open spec fn sum_of(ts: Seq<Term>) -> Term {
    Term::Add(ts)
}

/// Checks the scalars `candidate_scalars` against those of `source`. When
/// they match, the candidate scalars describe the source, unless it is a
/// sum the linear certificate accepted them for.
pub fn direct_match(source: &Expr, candidate_scalars: &SectionScalars, variables: [VarId; 2], width: u8) -> (r: Result<
    (),
    FactorizedSectionRefusal,
>)
    requires
        vars_fit(source@, variables),
    ensures
        matched(source@, *candidate_scalars, variables, width, r),
        r is Ok ==> scalars_describe(*candidate_scalars, source@, variables) || linear_accepted(
            source@,
            variables,
            *candidate_scalars,
        ),
    decreases size(source@), recanonicalizes(source@),
{
    if width != WIDTH {
        return Err(FactorizedSectionRefusal::InvalidWidth);
    }
    if !variables_valid(variables) {
        return Err(FactorizedSectionRefusal::InvalidVariables);
    }
    if let Some(canonical) = canonical_composition(source) {
        proof {
            lemma_canonical_shrinks(source@);
            if max_variable(variables) + 1 <= MAX_SOURCE_NODES {
                lemma_canonical_vars(source@, max_variable(variables) + 1);
            }
        }
        let r = direct_match(&canonical, candidate_scalars, variables, width);
        proof {
            if r is Ok {
                assert forall|x: u64, y: u64| #[trigger] eval(canonical@, operand_inputs(variables, x, y)) == eval(
                    source@,
                    operand_inputs(variables, x, y),
                ) by {
                    lemma_canonical_composition_value(source@, operand_inputs(variables, x, y));
                }
                if scalars_describe(*candidate_scalars, canonical@, variables) {
                    assert(scalars_describe(*candidate_scalars, source@, variables));
                } else {
                    let (ts, gs) = choose|ts: Seq<Term>, gs: Seq<BaseGraph>|
                        {
                            &&& gs.len() == ts.len()
                            &&& forall|j: int| 0 <= j < ts.len() ==> #[trigger] describes(gs[j], ts[j], variables)
                            &&& linear_add_spec(gs, *candidate_scalars) is Ok
                            &&& forall|x: u64, y: u64|
                                #[trigger] eval(canonical@, operand_inputs(variables, x, y)) == eval(
                                    sum_of(ts),
                                    operand_inputs(variables, x, y),
                                )
                        };
                    assert(linear_add_spec(gs, *candidate_scalars) is Ok);
                    assert(sum_of(ts) == sum_of(ts));
                    assert forall|x: u64, y: u64| #[trigger] eval(source@, operand_inputs(variables, x, y)) == eval(
                        sum_of(ts),
                        operand_inputs(variables, x, y),
                    ) by {
                        assert(eval(canonical@, operand_inputs(variables, x, y)) == eval(
                            sum_of(ts),
                            operand_inputs(variables, x, y),
                        ));
                    }
                    assert(linear_accepted(source@, variables, *candidate_scalars));
                }
            }
        }
        return r;
    }
    if let Expr::Add(children) = source {
        let rs = compile_children(children, variables);
        let ghost parts = choose|parts: Seq<Trace>|
            traced_list(models(children@), variables, parts) && parts_outcome(parts) == children_outcome(rs);
        let graphs = match rs {
            Ok(graphs) => graphs,
            Err(e) => {
                return Err(e);
            },
        };
        proof {
            lemma_models_index(children@);
        }
        let rp = product_graph(graphs.as_slice());
        let ghost rp0 = rp;
        let source_scalars = match rp {
            Ok(graph) => {
                let ghost g0 = graph;
                proof {
                    crate::graph_compile::lemma_product_wf(graphs@, rp0);
                    lemma_sum_describes(models(children@), graphs@, g0, variables);
                }
                let rs2 = normalize_scalars(graph);
                proof {
                    if rs2 is Ok {
                        lemma_single_base_describes(g0, source@, variables);
                    }
                }
                rs2
            },
            Err(FactorizedSectionRefusal::SourceBudgetExceeded) => {
                let r = linear_add_match(graphs.as_slice(), candidate_scalars);
                proof {
                    assert(product_outcome(graphs@, rp0));
                    if r is Ok {
                        let ts = models(children@);
                        let gs = graphs@;
                        assert(linear_add_spec(gs, *candidate_scalars) is Ok);
                        assert(source@ == sum_of(ts));
                        assert(linear_accepted(source@, variables, *candidate_scalars));
                    }
                }
                return r;
            },
            Err(e) => Err(e),
        };
        let r = match source_scalars {
            Ok(s) => if scalars_equal(&s, candidate_scalars) {
                Ok(())
            } else {
                Err(FactorizedSectionRefusal::CandidateMismatch)
            },
            Err(e) => Err(e),
        };
        proof {
            assert(product_outcome(graphs@, rp0));
        }
        return r;
    }
    let source_scalars = compile_single_base_scalars(source, variables);
    match source_scalars {
        Ok(s) => if scalars_equal(&s, candidate_scalars) {
            Ok(())
        } else {
            Err(FactorizedSectionRefusal::CandidateMismatch)
        },
        Err(e) => Err(e),
    }
}

/// The one-base description of the graph of `source` over declared
/// variables, from the general compiler alone; none for variables out of
/// order, a refusal or a graph of other than one base.
pub fn compile_declared_one_base(source: &Expr, variables: [VarId; 2]) -> (r: Option<OneBaseKey>)
    requires
        vars_fit(source@, variables),
    ensures
        !(variables[0].0 < variables[1].0) ==> r is None,
        variables[0].0 < variables[1].0 ==> exists|tr: Trace|
            #[trigger] traced(source@, variables, tr) && r == match tr.result {
                Ok(g) => graph_key_spec(g),
                Err(_) => None,
            },
{
    if !variables_valid(variables) {
        return None;
    }
    let rg = compile_graph(source, variables);
    let ghost tr = choose|tr: Trace| traced(source@, variables, tr) && tr.result == rg;
    match rg {
        Ok(g) => graph_one_base_key(&g),
        Err(_) => None,
    }
}

/// The one-base descriptor of `source` on `width` bits from the general
/// compiler alone; none for another width, a refused analysis, other than
/// two variables, a refusal or a graph of other than one base.
pub fn compile_one_base_authoritative(source: &Expr, width: u8) -> (r: Option<OneBaseDescriptor>)
    ensures
        width != WIDTH ==> r is None,
        width == WIDTH ==> match visit_spec(source@, 0, empty_analysis()) {
            Err(_) => r is None,
            Ok(a) => match analysis_variables(a) {
                None => r is None,
                Some(variables) => exists|tr: Trace|
                    #[trigger] traced(source@, variables, tr) && r == match tr.result {
                        Ok(g) => match graph_key_spec(g) {
                            Some(k) => Some(descriptor(variables, k, false)),
                            None => None,
                        },
                        Err(_) => None,
                    },
            },
        },
{
    if width != WIDTH {
        return None;
    }
    let analysis = match analyze_source(source) {
        Ok(a) => a,
        Err(_) => {
            return None;
        },
    };
    let variables = match analyzed_variables(&analysis) {
        Some(v) => v,
        None => {
            return None;
        },
    };
    proof {
        lemma_analysis_counts(source@);
        let l = recorded_list(analysis);
        assert forall|i: int| 0 <= i < l.len() implies #[trigger] l[i] < max_variable(variables) + 1 by {
            assert(l[i] == analysis.variables[i]->Some_0.0);
        }
        lemma_vars_in_below(source@, l, max_variable(variables) + 1);
    }
    let rg = compile_graph(source, variables);
    let ghost tr = choose|tr: Trace| traced(source@, variables, tr) && tr.result == rg;
    match rg {
        Ok(g) => match graph_one_base_key(&g) {
            Some((r0, epsilon_nonzero)) => Some(OneBaseDescriptor { variables, r0, epsilon_nonzero, direct: false }),
            None => None,
        },
        Err(_) => None,
    }
}

} // verus!
