//! A single pass over a source expression before section compilation: it
//! counts the nodes, notes a multiplication, and records the first two
//! variables, refusing sources that are too deep or too large or that use
//! more than two variables.
use vstd::prelude::*;
use crate::expr::{Expr, Term, VarId, models, lemma_models_index, lemma_models_push, size, sizes, vars_in, all_vars_in};
use crate::factorized_section::FactorizedSectionRefusal;

verus! {

/// The deepest node a source may have is at this depth minus one.
pub const MAX_SOURCE_DEPTH: usize = 256;

/// The most nodes a source may have.
pub const MAX_SOURCE_NODES: usize = 4096;

/// What one pass over a source found.
#[derive(Clone, Copy, Debug, PartialEq, Eq)]
pub struct SourceAnalysis {
    /// The first two distinct variables met, in order.
    pub variables: [Option<VarId>; 2],
    /// How many distinct variables were met.
    pub variable_count: usize,
    /// How many nodes were met.
    pub node_count: usize,
    /// Whether a multiplication was met.
    pub contains_multiplication: bool,
}

/// The analysis before any node.
pub open spec fn empty_analysis() -> SourceAnalysis {
    SourceAnalysis {
        variables: [None, None],
        variable_count: 0,
        node_count: 0,
        contains_multiplication: false,
    }
}

impl Default for SourceAnalysis {
    fn default() -> (r: Self)
        ensures
            r == empty_analysis(),
    {
        SourceAnalysis { variables: [None, None], variable_count: 0, node_count: 0, contains_multiplication: false }
    }
}

/// `v` is among the variables `a` recorded.
pub open spec fn recorded(a: SourceAnalysis, v: usize) -> bool {
    exists|k: int| 0 <= k < a.variable_count && k < 2 && a.variables[k] == Some(VarId(v))
}

/// Meeting variable `v`: a new one is recorded, and a third is refused.
pub open spec fn note_variable(a: SourceAnalysis, v: usize) -> Result<SourceAnalysis, FactorizedSectionRefusal> {
    if recorded(a, v) {
        Ok(a)
    } else if a.variable_count + 1 > 2 {
        Err(FactorizedSectionRefusal::InvalidVariables)
    } else {
        Ok(
            SourceAnalysis {
                variables: if a.variable_count == 0 {
                    [Some(VarId(v)), a.variables[1]]
                } else {
                    [a.variables[0], Some(VarId(v))]
                },
                variable_count: (a.variable_count + 1) as usize,
                ..a
            },
        )
    }
}

/// The pass over `t` met at `depth`, continuing from `a`, in pre-order: a
/// node at depth 256 or more, or the 4097th node, is refused, and so is a
/// third variable.
pub open spec fn visit_spec(t: Term, depth: nat, a: SourceAnalysis) -> Result<SourceAnalysis, FactorizedSectionRefusal>
    decreases t,
{
    if depth >= MAX_SOURCE_DEPTH || a.node_count + 1 > usize::MAX {
        Err(FactorizedSectionRefusal::SourceBudgetExceeded)
    } else {
        let a1 = SourceAnalysis { node_count: (a.node_count + 1) as usize, ..a };
        if a1.node_count > MAX_SOURCE_NODES {
            Err(FactorizedSectionRefusal::SourceBudgetExceeded)
        } else {
            match t {
                Term::Var(v) => note_variable(a1, v),
                Term::Const(_) => Ok(a1),
                Term::Not(x) => visit_spec(*x, depth + 1, a1),
                Term::Scale(_, x) => visit_spec(*x, depth + 1, a1),
                Term::Mul(ts) => visit_all_spec(ts, depth + 1, SourceAnalysis { contains_multiplication: true, ..a1 }),
                Term::And(ts) => visit_all_spec(ts, depth + 1, a1),
                Term::Or(ts) => visit_all_spec(ts, depth + 1, a1),
                Term::Xor(ts) => visit_all_spec(ts, depth + 1, a1),
                Term::Add(ts) => visit_all_spec(ts, depth + 1, a1),
            }
        }
    }
}

/// The pass over the operands `ts`, left to right, stopping at a refusal.
pub open spec fn visit_all_spec(ts: Seq<Term>, depth: nat, a: SourceAnalysis) -> Result<
    SourceAnalysis,
    FactorizedSectionRefusal,
>
    decreases ts,
{
    if ts.len() == 0 {
        Ok(a)
    } else {
        match visit_all_spec(ts.drop_last(), depth, a) {
            Ok(a1) => visit_spec(ts.last(), depth, a1),
            Err(e) => Err(e),
        }
    }
}

/// Once the pass over a prefix of the operands is refused, so is the pass
/// over all of them.
proof fn lemma_visit_all_stops(ts: Seq<Term>, k: int, depth: nat, a: SourceAnalysis)
    requires
        0 <= k <= ts.len(),
        visit_all_spec(ts.take(k), depth, a) is Err,
    ensures
        visit_all_spec(ts, depth, a) == visit_all_spec(ts.take(k), depth, a),
    decreases ts.len(),
{
    if ts.len() > k {
        assert(ts.drop_last().take(k) =~= ts.take(k));
        lemma_visit_all_stops(ts.drop_last(), k, depth, a);
    } else {
        assert(ts.take(k) =~= ts);
    }
}

/// At most two variables are counted, the counted ones are recorded, and
/// two recorded ones differ.
pub open spec fn analysis_wf(a: SourceAnalysis) -> bool {
    &&& a.variable_count <= 2
    &&& forall|k: int| 0 <= k < a.variable_count ==> (#[trigger] a.variables[k]) is Some
    &&& a.variable_count == 2 ==> a.variables[0] != a.variables[1]
}

/// The pass over one node and its operands.
fn visit_source(expression: &Expr, depth: usize, analysis: &mut SourceAnalysis) -> (r: Result<
    (),
    FactorizedSectionRefusal,
>)
    requires
        analysis_wf(*old(analysis)),
    ensures
        match visit_spec(expression@, depth as nat, *old(analysis)) {
            Ok(a) => r is Ok && *final(analysis) == a,
            Err(e) => r == Err::<(), FactorizedSectionRefusal>(e),
        },
        r is Ok ==> analysis_wf(*final(analysis)),
    decreases expression,
{
    if depth >= MAX_SOURCE_DEPTH {
        return Err(FactorizedSectionRefusal::SourceBudgetExceeded);
    }
    match analysis.node_count.checked_add(1) {
        Some(n) => {
            analysis.node_count = n;
        },
        None => {
            return Err(FactorizedSectionRefusal::SourceBudgetExceeded);
        },
    }
    if analysis.node_count > MAX_SOURCE_NODES {
        return Err(FactorizedSectionRefusal::SourceBudgetExceeded);
    }
    match expression {
        Expr::Var(variable) => {
            let count = analysis.variable_count;
            let mut seen = false;
            if count >= 1 {
                if let Some(first) = analysis.variables[0] {
                    if first.0 == variable.0 {
                        seen = true;
                    }
                }
            }
            if count >= 2 {
                if let Some(second) = analysis.variables[1] {
                    if second.0 == variable.0 {
                        seen = true;
                    }
                }
            }
            proof {
                let a = *analysis;
                if recorded(a, variable.0) {
                    let k = choose|k: int| 0 <= k < a.variable_count && k < 2 && a.variables[k] == Some(VarId(variable.0));
                    assert(k == 0 || k == 1);
                }
            }
            if !seen {
                if count < 2 {
                    analysis.variables[count] = Some(*variable);
                }
                analysis.variable_count = count + 1;
                if analysis.variable_count > 2 {
                    return Err(FactorizedSectionRefusal::InvalidVariables);
                }
                proof {
                    assert(analysis.variables =~= note_variable(
                        SourceAnalysis { variable_count: count, variables: old(analysis).variables, ..*analysis },
                        variable.0,
                    )->Ok_0.variables);
                }
            }
            Ok(())
        },
        Expr::Const(_) => Ok(()),
        Expr::Not(child) => visit_source(child, depth + 1, analysis),
        Expr::Scale(_, child) => visit_source(child, depth + 1, analysis),
        Expr::Mul(children) => {
            analysis.contains_multiplication = true;
            visit_children(children, depth + 1, analysis)
        },
        Expr::And(children) => visit_children(children, depth + 1, analysis),
        Expr::Or(children) => visit_children(children, depth + 1, analysis),
        Expr::Xor(children) => visit_children(children, depth + 1, analysis),
        Expr::Add(children) => visit_children(children, depth + 1, analysis),
    }
}

/// The pass over the operands, left to right.
fn visit_children(children: &Vec<Expr>, depth: usize, analysis: &mut SourceAnalysis) -> (r: Result<
    (),
    FactorizedSectionRefusal,
>)
    requires
        analysis_wf(*old(analysis)),
    ensures
        match visit_all_spec(models(children@), depth as nat, *old(analysis)) {
            Ok(a) => r is Ok && *final(analysis) == a,
            Err(e) => r == Err::<(), FactorizedSectionRefusal>(e),
        },
        r is Ok ==> analysis_wf(*final(analysis)),
    decreases children,
{
    let ghost start = *analysis;
    proof {
        assert(models(children@.take(0)) =~= Seq::<Term>::empty());
    }
    let mut i: usize = 0;
    while i < children.len()
        invariant
            i <= children.len(),
            visit_all_spec(models(children@.take(i as int)), depth as nat, start) == Ok::<
                SourceAnalysis,
                FactorizedSectionRefusal,
            >(*analysis),
            analysis_wf(*analysis),
            start == *old(analysis),
        decreases children.len() - i,
    {
        proof {
            lemma_models_index(children@);
            lemma_models_push(children@.take(i as int), children@[i as int]);
            assert(children@.take(i + 1) =~= children@.take(i as int).push(children@[i as int]));
            let pre = models(children@.take(i as int));
            assert(pre.push(children@[i as int]@).drop_last() =~= pre);
            lemma_models_index(children@.take(i + 1));
            assert(models(children@).take(i + 1) =~= models(children@.take(i + 1)));
        }
        let ghost before = *analysis;
        let r = visit_source(&children[i], depth, analysis);
        proof {
            assert(models(children@.take(i + 1)).drop_last() =~= models(children@.take(i as int)));
            assert(models(children@.take(i + 1)).last() == children@[i as int]@);
            assert(visit_all_spec(models(children@.take(i + 1)), depth as nat, start) == visit_spec(
                children@[i as int]@,
                depth as nat,
                before,
            ));
        }
        if r.is_err() {
            proof {
                assert(models(children@).take(i + 1) =~= models(children@.take(i + 1)));
                assert(visit_all_spec(models(children@.take(i + 1)), depth as nat, start) is Err);
                lemma_visit_all_stops(models(children@), i + 1, depth as nat, start);
                assert(visit_all_spec(models(children@), depth as nat, start) == visit_spec(
                    children@[i as int]@,
                    depth as nat,
                    before,
                ));
                assert(start == *old(analysis));
            }
            return r;
        }
        i += 1;
    }
    proof {
        assert(children@.take(i as int) =~= children@);
    }
    Ok(())
}

/// The pass over a whole source, from depth 0 and an empty analysis.
pub fn analyze_source(expression: &Expr) -> (r: Result<SourceAnalysis, FactorizedSectionRefusal>)
    ensures
        r == visit_spec(expression@, 0, empty_analysis()),
{
    let mut analysis = SourceAnalysis::default();
    match visit_source(expression, 0, &mut analysis) {
        Ok(()) => Ok(analysis),
        Err(e) => Err(e),
    }
}

/// Whether the two declared variables are in increasing order.
pub fn variables_valid(variables: [VarId; 2]) -> (r: bool)
    ensures
        r == (variables[0].0 < variables[1].0),
{
    variables[0].0 < variables[1].0
}

/// The two variables of an analysis in increasing order, when it met
/// exactly two.
pub fn analyzed_variables(analysis: &SourceAnalysis) -> (r: Option<[VarId; 2]>)
    ensures
        match (analysis.variable_count, analysis.variables[0], analysis.variables[1]) {
            (2, Some(a), Some(b)) => r == Some(if a.0 <= b.0 { [a, b] } else { [b, a] }),
            _ => r is None,
        },
{
    if analysis.variable_count != 2 {
        return None;
    }
    match (analysis.variables[0], analysis.variables[1]) {
        (Some(first), Some(second)) => {
            if first.0 <= second.0 {
                Some([first, second])
            } else {
                Some([second, first])
            }
        },
        _ => None,
    }
}

} // verus!
verus! {

/// `t` holds a multiplication.
pub open spec fn contains_mul(t: Term) -> bool
    decreases t,
{
    match t {
        Term::Var(_) => false,
        Term::Const(_) => false,
        Term::Not(x) => contains_mul(*x),
        Term::Scale(_, x) => contains_mul(*x),
        Term::Mul(_) => true,
        Term::And(ts) => any_mul(ts),
        Term::Or(ts) => any_mul(ts),
        Term::Xor(ts) => any_mul(ts),
        Term::Add(ts) => any_mul(ts),
    }
}

/// Some term of `ts` holds a multiplication.
pub open spec fn any_mul(ts: Seq<Term>) -> bool
    decreases ts,
{
    exists|i: int| 0 <= i < ts.len() && contains_mul(#[trigger] ts[i])
}

/// The variables an analysis recorded, in order.
pub open spec fn recorded_list(a: SourceAnalysis) -> Seq<usize> {
    Seq::new(a.variable_count as nat, |k: int| a.variables[k]->Some_0.0)
}

/// Listing more variables keeps every variable of `t` listed.
proof fn lemma_vars_in_more(t: Term, l1: Seq<usize>, l2: Seq<usize>)
    requires
        vars_in(t, l1),
        forall|v: usize| l1.contains(v) ==> #[trigger] l2.contains(v),
    ensures
        vars_in(t, l2),
    decreases t,
{
    match t {
        Term::Not(x) => lemma_vars_in_more(*x, l1, l2),
        Term::Scale(_, x) => lemma_vars_in_more(*x, l1, l2),
        Term::And(ts) => lemma_all_vars_in_more(ts, l1, l2),
        Term::Or(ts) => lemma_all_vars_in_more(ts, l1, l2),
        Term::Xor(ts) => lemma_all_vars_in_more(ts, l1, l2),
        Term::Add(ts) => lemma_all_vars_in_more(ts, l1, l2),
        Term::Mul(ts) => lemma_all_vars_in_more(ts, l1, l2),
        _ => {},
    }
}

/// Listing more variables keeps every variable of `ts` listed.
proof fn lemma_all_vars_in_more(ts: Seq<Term>, l1: Seq<usize>, l2: Seq<usize>)
    requires
        all_vars_in(ts, l1),
        forall|v: usize| l1.contains(v) ==> #[trigger] l2.contains(v),
    ensures
        all_vars_in(ts, l2),
    decreases ts,
{
    assert forall|i: int| 0 <= i < ts.len() implies vars_in(#[trigger] ts[i], l2) by {
        assert(vars_in(ts[i], l1));
        lemma_vars_in_more(ts[i], l1, l2);
    }
}

/// `recorded` is membership in `recorded_list`.
proof fn lemma_recorded_list(a: SourceAnalysis)
    requires
        analysis_wf(a),
    ensures
        forall|v: usize| #[trigger] recorded_list(a).contains(v) == recorded(a, v),
{
    assert forall|v: usize| #[trigger] recorded_list(a).contains(v) == recorded(a, v) by {
        if recorded(a, v) {
            let k = choose|k: int| 0 <= k < a.variable_count && k < 2 && a.variables[k] == Some(VarId(v));
            assert(recorded_list(a)[k] == v);
        }
        if recorded_list(a).contains(v) {
            let k = choose|k: int| 0 <= k < recorded_list(a).len() && recorded_list(a)[k] == v;
            assert(a.variables[k] == Some(VarId(v)));
        }
    }
}

/// What a successful pass over `t` adds: `size(t)` nodes, whether `t`
/// multiplies, and every variable of `t`, keeping those recorded before.
pub proof fn lemma_visit_facts(t: Term, depth: nat, a: SourceAnalysis)
    requires
        analysis_wf(a),
    ensures
        visit_spec(t, depth, a) matches Ok(b) ==> {
            &&& analysis_wf(b)
            &&& b.node_count == a.node_count + size(t)
            &&& b.contains_multiplication == (a.contains_multiplication || contains_mul(t))
            &&& vars_in(t, recorded_list(b))
            &&& forall|v: usize| recorded(a, v) ==> #[trigger] recorded(b, v)
        },
    decreases t,
{
    if visit_spec(t, depth, a) is Ok {
        let a1 = SourceAnalysis { node_count: (a.node_count + 1) as usize, ..a };
        match t {
            Term::Var(v) => {
                let b = visit_spec(t, depth, a)->Ok_0;
                if !recorded(a1, v) {
                    assert(b.variables[a.variable_count as int] == Some(VarId(v)));
                    assert forall|w: usize| recorded(a, w) implies #[trigger] recorded(b, w) by {
                        let k = choose|k: int| 0 <= k < a.variable_count && k < 2 && a.variables[k] == Some(VarId(w));
                        assert(b.variables[k] == a.variables[k]);
                    }
                    assert(recorded(b, v));
                }
                lemma_recorded_list(b);
            },
            Term::Const(_) => {
                lemma_recorded_list(a);
            },
            Term::Not(x) => {
                lemma_visit_facts(*x, depth + 1, a1);
            },
            Term::Scale(_, x) => {
                lemma_visit_facts(*x, depth + 1, a1);
            },
            Term::Mul(ts) => {
                lemma_visit_all_facts(ts, depth + 1, SourceAnalysis { contains_multiplication: true, ..a1 });
            },
            Term::And(ts) => {
                lemma_visit_all_facts(ts, depth + 1, a1);
            },
            Term::Or(ts) => {
                lemma_visit_all_facts(ts, depth + 1, a1);
            },
            Term::Xor(ts) => {
                lemma_visit_all_facts(ts, depth + 1, a1);
            },
            Term::Add(ts) => {
                lemma_visit_all_facts(ts, depth + 1, a1);
            },
        }
    }
}

/// What a successful pass over the operands `ts` adds.
pub proof fn lemma_visit_all_facts(ts: Seq<Term>, depth: nat, a: SourceAnalysis)
    requires
        analysis_wf(a),
    ensures
        visit_all_spec(ts, depth, a) matches Ok(b) ==> {
            &&& analysis_wf(b)
            &&& b.node_count == a.node_count + sizes(ts)
            &&& b.contains_multiplication == (a.contains_multiplication || any_mul(ts))
            &&& all_vars_in(ts, recorded_list(b))
            &&& forall|v: usize| recorded(a, v) ==> #[trigger] recorded(b, v)
        },
    decreases ts,
{
    if ts.len() > 0 && visit_all_spec(ts, depth, a) is Ok {
        let pre = ts.drop_last();
        lemma_visit_all_facts(pre, depth, a);
        let a1 = visit_all_spec(pre, depth, a)->Ok_0;
        lemma_visit_facts(ts.last(), depth, a1);
        let b = visit_all_spec(ts, depth, a)->Ok_0;
        lemma_recorded_list(a1);
        lemma_recorded_list(b);
        assert forall|i: int| 0 <= i < ts.len() implies vars_in(#[trigger] ts[i], recorded_list(b)) by {
            if i < ts.len() - 1 {
                assert(ts[i] == pre[i]);
                lemma_vars_in_more(ts[i], recorded_list(a1), recorded_list(b));
            }
        }
        if exists|i: int| 0 <= i < ts.len() && contains_mul(#[trigger] ts[i]) {
            let i = choose|i: int| 0 <= i < ts.len() && contains_mul(#[trigger] ts[i]);
            if i < ts.len() - 1 {
                assert(pre[i] == ts[i]);
            }
        }
        if exists|i: int| 0 <= i < pre.len() && contains_mul(#[trigger] pre[i]) {
            let i = choose|i: int| 0 <= i < pre.len() && contains_mul(#[trigger] pre[i]);
            assert(ts[i] == pre[i]);
        }
    }
}

/// A successful analysis of a source counted its nodes, noted whether it
/// multiplies, and recorded all its variables.
pub proof fn lemma_analysis_counts(t: Term)
    ensures
        visit_spec(t, 0, empty_analysis()) matches Ok(b) ==> {
            &&& b.node_count == size(t)
            &&& b.contains_multiplication == contains_mul(t)
            &&& b.variable_count <= 2
            &&& vars_in(t, recorded_list(b))
        },
{
    lemma_visit_facts(t, 0, empty_analysis());
}

} // verus!
