//! Canonical compositions: a sum is regrouped into one coefficient per base
//! and one constant, an exclusive or into the bases of odd parity and one
//! constant, each with its bases in ascending order.
use vstd::prelude::*;
use crate::expr::{Expr, Term, models, lemma_models_index, lemma_models_push, clone_expr};
use crate::order::{term_order, expr_order, expr_equal, lemma_order_basics};
use crate::stationary::{split_scale, split_scale_spec};

verus! {

/// A list of bases with their coefficients.
pub type Coefficients = Seq<(Term, u64)>;

/// A list of bases with their parities.
pub type Parities = Seq<(Term, bool)>;

/// Adds `d` to the coefficient of `k`, placing a new base before the first
/// base that is not below it.
pub open spec fn add_entry(l: Coefficients, k: Term, d: u64) -> Coefficients
    decreases l.len(),
{
    if l.len() == 0 {
        seq![(k, d)]
    } else if term_order(k, l[0].0) < 0 {
        seq![(k, d)] + l
    } else if term_order(k, l[0].0) == 0 {
        seq![(k, l[0].1.wrapping_add(d))] + l.drop_first()
    } else {
        seq![l[0]] + add_entry(l.drop_first(), k, d)
    }
}

/// Flips the parity of `k`, placing a new base before the first base that
/// is not below it.
pub open spec fn toggle_entry(l: Parities, k: Term) -> Parities
    decreases l.len(),
{
    if l.len() == 0 {
        seq![(k, true)]
    } else if term_order(k, l[0].0) < 0 {
        seq![(k, true)] + l
    } else if term_order(k, l[0].0) == 0 {
        seq![(k, !l[0].1)] + l.drop_first()
    } else {
        seq![l[0]] + toggle_entry(l.drop_first(), k)
    }
}

/// Gathers `t` into a running constant and coefficient list: sums are
/// entered operand by operand, a constant (under its scalings) joins the
/// constant, anything else joins the coefficient of its unscaled base.
pub open spec fn add_collect(t: Term, st: (u64, Coefficients)) -> (u64, Coefficients)
    decreases t,
{
    match t {
        Term::Add(ts) => add_collect_all(ts, st),
        _ => {
            let (c, base) = split_scale_spec(t);
            match base {
                Term::Const(v) => (st.0.wrapping_add(c.wrapping_mul(v)), st.1),
                _ => (st.0, add_entry(st.1, base, c)),
            }
        },
    }
}

/// Gathers the terms of `ts` from left to right.
pub open spec fn add_collect_all(ts: Seq<Term>, st: (u64, Coefficients)) -> (u64, Coefficients)
    decreases ts,
{
    if ts.len() == 0 {
        st
    } else {
        add_collect(ts.last(), add_collect_all(ts.drop_last(), st))
    }
}

/// Gathers `t` into a running constant and parity list: exclusive ors are
/// entered operand by operand, a constant joins the constant, anything else
/// flips its parity.
pub open spec fn xor_collect(t: Term, st: (u64, Parities)) -> (u64, Parities)
    decreases t,
{
    match t {
        Term::Xor(ts) => xor_collect_all(ts, st),
        Term::Const(v) => (st.0 ^ v, st.1),
        _ => (st.0, toggle_entry(st.1, t)),
    }
}

/// Gathers the terms of `ts` from left to right.
pub open spec fn xor_collect_all(ts: Seq<Term>, st: (u64, Parities)) -> (u64, Parities)
    decreases ts,
{
    if ts.len() == 0 {
        st
    } else {
        xor_collect(ts.last(), xor_collect_all(ts.drop_last(), st))
    }
}

/// The terms of a coefficient list: zero coefficients dropped, a unit
/// coefficient leaves the base bare, any other scales it.
pub open spec fn add_terms(l: Coefficients) -> Seq<Term>
    decreases l.len(),
{
    if l.len() == 0 {
        Seq::empty()
    } else {
        let rest = add_terms(l.drop_last());
        let (e, c) = l.last();
        if c == 0 {
            rest
        } else if c == 1 {
            rest.push(e)
        } else {
            rest.push(Term::Scale(c, Box::new(e)))
        }
    }
}

/// The bases of odd parity, in order.
pub open spec fn odd_terms(l: Parities) -> Seq<Term>
    decreases l.len(),
{
    if l.len() == 0 {
        Seq::empty()
    } else {
        let rest = odd_terms(l.drop_last());
        if l.last().1 {
            rest.push(l.last().0)
        } else {
            rest
        }
    }
}

/// The terms followed by the constant when it is not zero, as one term:
/// zero when there is none, the term itself when there is one, else `wrap`
/// of them.
pub open spec fn assemble(terms: Seq<Term>, constant: u64, is_add: bool) -> Term {
    let all = if constant != 0 {
        terms.push(Term::Const(constant))
    } else {
        terms
    };
    if all.len() == 0 {
        Term::Const(0)
    } else if all.len() == 1 {
        all[0]
    } else if is_add {
        Term::Add(all)
    } else {
        Term::Xor(all)
    }
}

/// The canonical form of the sum of `ts`.
pub open spec fn canonical_add_spec(ts: Seq<Term>) -> Term {
    let (k, l) = add_collect_all(ts, (0u64, Seq::empty()));
    assemble(add_terms(l), k, true)
}

/// The canonical form of the exclusive or of `ts`.
pub open spec fn canonical_xor_spec(ts: Seq<Term>) -> Term {
    let (k, l) = xor_collect_all(ts, (0u64, Seq::empty()));
    assemble(odd_terms(l), k, false)
}

/// The canonical form of a sum or an exclusive or, when it differs from
/// the term itself.
pub open spec fn canonical_composition_spec(t: Term) -> Option<Term> {
    match t {
        Term::Add(ts) => if canonical_add_spec(ts) == t {
            None
        } else {
            Some(canonical_add_spec(ts))
        },
        Term::Xor(ts) => if canonical_xor_spec(ts) == t {
            None
        } else {
            Some(canonical_xor_spec(ts))
        },
        _ => None,
    }
}

/// The models of a list of expressions with coefficients.
pub open spec fn coefficient_view(v: Seq<(Expr, u64)>) -> Coefficients {
    Seq::new(v.len(), |i: int| (v[i].0@, v[i].1))
}

/// The models of a list of expressions with parities.
pub open spec fn parity_view(v: Seq<(Expr, bool)>) -> Parities {
    Seq::new(v.len(), |i: int| (v[i].0@, v[i].1))
}

/// Adds `delta` to the coefficient of `key`.
fn add_entry_exec(entries: &mut Vec<(Expr, u64)>, key: Expr, delta: u64)
    ensures
        coefficient_view(final(entries)@) == add_entry(coefficient_view(old(entries)@), key@, delta),
{
    let ghost start = coefficient_view(entries@);
    let ghost k = key@;
    let mut i: usize = 0;
    proof {
        assert(start.skip(0) =~= start);
        assert(start.take(0) + start =~= start);
    }
    while i < entries.len()
        invariant
            i <= entries.len(),
            coefficient_view(entries@) == start,
            key@ == k,
            add_entry(start, k, delta) == start.take(i as int) + add_entry(start.skip(i as int), k, delta),
            forall|j: int| 0 <= j < i ==> term_order(k, #[trigger] start[j].0) > 0,
        ensures
            i < entries.len() ==> term_order(k, start[i as int].0) <= 0,
        decreases entries.len() - i,
    {
        let o = expr_order(&key, &entries[i].0);
        if o <= 0 {
            proof {
                assert(start[i as int].0 == entries@[i as int].0@);
            }
            break;
        }
        proof {
            let rest = start.skip(i as int);
            assert(rest[0] == start[i as int]);
            assert(rest.drop_first() =~= start.skip(i + 1));
            assert(start.take(i as int) + seq![start[i as int]] =~= start.take(i + 1));
            assert(start.take(i as int) + (seq![rest[0]] + add_entry(rest.drop_first(), k, delta)) =~= start.take(
                i + 1,
            ) + add_entry(start.skip(i + 1), k, delta));
        }
        i += 1;
    }
    let ghost rest = start.skip(i as int);
    if i == entries.len() {
        proof {
            assert(rest.len() == 0);
            assert(start.take(i as int) =~= start);
        }
        entries.push((key, delta));
        proof {
            assert(coefficient_view(entries@) =~= start + seq![(k, delta)]);
            assert(add_entry(rest, k, delta) == seq![(k, delta)]);
            assert(coefficient_view(entries@) == add_entry(start, k, delta));
        }
    } else {
        let o = expr_order(&key, &entries[i].0);
        proof {
            assert(rest[0] == start[i as int]);
            assert(rest.drop_first() =~= start.skip(i + 1));
            assert(start[i as int].0 == entries@[i as int].0@);
            assert(start[i as int].1 == entries@[i as int].1);
        }
        if o < 0 {
            entries.insert(i, (key, delta));
            proof {
                assert(coefficient_view(entries@) =~= start.take(i as int) + (seq![(k, delta)] + rest));
                assert(add_entry(rest, k, delta) == seq![(k, delta)] + rest);
                assert(coefficient_view(entries@) == add_entry(start, k, delta));
            }
        } else {
            let c = entries[i].1;
            entries.set(i, (key, c.wrapping_add(delta)));
            proof {
                lemma_order_basics(k, start[i as int].0);
                assert(coefficient_view(entries@) =~= start.take(i as int) + (seq![(k, c.wrapping_add(delta))]
                    + rest.drop_first()));
                assert(add_entry(rest, k, delta) == seq![(k, c.wrapping_add(delta))] + rest.drop_first());
                assert(coefficient_view(entries@) == add_entry(start, k, delta));
            }
        }
    }
}

/// Flips the parity of `key`.
fn toggle_entry_exec(entries: &mut Vec<(Expr, bool)>, key: Expr)
    ensures
        parity_view(final(entries)@) == toggle_entry(parity_view(old(entries)@), key@),
{
    let ghost start = parity_view(entries@);
    let ghost k = key@;
    let mut i: usize = 0;
    proof {
        assert(start.skip(0) =~= start);
        assert(start.take(0) + start =~= start);
    }
    while i < entries.len()
        invariant
            i <= entries.len(),
            parity_view(entries@) == start,
            key@ == k,
            toggle_entry(start, k) == start.take(i as int) + toggle_entry(start.skip(i as int), k),
            forall|j: int| 0 <= j < i ==> term_order(k, #[trigger] start[j].0) > 0,
        ensures
            i < entries.len() ==> term_order(k, start[i as int].0) <= 0,
        decreases entries.len() - i,
    {
        let o = expr_order(&key, &entries[i].0);
        if o <= 0 {
            proof {
                assert(start[i as int].0 == entries@[i as int].0@);
            }
            break;
        }
        proof {
            let rest = start.skip(i as int);
            assert(rest[0] == start[i as int]);
            assert(rest.drop_first() =~= start.skip(i + 1));
            assert(start.take(i as int) + (seq![rest[0]] + toggle_entry(rest.drop_first(), k)) =~= start.take(
                i + 1,
            ) + toggle_entry(start.skip(i + 1), k));
        }
        i += 1;
    }
    let ghost rest = start.skip(i as int);
    if i == entries.len() {
        proof {
            assert(rest.len() == 0);
            assert(start.take(i as int) =~= start);
        }
        entries.push((key, true));
        proof {
            assert(parity_view(entries@) =~= start + seq![(k, true)]);
        }
    } else {
        let o = expr_order(&key, &entries[i].0);
        proof {
            assert(rest[0] == start[i as int]);
            assert(rest.drop_first() =~= start.skip(i + 1));
            assert(start[i as int].0 == entries@[i as int].0@);
            assert(start[i as int].1 == entries@[i as int].1);
        }
        if o < 0 {
            entries.insert(i, (key, true));
            proof {
                assert(parity_view(entries@) =~= start.take(i as int) + (seq![(k, true)] + rest));
            }
        } else {
            let p = entries[i].1;
            entries.set(i, (key, !p));
            proof {
                assert(parity_view(entries@) =~= start.take(i as int) + (seq![(k, !p)] + rest.drop_first()));
            }
        }
    }
}

/// `models` of a prefix extended by one element.
proof fn lemma_models_take_step(es: Seq<Expr>, i: int)
    requires
        0 <= i < es.len(),
    ensures
        models(es.take(i + 1)).drop_last() == models(es.take(i)),
        models(es.take(i + 1)).last() == es[i]@,
        models(es.take(i + 1)).len() == i + 1,
{
    assert(es.take(i + 1) =~= es.take(i).push(es[i]));
    lemma_models_push(es.take(i), es[i]);
    lemma_models_index(es.take(i + 1));
    assert(models(es.take(i).push(es[i])).drop_last() =~= models(es.take(i)));
}

/// Gathers `e` into the running constant and coefficient list.
fn collect_add(e: &Expr, constant: &mut u64, entries: &mut Vec<(Expr, u64)>)
    ensures
        (*final(constant), coefficient_view(final(entries)@)) == add_collect(
            e@,
            (*old(constant), coefficient_view(old(entries)@)),
        ),
    decreases e,
{
    match e {
        Expr::Add(children) => collect_add_all(children, constant, entries),
        _ => {
            let (c, base) = split_scale(e);
            match base {
                Expr::Const(v) => {
                    *constant = constant.wrapping_add(c.wrapping_mul(v));
                },
                _ => {
                    add_entry_exec(entries, base, c);
                },
            }
        },
    }
}

/// Gathers the operands of a sum from left to right.
fn collect_add_all(children: &Vec<Expr>, constant: &mut u64, entries: &mut Vec<(Expr, u64)>)
    ensures
        (*final(constant), coefficient_view(final(entries)@)) == add_collect_all(
            models(children@),
            (*old(constant), coefficient_view(old(entries)@)),
        ),
    decreases children,
{
    let ghost start = (*constant, coefficient_view(entries@));
    proof {
        assert(models(children@.take(0)) =~= Seq::<Term>::empty());
    }
    let mut i: usize = 0;
    while i < children.len()
        invariant
            i <= children.len(),
            start == (*old(constant), coefficient_view(old(entries)@)),
            (*constant, coefficient_view(entries@)) == add_collect_all(models(children@.take(i as int)), start),
        decreases children.len() - i,
    {
        proof {
            lemma_models_take_step(children@, i as int);
        }
        collect_add(&children[i], constant, entries);
        i += 1;
    }
    proof {
        assert(children@.take(i as int) =~= children@);
    }
}

/// Gathers `e` into the running constant and parity list.
fn collect_xor(e: &Expr, constant: &mut u64, entries: &mut Vec<(Expr, bool)>)
    ensures
        (*final(constant), parity_view(final(entries)@)) == xor_collect(
            e@,
            (*old(constant), parity_view(old(entries)@)),
        ),
    decreases e,
{
    match e {
        Expr::Xor(children) => collect_xor_all(children, constant, entries),
        Expr::Const(v) => {
            *constant = *constant ^ *v;
        },
        _ => {
            toggle_entry_exec(entries, clone_expr(e));
        },
    }
}

/// Gathers the operands of an exclusive or from left to right.
fn collect_xor_all(children: &Vec<Expr>, constant: &mut u64, entries: &mut Vec<(Expr, bool)>)
    ensures
        (*final(constant), parity_view(final(entries)@)) == xor_collect_all(
            models(children@),
            (*old(constant), parity_view(old(entries)@)),
        ),
    decreases children,
{
    let ghost start = (*constant, parity_view(entries@));
    proof {
        assert(models(children@.take(0)) =~= Seq::<Term>::empty());
    }
    let mut i: usize = 0;
    while i < children.len()
        invariant
            i <= children.len(),
            start == (*old(constant), parity_view(old(entries)@)),
            (*constant, parity_view(entries@)) == xor_collect_all(models(children@.take(i as int)), start),
        decreases children.len() - i,
    {
        proof {
            lemma_models_take_step(children@, i as int);
        }
        collect_xor(&children[i], constant, entries);
        i += 1;
    }
    proof {
        assert(children@.take(i as int) =~= children@);
    }
}

/// The terms followed by the constant when it is not zero, as one
/// expression.
fn assemble_exec(terms: Vec<Expr>, constant: u64, is_add: bool) -> (r: Expr)
    ensures
        r@ == assemble(models(terms@), constant, is_add),
{
    let mut all = terms;
    let ghost t = models(all@);
    if constant != 0 {
        let ghost before = all@;
        all.push(Expr::Const(constant));
        proof {
            lemma_models_push(before, Expr::Const(constant));
        }
    }
    proof {
        lemma_models_index(all@);
    }
    if all.len() == 0 {
        Expr::Const(0)
    } else if all.len() == 1 {
        let ghost before = all@;
        let only = all.pop().unwrap();
        proof {
            assert(before[0] == only);
        }
        only
    } else if is_add {
        Expr::Add(all)
    } else {
        Expr::Xor(all)
    }
}

/// The canonical form of the sum of `children`.
pub fn canonical_add(children: &Vec<Expr>) -> (r: Expr)
    ensures
        r@ == canonical_add_spec(models(children@)),
{
    let mut constant: u64 = 0;
    let mut entries: Vec<(Expr, u64)> = Vec::new();
    proof {
        assert(coefficient_view(entries@) =~= Seq::<(Term, u64)>::empty());
    }
    collect_add_all(children, &mut constant, &mut entries);
    let ghost l = coefficient_view(entries@);
    let mut terms: Vec<Expr> = Vec::new();
    let mut i: usize = 0;
    proof {
        assert(l.take(0) =~= Seq::<(Term, u64)>::empty());
    }
    while i < entries.len()
        invariant
            i <= entries.len(),
            l == coefficient_view(entries@),
            models(terms@) == add_terms(l.take(i as int)),
        decreases entries.len() - i,
    {
        let c = entries[i].1;
        let ghost before = terms@;
        proof {
            assert(l.take(i + 1).drop_last() =~= l.take(i as int));
            assert(l.take(i + 1).last() == l[i as int]);
            assert(l[i as int] == (entries@[i as int].0@, entries@[i as int].1));
        }
        if c == 1 {
            let e = clone_expr(&entries[i].0);
            terms.push(e);
            proof {
                lemma_models_push(before, e);
            }
        } else if c != 0 {
            let e = Expr::Scale(c, Box::new(clone_expr(&entries[i].0)));
            terms.push(e);
            proof {
                lemma_models_push(before, e);
            }
        }
        i += 1;
    }
    proof {
        assert(l.take(i as int) =~= l);
    }
    assemble_exec(terms, constant, true)
}

/// The canonical form of the exclusive or of `children`.
pub fn canonical_xor(children: &Vec<Expr>) -> (r: Expr)
    ensures
        r@ == canonical_xor_spec(models(children@)),
{
    let mut constant: u64 = 0;
    let mut entries: Vec<(Expr, bool)> = Vec::new();
    proof {
        assert(parity_view(entries@) =~= Seq::<(Term, bool)>::empty());
    }
    collect_xor_all(children, &mut constant, &mut entries);
    let ghost l = parity_view(entries@);
    let mut terms: Vec<Expr> = Vec::new();
    let mut i: usize = 0;
    proof {
        assert(l.take(0) =~= Seq::<(Term, bool)>::empty());
    }
    while i < entries.len()
        invariant
            i <= entries.len(),
            l == parity_view(entries@),
            models(terms@) == odd_terms(l.take(i as int)),
        decreases entries.len() - i,
    {
        let ghost before = terms@;
        proof {
            assert(l.take(i + 1).drop_last() =~= l.take(i as int));
            assert(l.take(i + 1).last() == l[i as int]);
            assert(l[i as int] == (entries@[i as int].0@, entries@[i as int].1));
        }
        if entries[i].1 {
            let e = clone_expr(&entries[i].0);
            terms.push(e);
            proof {
                lemma_models_push(before, e);
            }
        }
        i += 1;
    }
    proof {
        assert(l.take(i as int) =~= l);
    }
    assemble_exec(terms, constant, false)
}

/// The canonical form of a sum or an exclusive or, when it differs from
/// the expression itself.
pub fn canonical_composition(expression: &Expr) -> (r: Option<Expr>)
    ensures
        match canonical_composition_spec(expression@) {
            Some(c) => r is Some && r->0@ == c,
            None => r is None,
        },
{
    let canonical = match expression {
        Expr::Add(children) => canonical_add(children),
        Expr::Xor(children) => canonical_xor(children),
        _ => {
            return None;
        },
    };
    if expr_equal(&canonical, expression) {
        None
    } else {
        Some(canonical)
    }
}

} // verus!
