//! What canonicalization keeps: bases stay strictly ordered, the canonical
//! form is never larger than its source, and a canonical form that could be
//! canonicalized again is strictly smaller than its source. Repeated
//! canonicalization therefore stops.
use vstd::prelude::*;
use crate::expr::{Op, Term, size, sizes, lemma_fold_push, vars_below, all_vars_below};
use crate::order::{term_order, lemma_order_basics, lemma_order_transitive};
use crate::stationary::split_scale_spec;
use crate::canonical::{
    Coefficients, Parities, add_entry, toggle_entry, add_collect, add_collect_all, xor_collect,
    xor_collect_all, add_terms, odd_terms, assemble, canonical_add_spec, canonical_xor_spec,
    canonical_composition_spec,
};

verus! {

/// `1` when `k` is not zero.
pub open spec fn nonzero(k: u64) -> int {
    if k != 0 {
        1
    } else {
        0
    }
}

/// The nodes a coefficient entry accounts for: none for a zero coefficient;
/// else its base, plus one for a coefficient other than one or a base that
/// is a sum.
pub open spec fn entry_weight(x: (Term, u64)) -> int {
    if x.1 == 0 {
        0
    } else {
        size(x.0) + (if x.1 != 1 || x.0 is Add {
            1int
        } else {
            0
        })
    }
}

/// The nodes a coefficient list accounts for.
pub open spec fn weight(l: Coefficients) -> int
    decreases l.len(),
{
    if l.len() == 0 {
        0
    } else {
        weight(l.drop_last()) + entry_weight(l.last())
    }
}

/// The number of sums kept bare with a unit coefficient.
pub open spec fn bare_sums(l: Coefficients) -> int
    decreases l.len(),
{
    if l.len() == 0 {
        0
    } else {
        bare_sums(l.drop_last()) + (if l.last().1 == 1 && l.last().0 is Add {
            1int
        } else {
            0
        })
    }
}

/// The nodes of the bases of odd parity.
pub open spec fn parity_weight(l: Parities) -> int
    decreases l.len(),
{
    if l.len() == 0 {
        0
    } else {
        parity_weight(l.drop_last()) + (if l.last().1 {
            size(l.last().0) as int
        } else {
            0
        })
    }
}

/// Bases strictly ascending, none a constant or a scaling.
pub open spec fn coefficients_ok(l: Coefficients) -> bool {
    &&& forall|i: int, j: int| 0 <= i < j < l.len() ==> term_order(#[trigger] l[i].0, #[trigger] l[j].0) < 0
    &&& forall|i: int| 0 <= i < l.len() ==> !(#[trigger] l[i].0 is Const) && !(l[i].0 is Scale)
}

/// Bases strictly ascending, none a constant or an exclusive or.
pub open spec fn parities_ok(l: Parities) -> bool {
    &&& forall|i: int, j: int| 0 <= i < j < l.len() ==> term_order(#[trigger] l[i].0, #[trigger] l[j].0) < 0
    &&& forall|i: int| 0 <= i < l.len() ==> !(#[trigger] l[i].0 is Const) && !(l[i].0 is Xor)
}

/// The entries with a coefficient other than zero.
pub open spec fn nonzero_entries(l: Coefficients) -> Coefficients
    decreases l.len(),
{
    if l.len() == 0 {
        l
    } else if l.last().1 == 0 {
        nonzero_entries(l.drop_last())
    } else {
        nonzero_entries(l.drop_last()).push(l.last())
    }
}

/// The entries of odd parity.
pub open spec fn odd_entries(l: Parities) -> Parities
    decreases l.len(),
{
    if l.len() == 0 {
        l
    } else if l.last().1 {
        odd_entries(l.drop_last()).push(l.last())
    } else {
        odd_entries(l.drop_last())
    }
}

proof fn lemma_weight_concat(a: Coefficients, b: Coefficients)
    ensures
        weight(a + b) == weight(a) + weight(b),
    decreases b.len(),
{
    if b.len() == 0 {
        assert(a + b =~= a);
    } else {
        assert((a + b).drop_last() =~= a + b.drop_last());
        lemma_weight_concat(a, b.drop_last());
    }
}

proof fn lemma_parity_weight_concat(a: Parities, b: Parities)
    ensures
        parity_weight(a + b) == parity_weight(a) + parity_weight(b),
    decreases b.len(),
{
    if b.len() == 0 {
        assert(a + b =~= a);
    } else {
        assert((a + b).drop_last() =~= a + b.drop_last());
        lemma_parity_weight_concat(a, b.drop_last());
    }
}

proof fn lemma_weight_single(x: (Term, u64))
    ensures
        weight(seq![x]) == entry_weight(x),
{
    let s = seq![x];
    assert(s.drop_last() =~= Seq::<(Term, u64)>::empty());
    assert(s.last() == x);
    assert(weight(s.drop_last()) == 0);
}

proof fn lemma_parity_weight_single(x: (Term, bool))
    ensures
        parity_weight(seq![x]) == (if x.1 {
            size(x.0) as int
        } else {
            0
        }),
{
    let s = seq![x];
    assert(s.drop_last() =~= Seq::<(Term, bool)>::empty());
    assert(s.last() == x);
    assert(parity_weight(s.drop_last()) == 0);
}

/// The unscaled base of `t` is no scaling, and its scalings are nodes of
/// `t`.
pub proof fn lemma_split_scale(t: Term)
    ensures
        !(split_scale_spec(t).1 is Scale),
        size(split_scale_spec(t).1) + (if t is Scale {
            1int
        } else {
            0
        }) <= size(t),
        !(t is Scale) ==> split_scale_spec(t) == (1u64, t),
    decreases t,
{
    if let Term::Scale(c, x) = t {
        lemma_split_scale(*x);
    }
}

/// Adding to a coefficient list costs at most the entry's own weight.
proof fn lemma_add_entry_weight(l: Coefficients, k: Term, d: u64)
    ensures
        weight(add_entry(l, k, d)) <= weight(l) + entry_weight((k, d)),
    decreases l.len(),
{
    lemma_weight_single((k, d));
    if l.len() == 0 {
    } else {
        let rest = l.drop_first();
        assert(l =~= seq![l[0]] + rest);
        lemma_weight_concat(seq![l[0]], rest);
        lemma_weight_single(l[0]);
        if term_order(k, l[0].0) < 0 {
            lemma_weight_concat(seq![(k, d)], l);
        } else if term_order(k, l[0].0) == 0 {
            lemma_order_basics(k, l[0].0);
            let n = (k, l[0].1.wrapping_add(d));
            lemma_weight_concat(seq![n], rest);
            lemma_weight_single(n);
        } else {
            lemma_add_entry_weight(rest, k, d);
            lemma_weight_concat(seq![l[0]], add_entry(rest, k, d));
        }
    }
}

/// Flipping a parity costs at most the base's size.
proof fn lemma_toggle_entry_weight(l: Parities, k: Term)
    ensures
        parity_weight(toggle_entry(l, k)) <= parity_weight(l) + size(k),
    decreases l.len(),
{
    lemma_parity_weight_single((k, true));
    if l.len() > 0 {
        let rest = l.drop_first();
        assert(l =~= seq![l[0]] + rest);
        lemma_parity_weight_concat(seq![l[0]], rest);
        lemma_parity_weight_single(l[0]);
        if term_order(k, l[0].0) < 0 {
            lemma_parity_weight_concat(seq![(k, true)], l);
        } else if term_order(k, l[0].0) == 0 {
            lemma_order_basics(k, l[0].0);
            lemma_parity_weight_concat(seq![(k, !l[0].1)], rest);
            lemma_parity_weight_single((k, !l[0].1));
        } else {
            lemma_toggle_entry_weight(rest, k);
            lemma_parity_weight_concat(seq![l[0]], toggle_entry(rest, k));
        }
    }
}

/// Gathering `t` into a sum accounts for at most `size(t)` more nodes.
proof fn lemma_add_collect_weight(t: Term, st: (u64, Coefficients))
    ensures
        weight(add_collect(t, st).1) + nonzero(add_collect(t, st).0) <= weight(st.1) + nonzero(st.0) + size(t),
    decreases t,
{
    match t {
        Term::Add(ts) => {
            lemma_add_collect_all_weight(ts, st);
        },
        _ => {
            lemma_split_scale(t);
            let (c, base) = split_scale_spec(t);
            match base {
                Term::Const(v) => {},
                _ => {
                    lemma_add_entry_weight(st.1, base, c);
                },
            }
        },
    }
}

/// Gathering the terms of `ts` accounts for at most `sizes(ts)` more nodes.
proof fn lemma_add_collect_all_weight(ts: Seq<Term>, st: (u64, Coefficients))
    ensures
        weight(add_collect_all(ts, st).1) + nonzero(add_collect_all(ts, st).0) <= weight(st.1) + nonzero(st.0)
            + sizes(ts),
    decreases ts,
{
    if ts.len() > 0 {
        lemma_add_collect_all_weight(ts.drop_last(), st);
        lemma_add_collect_weight(ts.last(), add_collect_all(ts.drop_last(), st));
    }
}

/// Gathering `t` into an exclusive or accounts for at most `size(t)` more
/// nodes.
proof fn lemma_xor_collect_weight(t: Term, st: (u64, Parities))
    ensures
        parity_weight(xor_collect(t, st).1) + nonzero(xor_collect(t, st).0) <= parity_weight(st.1) + nonzero(st.0)
            + size(t),
    decreases t,
{
    match t {
        Term::Xor(ts) => {
            lemma_xor_collect_all_weight(ts, st);
        },
        Term::Const(v) => {},
        _ => {
            lemma_toggle_entry_weight(st.1, t);
        },
    }
}

/// Gathering the terms of `ts` accounts for at most `sizes(ts)` more nodes.
proof fn lemma_xor_collect_all_weight(ts: Seq<Term>, st: (u64, Parities))
    ensures
        parity_weight(xor_collect_all(ts, st).1) + nonzero(xor_collect_all(ts, st).0) <= parity_weight(st.1)
            + nonzero(st.0) + sizes(ts),
    decreases ts,
{
    if ts.len() > 0 {
        lemma_xor_collect_all_weight(ts.drop_last(), st);
        lemma_xor_collect_weight(ts.last(), xor_collect_all(ts.drop_last(), st));
    }
}

/// The terms of a coefficient list have the nodes it accounts for, less
/// one for each bare sum.
proof fn lemma_add_terms_size(l: Coefficients)
    ensures
        sizes(add_terms(l)) + bare_sums(l) == weight(l),
    decreases l.len(),
{
    if l.len() > 0 {
        lemma_add_terms_size(l.drop_last());
        let rest = add_terms(l.drop_last());
        let (e, c) = l.last();
        lemma_fold_push(Op::Add, rest, e, Seq::empty());
        lemma_fold_push(Op::Add, rest, Term::Scale(c, Box::new(e)), Seq::empty());
    }
}

/// The bases of odd parity have the nodes the list accounts for.
proof fn lemma_odd_terms_size(l: Parities)
    ensures
        sizes(odd_terms(l)) == parity_weight(l),
    decreases l.len(),
{
    if l.len() > 0 {
        lemma_odd_terms_size(l.drop_last());
        lemma_fold_push(Op::Add, odd_terms(l.drop_last()), l.last().0, Seq::empty());
    }
}

/// Every term has at least one node.
proof fn lemma_size_positive(t: Term)
    ensures
        size(t) >= 1,
{
}

/// The size of an assembled term.
proof fn lemma_assemble_size(terms: Seq<Term>, k: u64, is_add: bool)
    ensures
        terms.len() + nonzero(k) >= 2 ==> size(assemble(terms, k, is_add)) == 1 + sizes(terms) + nonzero(k),
        terms.len() + nonzero(k) == 1 ==> size(assemble(terms, k, is_add)) == sizes(terms) + nonzero(k),
        terms.len() + nonzero(k) == 0 ==> size(assemble(terms, k, is_add)) == 1,
{
    let all = if k != 0 {
        terms.push(Term::Const(k))
    } else {
        terms
    };
    lemma_fold_push(Op::Add, terms, Term::Const(k), Seq::empty());
    if all.len() == 1 {
        assert(all.drop_last() =~= Seq::<Term>::empty());
        assert(all.last() == all[0]);
        assert(sizes(all.drop_last()) == 0);
        assert(sizes(all) == size(all[0]));
    }
}

/// Every base of `l` is above `b`.
pub open spec fn coefficients_above(l: Coefficients, b: Term) -> bool {
    forall|j: int| 0 <= j < l.len() ==> term_order(b, #[trigger] l[j].0) < 0
}

/// Every base of `l` is above `b`.
pub open spec fn parities_above(l: Parities, b: Term) -> bool {
    forall|j: int| 0 <= j < l.len() ==> term_order(b, #[trigger] l[j].0) < 0
}

/// Putting an entry below all bases in front keeps the list well formed.
proof fn lemma_coefficients_cons(x: (Term, u64), m: Coefficients)
    requires
        coefficients_ok(m),
        coefficients_above(m, x.0),
        !(x.0 is Const),
        !(x.0 is Scale),
    ensures
        coefficients_ok(seq![x] + m),
{
    let r = seq![x] + m;
    assert forall|i: int, j: int| 0 <= i < j < r.len() implies term_order(#[trigger] r[i].0, #[trigger] r[j].0) < 0 by {
        if i == 0 {
            assert(r[j] == m[j - 1]);
        } else {
            assert(r[i] == m[i - 1]);
            assert(r[j] == m[j - 1]);
        }
    }
    assert forall|i: int| 0 <= i < r.len() implies !(#[trigger] r[i].0 is Const) && !(r[i].0 is Scale) by {
        if i > 0 {
            assert(r[i] == m[i - 1]);
        }
    }
}

/// Putting an entry below all bases in front keeps the list well formed.
proof fn lemma_parities_cons(x: (Term, bool), m: Parities)
    requires
        parities_ok(m),
        parities_above(m, x.0),
        !(x.0 is Const),
        !(x.0 is Xor),
    ensures
        parities_ok(seq![x] + m),
{
    let r = seq![x] + m;
    assert forall|i: int, j: int| 0 <= i < j < r.len() implies term_order(#[trigger] r[i].0, #[trigger] r[j].0) < 0 by {
        if i == 0 {
            assert(r[j] == m[j - 1]);
        } else {
            assert(r[i] == m[i - 1]);
            assert(r[j] == m[j - 1]);
        }
    }
    assert forall|i: int| 0 <= i < r.len() implies !(#[trigger] r[i].0 is Const) && !(r[i].0 is Xor) by {
        if i > 0 {
            assert(r[i] == m[i - 1]);
        }
    }
}

/// Adding to a coefficient keeps the bases well formed, and a bound below
/// the old bases and the new base stays below all of them.
proof fn lemma_add_entry_ok(l: Coefficients, k: Term, d: u64, b: Term)
    requires
        coefficients_ok(l),
        !(k is Const),
        !(k is Scale),
    ensures
        coefficients_ok(add_entry(l, k, d)),
        coefficients_above(l, b) && term_order(b, k) < 0 ==> coefficients_above(add_entry(l, k, d), b),
    decreases l.len(),
{
    let r = add_entry(l, k, d);
    if l.len() == 0 {
        lemma_coefficients_cons((k, d), l);
    } else {
        let rest = l.drop_first();
        assert(l =~= seq![l[0]] + rest);
        assert(coefficients_ok(rest)) by {
            assert forall|i: int, j: int| 0 <= i < j < rest.len() implies term_order(
                #[trigger] rest[i].0,
                #[trigger] rest[j].0,
            ) < 0 by {
                assert(rest[i] == l[i + 1]);
                assert(rest[j] == l[j + 1]);
            }
            assert forall|i: int| 0 <= i < rest.len() implies !(#[trigger] rest[i].0 is Const) && !(
            rest[i].0 is Scale) by {
                assert(rest[i] == l[i + 1]);
            }
        }
        assert(coefficients_above(rest, l[0].0)) by {
            assert forall|j: int| 0 <= j < rest.len() implies term_order(l[0].0, #[trigger] rest[j].0) < 0 by {
                assert(rest[j] == l[j + 1]);
            }
        }
        if term_order(k, l[0].0) < 0 {
            assert(coefficients_above(l, k)) by {
                assert forall|j: int| 0 <= j < l.len() implies term_order(k, #[trigger] l[j].0) < 0 by {
                    if j > 0 {
                        lemma_order_transitive(k, l[0].0, l[j].0);
                    }
                }
            }
            lemma_coefficients_cons((k, d), l);
        } else if term_order(k, l[0].0) == 0 {
            lemma_order_basics(k, l[0].0);
            lemma_coefficients_cons((k, l[0].1.wrapping_add(d)), rest);
            assert(coefficients_above(l, b) ==> coefficients_above(r, b)) by {
                if coefficients_above(l, b) {
                    assert forall|j: int| 0 <= j < r.len() implies term_order(b, #[trigger] r[j].0) < 0 by {
                        if j == 0 {
                            assert(term_order(b, l[0].0) < 0);
                        } else {
                            assert(r[j] == l[j]);
                        }
                    }
                }
            }
        } else {
            lemma_order_basics(k, l[0].0);
            lemma_add_entry_ok(rest, k, d, l[0].0);
            lemma_add_entry_ok(rest, k, d, b);
            lemma_coefficients_cons(l[0], add_entry(rest, k, d));
            assert(coefficients_above(l, b) && term_order(b, k) < 0 ==> coefficients_above(r, b)) by {
                if coefficients_above(l, b) && term_order(b, k) < 0 {
                    assert(coefficients_above(rest, b)) by {
                        assert forall|j: int| 0 <= j < rest.len() implies term_order(b, #[trigger] rest[j].0) < 0 by {
                            assert(rest[j] == l[j + 1]);
                        }
                    }
                    let r2 = add_entry(rest, k, d);
                    assert forall|j: int| 0 <= j < r.len() implies term_order(b, #[trigger] r[j].0) < 0 by {
                        if j == 0 {
                            assert(term_order(b, l[0].0) < 0);
                        } else {
                            assert(r[j] == r2[j - 1]);
                        }
                    }
                }
            }
        }
    }
}

/// Flipping a parity keeps the bases well formed, and a bound below the old
/// bases and the new base stays below all of them.
proof fn lemma_toggle_entry_ok(l: Parities, k: Term, b: Term)
    requires
        parities_ok(l),
        !(k is Const),
        !(k is Xor),
    ensures
        parities_ok(toggle_entry(l, k)),
        parities_above(l, b) && term_order(b, k) < 0 ==> parities_above(toggle_entry(l, k), b),
    decreases l.len(),
{
    let r = toggle_entry(l, k);
    if l.len() == 0 {
        lemma_parities_cons((k, true), l);
    } else {
        let rest = l.drop_first();
        assert(l =~= seq![l[0]] + rest);
        assert(parities_ok(rest)) by {
            assert forall|i: int, j: int| 0 <= i < j < rest.len() implies term_order(
                #[trigger] rest[i].0,
                #[trigger] rest[j].0,
            ) < 0 by {
                assert(rest[i] == l[i + 1]);
                assert(rest[j] == l[j + 1]);
            }
            assert forall|i: int| 0 <= i < rest.len() implies !(#[trigger] rest[i].0 is Const) && !(
            rest[i].0 is Xor) by {
                assert(rest[i] == l[i + 1]);
            }
        }
        assert(parities_above(rest, l[0].0)) by {
            assert forall|j: int| 0 <= j < rest.len() implies term_order(l[0].0, #[trigger] rest[j].0) < 0 by {
                assert(rest[j] == l[j + 1]);
            }
        }
        if term_order(k, l[0].0) < 0 {
            assert(parities_above(l, k)) by {
                assert forall|j: int| 0 <= j < l.len() implies term_order(k, #[trigger] l[j].0) < 0 by {
                    if j > 0 {
                        lemma_order_transitive(k, l[0].0, l[j].0);
                    }
                }
            }
            lemma_parities_cons((k, true), l);
        } else if term_order(k, l[0].0) == 0 {
            lemma_order_basics(k, l[0].0);
            lemma_parities_cons((k, !l[0].1), rest);
            assert(parities_above(l, b) ==> parities_above(r, b)) by {
                if parities_above(l, b) {
                    assert forall|j: int| 0 <= j < r.len() implies term_order(b, #[trigger] r[j].0) < 0 by {
                        if j == 0 {
                            assert(term_order(b, l[0].0) < 0);
                        } else {
                            assert(r[j] == l[j]);
                        }
                    }
                }
            }
        } else {
            lemma_order_basics(k, l[0].0);
            lemma_toggle_entry_ok(rest, k, l[0].0);
            lemma_toggle_entry_ok(rest, k, b);
            lemma_parities_cons(l[0], toggle_entry(rest, k));
            assert(parities_above(l, b) && term_order(b, k) < 0 ==> parities_above(r, b)) by {
                if parities_above(l, b) && term_order(b, k) < 0 {
                    assert(parities_above(rest, b)) by {
                        assert forall|j: int| 0 <= j < rest.len() implies term_order(b, #[trigger] rest[j].0) < 0 by {
                            assert(rest[j] == l[j + 1]);
                        }
                    }
                    let r2 = toggle_entry(rest, k);
                    assert forall|j: int| 0 <= j < r.len() implies term_order(b, #[trigger] r[j].0) < 0 by {
                        if j == 0 {
                            assert(term_order(b, l[0].0) < 0);
                        } else {
                            assert(r[j] == r2[j - 1]);
                        }
                    }
                }
            }
        }
    }
}

/// Gathering into a sum keeps the coefficient list well formed.
proof fn lemma_add_collect_ok(t: Term, st: (u64, Coefficients))
    requires
        coefficients_ok(st.1),
    ensures
        coefficients_ok(add_collect(t, st).1),
    decreases t,
{
    match t {
        Term::Add(ts) => {
            lemma_add_collect_all_ok(ts, st);
        },
        _ => {
            lemma_split_scale(t);
            let (c, base) = split_scale_spec(t);
            match base {
                Term::Const(v) => {},
                _ => {
                    lemma_add_entry_ok(st.1, base, c, base);
                },
            }
        },
    }
}

/// Gathering a list into a sum keeps the coefficient list well formed.
proof fn lemma_add_collect_all_ok(ts: Seq<Term>, st: (u64, Coefficients))
    requires
        coefficients_ok(st.1),
    ensures
        coefficients_ok(add_collect_all(ts, st).1),
    decreases ts,
{
    if ts.len() > 0 {
        lemma_add_collect_all_ok(ts.drop_last(), st);
        lemma_add_collect_ok(ts.last(), add_collect_all(ts.drop_last(), st));
    }
}

/// Gathering into an exclusive or keeps the parity list well formed.
proof fn lemma_xor_collect_ok(t: Term, st: (u64, Parities))
    requires
        parities_ok(st.1),
    ensures
        parities_ok(xor_collect(t, st).1),
    decreases t,
{
    match t {
        Term::Xor(ts) => {
            lemma_xor_collect_all_ok(ts, st);
        },
        Term::Const(v) => {},
        _ => {
            lemma_toggle_entry_ok(st.1, t, t);
        },
    }
}

/// Gathering a list into an exclusive or keeps the parity list well formed.
proof fn lemma_xor_collect_all_ok(ts: Seq<Term>, st: (u64, Parities))
    requires
        parities_ok(st.1),
    ensures
        parities_ok(xor_collect_all(ts, st).1),
    decreases ts,
{
    if ts.len() > 0 {
        lemma_xor_collect_all_ok(ts.drop_last(), st);
        lemma_xor_collect_ok(ts.last(), xor_collect_all(ts.drop_last(), st));
    }
}

/// Every base of `l` is below `k`.
pub open spec fn coefficients_below(l: Coefficients, k: Term) -> bool {
    forall|j: int| 0 <= j < l.len() ==> term_order(#[trigger] l[j].0, k) < 0
}

/// Every base of `l` is below `k`.
pub open spec fn parities_below(l: Parities, k: Term) -> bool {
    forall|j: int| 0 <= j < l.len() ==> term_order(#[trigger] l[j].0, k) < 0
}

/// A base above all others is appended.
proof fn lemma_add_entry_append(m: Coefficients, k: Term, d: u64)
    requires
        coefficients_below(m, k),
    ensures
        add_entry(m, k, d) == m.push((k, d)),
    decreases m.len(),
{
    if m.len() > 0 {
        let rest = m.drop_first();
        lemma_order_basics(m[0].0, k);
        assert(coefficients_below(rest, k)) by {
            assert forall|j: int| 0 <= j < rest.len() implies term_order(#[trigger] rest[j].0, k) < 0 by {
                assert(rest[j] == m[j + 1]);
            }
        }
        lemma_add_entry_append(rest, k, d);
        assert(seq![m[0]] + rest.push((k, d)) =~= m.push((k, d)));
    }
}

/// A base above all others is appended.
proof fn lemma_toggle_entry_append(m: Parities, k: Term)
    requires
        parities_below(m, k),
    ensures
        toggle_entry(m, k) == m.push((k, true)),
    decreases m.len(),
{
    if m.len() > 0 {
        let rest = m.drop_first();
        lemma_order_basics(m[0].0, k);
        assert(parities_below(rest, k)) by {
            assert forall|j: int| 0 <= j < rest.len() implies term_order(#[trigger] rest[j].0, k) < 0 by {
                assert(rest[j] == m[j + 1]);
            }
        }
        lemma_toggle_entry_append(rest, k);
        assert(seq![m[0]] + rest.push((k, true)) =~= m.push((k, true)));
    }
}

/// Dropping zero coefficients keeps every base below a bound.
proof fn lemma_nonzero_entries_below(l: Coefficients, k: Term)
    requires
        coefficients_below(l, k),
    ensures
        coefficients_below(nonzero_entries(l), k),
    decreases l.len(),
{
    if l.len() > 0 {
        let p = l.drop_last();
        assert(coefficients_below(p, k)) by {
            assert forall|j: int| 0 <= j < p.len() implies term_order(#[trigger] p[j].0, k) < 0 by {
                assert(p[j] == l[j]);
            }
        }
        lemma_nonzero_entries_below(p, k);
        let n = nonzero_entries(p);
        if l.last().1 != 0 {
            assert forall|j: int| 0 <= j < n.push(l.last()).len() implies term_order(
                #[trigger] n.push(l.last())[j].0,
                k,
            ) < 0 by {
                if j < n.len() {
                    assert(n.push(l.last())[j] == n[j]);
                } else {
                    assert(n.push(l.last())[j] == l[l.len() - 1]);
                }
            }
        }
    }
}

/// Dropping even parities keeps every base below a bound.
proof fn lemma_odd_entries_below(l: Parities, k: Term)
    requires
        parities_below(l, k),
    ensures
        parities_below(odd_entries(l), k),
    decreases l.len(),
{
    if l.len() > 0 {
        let p = l.drop_last();
        assert(parities_below(p, k)) by {
            assert forall|j: int| 0 <= j < p.len() implies term_order(#[trigger] p[j].0, k) < 0 by {
                assert(p[j] == l[j]);
            }
        }
        lemma_odd_entries_below(p, k);
        let n = odd_entries(p);
        if l.last().1 {
            assert forall|j: int| 0 <= j < n.push(l.last()).len() implies term_order(
                #[trigger] n.push(l.last())[j].0,
                k,
            ) < 0 by {
                if j < n.len() {
                    assert(n.push(l.last())[j] == n[j]);
                } else {
                    assert(n.push(l.last())[j] == l[l.len() - 1]);
                }
            }
        }
    }
}

/// Zero coefficients contribute no term.
proof fn lemma_add_terms_nonzero(l: Coefficients)
    ensures
        add_terms(nonzero_entries(l)) == add_terms(l),
    decreases l.len(),
{
    if l.len() > 0 {
        lemma_add_terms_nonzero(l.drop_last());
        let n = nonzero_entries(l.drop_last());
        assert(n.push(l.last()).drop_last() =~= n);
    }
}

/// Even parities contribute no term.
proof fn lemma_odd_terms_odd(l: Parities)
    ensures
        odd_terms(odd_entries(l)) == odd_terms(l),
    decreases l.len(),
{
    if l.len() > 0 {
        lemma_odd_terms_odd(l.drop_last());
        let n = odd_entries(l.drop_last());
        assert(n.push(l.last()).drop_last() =~= n);
    }
}

/// The bare-sum count is never negative.
proof fn lemma_bare_sums_nonnegative(l: Coefficients)
    ensures
        bare_sums(l) >= 0,
    decreases l.len(),
{
    if l.len() > 0 {
        lemma_bare_sums_nonnegative(l.drop_last());
    }
}

/// A well formed prefix of a well formed list, whose bases are below the
/// last one.
proof fn lemma_coefficients_prefix(l: Coefficients)
    requires
        coefficients_ok(l),
        l.len() > 0,
    ensures
        coefficients_ok(l.drop_last()),
        coefficients_below(l.drop_last(), l.last().0),
{
    let p = l.drop_last();
    assert forall|i: int, j: int| 0 <= i < j < p.len() implies term_order(#[trigger] p[i].0, #[trigger] p[j].0) < 0 by {
        assert(p[i] == l[i] && p[j] == l[j]);
    }
    assert forall|i: int| 0 <= i < p.len() implies !(#[trigger] p[i].0 is Const) && !(p[i].0 is Scale) by {
        assert(p[i] == l[i]);
    }
    assert forall|j: int| 0 <= j < p.len() implies term_order(#[trigger] p[j].0, l.last().0) < 0 by {
        assert(p[j] == l[j]);
        assert(term_order(l[j].0, l[l.len() - 1].0) < 0);
    }
}

/// A well formed prefix of a well formed list, whose bases are below the
/// last one.
proof fn lemma_parities_prefix(l: Parities)
    requires
        parities_ok(l),
        l.len() > 0,
    ensures
        parities_ok(l.drop_last()),
        parities_below(l.drop_last(), l.last().0),
{
    let p = l.drop_last();
    assert forall|i: int, j: int| 0 <= i < j < p.len() implies term_order(#[trigger] p[i].0, #[trigger] p[j].0) < 0 by {
        assert(p[i] == l[i] && p[j] == l[j]);
    }
    assert forall|i: int| 0 <= i < p.len() implies !(#[trigger] p[i].0 is Const) && !(p[i].0 is Xor) by {
        assert(p[i] == l[i]);
    }
    assert forall|j: int| 0 <= j < p.len() implies term_order(#[trigger] p[j].0, l.last().0) < 0 by {
        assert(p[j] == l[j]);
        assert(term_order(l[j].0, l[l.len() - 1].0) < 0);
    }
}

/// Gathering the terms of a well formed coefficient list without bare sums
/// gives back its entries with a coefficient other than zero.
proof fn lemma_add_terms_regather(l: Coefficients)
    requires
        coefficients_ok(l),
        bare_sums(l) == 0,
    ensures
        add_collect_all(add_terms(l), (0u64, Seq::empty())) == (0u64, nonzero_entries(l)),
    decreases l.len(),
{
    if l.len() > 0 {
        let p = l.drop_last();
        let (e, c) = l.last();
        lemma_coefficients_prefix(l);
        lemma_bare_sums_nonnegative(p);
        lemma_add_terms_regather(p);
        let ts = add_terms(p);
        let n = nonzero_entries(p);
        lemma_nonzero_entries_below(p, e);
        assert(l[l.len() - 1] == l.last());
        assert(!(e is Const) && !(e is Scale));
        lemma_split_scale(e);
        if c == 1 {
            assert(ts.push(e).drop_last() =~= ts);
            assert(add_terms(l) == ts.push(e));
            lemma_add_entry_append(n, e, 1);
            assert(add_collect_all(ts.push(e), (0u64, Seq::empty())) == add_collect(e, (0u64, n)));
            assert(add_collect(e, (0u64, n)) == (0u64, n.push((e, 1u64))));
            assert(nonzero_entries(l) == n.push((e, c)));
        } else if c != 0 {
            let sc = Term::Scale(c, Box::new(e));
            assert(ts.push(sc).drop_last() =~= ts);
            assert(c.wrapping_mul(1u64) == c);
            assert(split_scale_spec(sc) == (c, e));
            assert(add_terms(l) == ts.push(sc));
            lemma_add_entry_append(n, e, c);
            assert(add_collect_all(ts.push(sc), (0u64, Seq::empty())) == add_collect(sc, (0u64, n)));
            assert(add_collect(sc, (0u64, n)) == (0u64, n.push((e, c))));
            assert(nonzero_entries(l) == n.push((e, c)));
        } else {
            assert(add_terms(l) == ts);
            assert(nonzero_entries(l) == n);
        }
    } else {
        assert(l =~= Seq::<(Term, u64)>::empty());
    }
}

/// Gathering the odd bases of a well formed parity list gives back its
/// entries of odd parity.
proof fn lemma_odd_terms_regather(l: Parities)
    requires
        parities_ok(l),
    ensures
        xor_collect_all(odd_terms(l), (0u64, Seq::empty())) == (0u64, odd_entries(l)),
    decreases l.len(),
{
    if l.len() > 0 {
        let p = l.drop_last();
        let (e, b) = l.last();
        lemma_parities_prefix(l);
        lemma_odd_terms_regather(p);
        let ts = odd_terms(p);
        let n = odd_entries(p);
        lemma_odd_entries_below(p, e);
        assert(l[l.len() - 1] == l.last());
        assert(!(l[l.len() - 1].0 is Const) && !(l[l.len() - 1].0 is Xor));
        if b {
            assert(ts.push(e).drop_last() =~= ts);
            assert(odd_terms(l) == ts.push(e));
            lemma_toggle_entry_append(n, e);
            assert(xor_collect_all(ts.push(e), (0u64, Seq::empty())) == xor_collect(e, (0u64, n)));
            assert(xor_collect(e, (0u64, n)) == (0u64, n.push((e, true))));
            assert(odd_entries(l) == n.push((e, b)));
        } else {
            assert(odd_terms(l) == ts);
            assert(odd_entries(l) == n);
        }
    } else {
        assert(l =~= Seq::<(Term, bool)>::empty());
    }
}

/// The canonical sum of `ts` is no larger than the sum, and strictly
/// smaller when it could be canonicalized again.
proof fn lemma_canonical_add_shrinks(ts: Seq<Term>)
    ensures
        size(canonical_add_spec(ts)) <= size(Term::Add(ts)),
        canonical_composition_spec(canonical_add_spec(ts)) is Some ==> size(canonical_add_spec(ts)) < size(
            Term::Add(ts),
        ),
{
    let st0 = (0u64, Seq::<(Term, u64)>::empty());
    let (k, l) = add_collect_all(ts, st0);
    let terms = add_terms(l);
    let c1 = canonical_add_spec(ts);
    assert(weight(st0.1) == 0);
    lemma_add_collect_all_weight(ts, st0);
    lemma_add_collect_all_ok(ts, st0);
    lemma_add_terms_size(l);
    lemma_bare_sums_nonnegative(l);
    lemma_assemble_size(terms, k, true);
    if terms.len() + nonzero(k) >= 2 && bare_sums(l) == 0 {
        let all = if k != 0 {
            terms.push(Term::Const(k))
        } else {
            terms
        };
        assert(c1 == Term::Add(all));
        lemma_add_terms_regather(l);
        lemma_add_terms_nonzero(l);
        if k != 0 {
            assert(all.drop_last() =~= terms);
            assert(split_scale_spec(Term::Const(k)) == (1u64, Term::Const(k)));
            assert(0u64.wrapping_add(1u64.wrapping_mul(k)) == k);
            assert(all.last() == Term::Const(k));
            assert(add_collect_all(all, st0) == add_collect(Term::Const(k), add_collect_all(terms, st0)));
        }
        assert(add_collect_all(all, st0) == (k, nonzero_entries(l)));
        assert(canonical_add_spec(all) == c1);
    }
}

/// The canonical exclusive or of `ts` is no larger than the exclusive or,
/// and strictly smaller when it could be canonicalized again.
proof fn lemma_canonical_xor_shrinks(ts: Seq<Term>)
    ensures
        size(canonical_xor_spec(ts)) <= size(Term::Xor(ts)),
        canonical_composition_spec(canonical_xor_spec(ts)) is Some ==> size(canonical_xor_spec(ts)) < size(
            Term::Xor(ts),
        ),
{
    let st0 = (0u64, Seq::<(Term, bool)>::empty());
    let (k, l) = xor_collect_all(ts, st0);
    let terms = odd_terms(l);
    let c1 = canonical_xor_spec(ts);
    assert(parity_weight(st0.1) == 0);
    lemma_xor_collect_all_weight(ts, st0);
    lemma_xor_collect_all_ok(ts, st0);
    lemma_odd_terms_size(l);
    lemma_assemble_size(terms, k, false);
    if terms.len() + nonzero(k) >= 2 {
        let all = if k != 0 {
            terms.push(Term::Const(k))
        } else {
            terms
        };
        assert(c1 == Term::Xor(all));
        lemma_odd_terms_regather(l);
        lemma_odd_terms_odd(l);
        if k != 0 {
            assert(all.drop_last() =~= terms);
            assert(0u64 ^ k == k) by (bit_vector);
            assert(all.last() == Term::Const(k));
            assert(xor_collect_all(all, st0) == xor_collect(Term::Const(k), xor_collect_all(terms, st0)));
        }
        assert(xor_collect_all(all, st0) == (k, odd_entries(l)));
        assert(canonical_xor_spec(all) == c1);
    }
}

/// Canonicalization terminates: a canonical form is never larger than its
/// source, and one that can be canonicalized again is strictly smaller.
pub proof fn lemma_canonical_shrinks(t: Term)
    ensures
        match canonical_composition_spec(t) {
            Some(c) => size(c) <= size(t) && (canonical_composition_spec(c) is Some ==> size(c) < size(t)),
            None => true,
        },
{
    match t {
        Term::Add(ts) => lemma_canonical_add_shrinks(ts),
        Term::Xor(ts) => lemma_canonical_xor_shrinks(ts),
        _ => {},
    }
}

/// Every base of `l` has its variables below `n`.
pub open spec fn coefficient_vars_below(l: Coefficients, n: nat) -> bool {
    forall|i: int| 0 <= i < l.len() ==> vars_below(#[trigger] l[i].0, n)
}

/// Every base of `l` has its variables below `n`.
pub open spec fn parity_vars_below(l: Parities, n: nat) -> bool {
    forall|i: int| 0 <= i < l.len() ==> vars_below(#[trigger] l[i].0, n)
}

proof fn lemma_split_scale_vars(t: Term, n: nat)
    requires
        vars_below(t, n),
    ensures
        vars_below(split_scale_spec(t).1, n),
    decreases t,
{
    if let Term::Scale(c, x) = t {
        lemma_split_scale_vars(*x, n);
    }
}

proof fn lemma_add_entry_vars(l: Coefficients, k: Term, d: u64, n: nat)
    requires
        coefficient_vars_below(l, n),
        vars_below(k, n),
    ensures
        coefficient_vars_below(add_entry(l, k, d), n),
    decreases l.len(),
{
    if l.len() > 0 {
        let rest = l.drop_first();
        assert(coefficient_vars_below(rest, n)) by {
            assert forall|i: int| 0 <= i < rest.len() implies vars_below(#[trigger] rest[i].0, n) by {
                assert(rest[i] == l[i + 1]);
            }
        }
        lemma_add_entry_vars(rest, k, d, n);
        let r = add_entry(l, k, d);
        assert forall|i: int| 0 <= i < r.len() implies vars_below(#[trigger] r[i].0, n) by {
            if term_order(k, l[0].0) < 0 {
                if i > 0 {
                    assert(r[i] == l[i - 1]);
                }
            } else if term_order(k, l[0].0) == 0 {
                if i > 0 {
                    assert(r[i] == rest[i - 1]);
                }
            } else {
                if i > 0 {
                    assert(r[i] == add_entry(rest, k, d)[i - 1]);
                } else {
                    assert(r[i] == l[0]);
                }
            }
        }
    }
}

proof fn lemma_toggle_entry_vars(l: Parities, k: Term, n: nat)
    requires
        parity_vars_below(l, n),
        vars_below(k, n),
    ensures
        parity_vars_below(toggle_entry(l, k), n),
    decreases l.len(),
{
    if l.len() > 0 {
        let rest = l.drop_first();
        assert(parity_vars_below(rest, n)) by {
            assert forall|i: int| 0 <= i < rest.len() implies vars_below(#[trigger] rest[i].0, n) by {
                assert(rest[i] == l[i + 1]);
            }
        }
        lemma_toggle_entry_vars(rest, k, n);
        let r = toggle_entry(l, k);
        assert forall|i: int| 0 <= i < r.len() implies vars_below(#[trigger] r[i].0, n) by {
            if term_order(k, l[0].0) < 0 {
                if i > 0 {
                    assert(r[i] == l[i - 1]);
                }
            } else if term_order(k, l[0].0) == 0 {
                if i > 0 {
                    assert(r[i] == rest[i - 1]);
                }
            } else {
                if i > 0 {
                    assert(r[i] == toggle_entry(rest, k)[i - 1]);
                } else {
                    assert(r[i] == l[0]);
                }
            }
        }
    }
}

proof fn lemma_add_collect_vars(t: Term, st: (u64, Coefficients), n: nat)
    requires
        vars_below(t, n),
        coefficient_vars_below(st.1, n),
    ensures
        coefficient_vars_below(add_collect(t, st).1, n),
    decreases t,
{
    match t {
        Term::Add(ts) => lemma_add_collect_all_vars(ts, st, n),
        _ => {
            lemma_split_scale_vars(t, n);
            let (c, base) = split_scale_spec(t);
            match base {
                Term::Const(v) => {},
                _ => lemma_add_entry_vars(st.1, base, c, n),
            }
        },
    }
}

proof fn lemma_add_collect_all_vars(ts: Seq<Term>, st: (u64, Coefficients), n: nat)
    requires
        all_vars_below(ts, n),
        coefficient_vars_below(st.1, n),
    ensures
        coefficient_vars_below(add_collect_all(ts, st).1, n),
    decreases ts,
{
    if ts.len() > 0 {
        assert(all_vars_below(ts.drop_last(), n)) by {
            assert forall|i: int| 0 <= i < ts.drop_last().len() implies vars_below(#[trigger] ts.drop_last()[i], n) by {
                assert(ts.drop_last()[i] == ts[i]);
            }
        }
        assert(vars_below(ts[ts.len() - 1], n));
        lemma_add_collect_all_vars(ts.drop_last(), st, n);
        lemma_add_collect_vars(ts.last(), add_collect_all(ts.drop_last(), st), n);
    }
}

proof fn lemma_xor_collect_vars(t: Term, st: (u64, Parities), n: nat)
    requires
        vars_below(t, n),
        parity_vars_below(st.1, n),
    ensures
        parity_vars_below(xor_collect(t, st).1, n),
    decreases t,
{
    match t {
        Term::Xor(ts) => lemma_xor_collect_all_vars(ts, st, n),
        Term::Const(v) => {},
        _ => lemma_toggle_entry_vars(st.1, t, n),
    }
}

proof fn lemma_xor_collect_all_vars(ts: Seq<Term>, st: (u64, Parities), n: nat)
    requires
        all_vars_below(ts, n),
        parity_vars_below(st.1, n),
    ensures
        parity_vars_below(xor_collect_all(ts, st).1, n),
    decreases ts,
{
    if ts.len() > 0 {
        assert(all_vars_below(ts.drop_last(), n)) by {
            assert forall|i: int| 0 <= i < ts.drop_last().len() implies vars_below(#[trigger] ts.drop_last()[i], n) by {
                assert(ts.drop_last()[i] == ts[i]);
            }
        }
        assert(vars_below(ts[ts.len() - 1], n));
        lemma_xor_collect_all_vars(ts.drop_last(), st, n);
        lemma_xor_collect_vars(ts.last(), xor_collect_all(ts.drop_last(), st), n);
    }
}

proof fn lemma_add_terms_vars(l: Coefficients, n: nat)
    requires
        coefficient_vars_below(l, n),
    ensures
        all_vars_below(add_terms(l), n),
    decreases l.len(),
{
    if l.len() > 0 {
        let p = l.drop_last();
        assert(coefficient_vars_below(p, n)) by {
            assert forall|i: int| 0 <= i < p.len() implies vars_below(#[trigger] p[i].0, n) by {
                assert(p[i] == l[i]);
            }
        }
        lemma_add_terms_vars(p, n);
        assert(vars_below(l[l.len() - 1].0, n));
        let rest = add_terms(p);
        let (e, c) = l.last();
        let x = Term::Scale(c, Box::new(e));
        assert(vars_below(x, n));
        assert forall|i: int| 0 <= i < rest.push(e).len() implies vars_below(#[trigger] rest.push(e)[i], n) by {
            if i < rest.len() {
                assert(rest.push(e)[i] == rest[i]);
            }
        }
        assert forall|i: int| 0 <= i < rest.push(x).len() implies vars_below(#[trigger] rest.push(x)[i], n) by {
            if i < rest.len() {
                assert(rest.push(x)[i] == rest[i]);
            }
        }
    }
}

proof fn lemma_odd_terms_vars(l: Parities, n: nat)
    requires
        parity_vars_below(l, n),
    ensures
        all_vars_below(odd_terms(l), n),
    decreases l.len(),
{
    if l.len() > 0 {
        let p = l.drop_last();
        assert(parity_vars_below(p, n)) by {
            assert forall|i: int| 0 <= i < p.len() implies vars_below(#[trigger] p[i].0, n) by {
                assert(p[i] == l[i]);
            }
        }
        lemma_odd_terms_vars(p, n);
        assert(vars_below(l[l.len() - 1].0, n));
        let rest = odd_terms(p);
        let e = l.last().0;
        assert forall|i: int| 0 <= i < rest.push(e).len() implies vars_below(#[trigger] rest.push(e)[i], n) by {
            if i < rest.len() {
                assert(rest.push(e)[i] == rest[i]);
            }
        }
    }
}

proof fn lemma_assemble_vars(terms: Seq<Term>, k: u64, is_add: bool, n: nat)
    requires
        all_vars_below(terms, n),
    ensures
        vars_below(assemble(terms, k, is_add), n),
{
    let all = if k != 0 {
        terms.push(Term::Const(k))
    } else {
        terms
    };
    assert forall|i: int| 0 <= i < all.len() implies vars_below(#[trigger] all[i], n) by {
        if i < terms.len() {
            assert(all[i] == terms[i]);
        }
    }
    assert(all_vars_below(all, n));
    if all.len() == 1 {
        assert(vars_below(all[0], n));
    } else if all.len() >= 2 {
        assert(vars_below(Term::Add(all), n));
        assert(vars_below(Term::Xor(all), n));
    }
}

/// Canonicalization introduces no variable: the canonical form has its
/// variables below any bound of its source.
pub proof fn lemma_canonical_vars(t: Term, n: nat)
    requires
        vars_below(t, n),
    ensures
        match canonical_composition_spec(t) {
            Some(c) => vars_below(c, n),
            None => true,
        },
{
    match t {
        Term::Add(ts) => {
            let st0 = (0u64, Seq::<(Term, u64)>::empty());
            lemma_add_collect_all_vars(ts, st0, n);
            let (k, l) = add_collect_all(ts, st0);
            lemma_add_terms_vars(l, n);
            lemma_assemble_vars(add_terms(l), k, true, n);
        },
        Term::Xor(ts) => {
            let st0 = (0u64, Seq::<(Term, bool)>::empty());
            lemma_xor_collect_all_vars(ts, st0, n);
            let (k, l) = xor_collect_all(ts, st0);
            lemma_odd_terms_vars(l, n);
            lemma_assemble_vars(odd_terms(l), k, false, n);
        },
        _ => {},
    }
}

} // verus!
